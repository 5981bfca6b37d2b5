//! The response to a query: field descriptions, a row count and the rows.

use vstd::prelude::*;
use vstd::utf8::{decode_utf8, encode_utf8, valid_utf8};

use crate::{ClientRecordCollection, DataRow, DataValue};
use crate::encoding::{
    be_u16, be_u32, be_u64, bits_of_i64, push_u32_be, push_u64_be, read_i64_be, read_u16_be,
    read_u32_be, read_u64_be, signed64, text_of_utf8, u32_be, u64_be, unsigned64,
};
use crate::execution::{ClientQueryResult, QueryResult};
use crate::wire_protocol::{
    push_str, text_bytes, DataType, DescriptionModel, FieldDescription, WireError,
};

verus! {

/// A cursor over the bytes of a response.
pub struct ByteReader<'a> {
    pub buffer: &'a [u8],
    pub position: usize,
}

/// What a row says: its time and one value per field.
pub struct RowModel {
    pub time: i64,
    pub elements: Seq<DataValue>,
}

/// What the response to a query says: the number of rows, the fields and the rows.
pub struct QueryModel {
    pub count: nat,
    pub fields: Seq<DescriptionModel>,
    pub rows: Seq<RowModel>,
}

impl View for DataRow {
    type V = RowModel;

    open spec fn view(&self) -> RowModel {
        RowModel { time: self.time, elements: self.elements@ }
    }
}

/// What the descriptions say.
pub open spec fn description_models(fields: Seq<FieldDescription>) -> Seq<DescriptionModel> {
    Seq::new(fields.len(), |i: int| fields[i]@)
}

/// What the rows say.
pub open spec fn row_models(rows: Seq<DataRow>) -> Seq<RowModel> {
    Seq::new(rows.len(), |i: int| rows[i]@)
}

/// The types of the fields.
pub open spec fn types_of(fields: Seq<DescriptionModel>) -> Seq<DataType> {
    Seq::new(fields.len(), |i: int| fields[i].data_type)
}

impl View for ClientQueryResult {
    type V = QueryModel;

    open spec fn view(&self) -> QueryModel {
        QueryModel {
            count: self.count as nat,
            fields: description_models(self.records.fields@),
            rows: row_models(self.records.rows@),
        }
    }
}

/// A field description on the wire: the tag of its type, then its name.
pub open spec fn description_bytes(field: FieldDescription) -> Seq<u8> {
    seq![field.data_type.tag()] + text_bytes(field.name@)
}

/// The first `k` field descriptions on the wire, one after the other.
pub open spec fn descriptions_bytes(fields: Seq<FieldDescription>, k: int) -> Seq<u8>
    decreases k,
{
    if k <= 0 {
        Seq::empty()
    } else {
        descriptions_bytes(fields, k - 1) + description_bytes(fields[k - 1])
    }
}

/// The type of the column in which the element at `index` of a row-major
/// run of elements stands, with `width` fields to a row; `None` for the
/// column of the row's time.
pub open spec fn column_type(fields: Seq<FieldDescription>, index: int) -> Option<DataType> {
    let column = index % (fields.len() as int + 1);
    if column == 0 {
        None
    } else {
        Some(fields[column - 1].data_type)
    }
}

/// The byte that stands for an absent value in a `Bool` column.
pub const ABSENT_BOOL: u8 = 0xFF;

/// The bits that stand for an absent value in a `Float` column: eight
/// bytes 0xFF, the bits of a NaN that no reading of a decimal number gives.
pub const ABSENT_FLOAT: u64 = 0xFFFF_FFFF_FFFF_FFFF;

/// The time that stands for an absent value in a `Timestamp` column: the
/// earliest time there is, the byte 0x80 and seven bytes 0x00.
pub const ABSENT_TIMESTAMP: i64 = -0x8000_0000_0000_0000;

/// What a value in a column of the given type reads back as on the other
/// side of the wire: itself where it is of the column's type and not the
/// pattern kept for absent values, and `Absent` in every other case.
pub open spec fn cell(value: DataValue, data_type: DataType) -> DataValue {
    match data_type {
        DataType::Bool => match value {
            DataValue::Bool(b) => DataValue::Bool(b),
            _ => DataValue::Absent,
        },
        DataType::Float => match value {
            DataValue::Float(bits) => if bits == ABSENT_FLOAT {
                DataValue::Absent
            } else {
                DataValue::Float(bits)
            },
            _ => DataValue::Absent,
        },
        DataType::Timestamp => match value {
            DataValue::Timestamp(t) => if t == ABSENT_TIMESTAMP {
                DataValue::Absent
            } else {
                DataValue::Timestamp(t)
            },
            _ => DataValue::Absent,
        },
    }
}

/// A value on the wire, in the width of its column. In the column of the
/// row's time: the time of a timestamp, and 0 for any other value, in eight
/// bytes. In a `Bool` column: one byte, 1 for true and 0 for false. In a
/// `Float` column: the bits of the float in eight bytes. In a `Timestamp`
/// column: the time in eight bytes. Integers stand most significant byte
/// first. An absent value, and a value that is not of the column's type,
/// is written as the pattern kept for absent values in that column.
pub open spec fn element_bytes(value: DataValue, column: Option<DataType>) -> Seq<u8> {
    match column {
        None => u64_be(unsigned64(value.row_time() as int)),
        Some(DataType::Bool) => seq![
            match value {
                DataValue::Bool(true) => 1u8,
                DataValue::Bool(false) => 0u8,
                _ => ABSENT_BOOL,
            },
        ],
        Some(DataType::Float) => u64_be(
            match value {
                DataValue::Float(bits) => bits as int,
                _ => ABSENT_FLOAT as int,
            },
        ),
        Some(DataType::Timestamp) => u64_be(
            unsigned64(
                match value {
                    DataValue::Timestamp(t) => t as int,
                    _ => ABSENT_TIMESTAMP as int,
                },
            ),
        ),
    }
}

/// The first `k` elements of a result on the wire, one after the other.
pub open spec fn elements_bytes(fields: Seq<FieldDescription>, elements: Seq<DataValue>, k: int) -> Seq<
    u8,
>
    decreases k,
{
    if k <= 0 {
        Seq::empty()
    } else {
        elements_bytes(fields, elements, k - 1) + element_bytes(
            elements[k - 1],
            column_type(fields, k - 1),
        )
    }
}

/// The result fits a frame. It has at most 255 fields, each with a name of
/// at most 65535 bytes, and its count, at most 2^32 - 1, is the number of
/// its rows, all of them whole.
pub open spec fn wire_valid(result: QueryResult) -> bool {
    let fields = result.records.fields@;
    let elements = result.records.elements@;
    &&& names_fit(fields)
    &&& result.count <= u32::MAX
    &&& elements.len() == result.count * (fields.len() + 1)
}

/// The fields fit a frame: at most 255 of them, each with a name of at most 65535 bytes.
pub open spec fn names_fit(fields: Seq<FieldDescription>) -> bool {
    &&& fields.len() <= 255
    &&& forall|i: int|
        0 <= i < fields.len() ==> encode_utf8((#[trigger] fields[i]).name@).len() <= 65535
}

/// The counted field descriptions on the wire: their number in one byte,
/// then the descriptions.
pub open spec fn counted_descriptions(fields: Seq<FieldDescription>) -> Seq<u8> {
    seq![fields.len() as u8] + descriptions_bytes(fields, fields.len() as int)
}

/// The response to a query that fits a frame: the kind byte 1; the number
/// of fields in one byte and the field descriptions; the number of rows in
/// four bytes, most significant first; and the elements, row by row.
pub open spec fn query_bytes(result: QueryResult) -> Seq<u8> {
    let fields = result.records.fields@;
    let elements = result.records.elements@;
    seq![1u8] + counted_descriptions(fields) + u32_be(result.count as int) + elements_bytes(
        fields,
        elements,
        elements.len() as int,
    )
}

/// The field description at `i` and where it ends, or why it is refused.
pub open spec fn description_at(b: Seq<u8>, i: int) -> Result<(DescriptionModel, int), WireError> {
    if i + 1 > b.len() {
        Err(WireError::Truncated)
    } else if b[i] > 2 {
        Err(WireError::UnknownType)
    } else if i + 3 > b.len() {
        Err(WireError::Truncated)
    } else {
        let n = be_u16(b.subrange(i + 1, i + 3));
        if i + 3 + n > b.len() {
            Err(WireError::Truncated)
        } else if !valid_utf8(b.subrange(i + 3, i + 3 + n)) {
            Err(WireError::InvalidText)
        } else {
            Ok(
                (
                    DescriptionModel {
                        name: decode_utf8(b.subrange(i + 3, i + 3 + n)),
                        data_type: DataType::of_tag(b[i]),
                    },
                    i + 3 + n,
                ),
            )
        }
    }
}

/// The `n` field descriptions from `i` on and where they end.
pub open spec fn descriptions_from(b: Seq<u8>, i: int, n: int) -> Result<
    (Seq<DescriptionModel>, int),
    WireError,
>
    decreases n,
{
    if n <= 0 {
        Ok((Seq::empty(), i))
    } else {
        match descriptions_from(b, i, n - 1) {
            Err(e) => Err(e),
            Ok((fields, j)) => match description_at(b, j) {
                Err(e) => Err(e),
                Ok((field, k)) => Ok((fields.push(field), k)),
            },
        }
    }
}

/// The counted field descriptions at `i`: their number in one byte, then the descriptions.
pub open spec fn descriptions_at(b: Seq<u8>, i: int) -> Result<(Seq<DescriptionModel>, int), WireError> {
    if i + 1 > b.len() {
        Err(WireError::Truncated)
    } else {
        descriptions_from(b, i + 1, b[i] as int)
    }
}

/// The value of the given type at `i` and where it ends. A `Bool` is one
/// byte, 0xFF for an absent value and 1 for true, anything else for false;
/// a `Float` and a `Timestamp` are eight bytes, most significant first,
/// which give an absent value where they hold the pattern kept for one.
pub open spec fn value_at(b: Seq<u8>, i: int, data_type: DataType) -> Result<
    (DataValue, int),
    WireError,
> {
    match data_type {
        DataType::Bool => if i + 1 > b.len() {
            Err(WireError::Truncated)
        } else if b[i] == 0xFF {
            Ok((DataValue::Absent, i + 1))
        } else {
            Ok((DataValue::Bool(b[i] == 1), i + 1))
        },
        DataType::Float => if i + 8 > b.len() {
            Err(WireError::Truncated)
        } else if be_u64(b.subrange(i, i + 8)) == ABSENT_FLOAT {
            Ok((DataValue::Absent, i + 8))
        } else {
            Ok((DataValue::Float(be_u64(b.subrange(i, i + 8)) as u64), i + 8))
        },
        DataType::Timestamp => if i + 8 > b.len() {
            Err(WireError::Truncated)
        } else if signed64(be_u64(b.subrange(i, i + 8))) == ABSENT_TIMESTAMP {
            Ok((DataValue::Absent, i + 8))
        } else {
            Ok((DataValue::Timestamp(signed64(be_u64(b.subrange(i, i + 8))) as i64), i + 8))
        },
    }
}

/// The values of the first `n` fields of a row from `i` on and where they end.
pub open spec fn values_from(b: Seq<u8>, i: int, types: Seq<DataType>, n: int) -> Result<
    (Seq<DataValue>, int),
    WireError,
>
    decreases n,
{
    if n <= 0 {
        Ok((Seq::empty(), i))
    } else {
        match values_from(b, i, types, n - 1) {
            Err(e) => Err(e),
            Ok((values, j)) => match value_at(b, j, types[n - 1]) {
                Err(e) => Err(e),
                Ok((value, k)) => Ok((values.push(value), k)),
            },
        }
    }
}

/// The row at `i` and where it ends: the time in eight bytes, most
/// significant first, then one value per field.
pub open spec fn row_at(b: Seq<u8>, i: int, types: Seq<DataType>) -> Result<(RowModel, int), WireError> {
    if i + 8 > b.len() {
        Err(WireError::Truncated)
    } else {
        match values_from(b, i + 8, types, types.len() as int) {
            Err(e) => Err(e),
            Ok((elements, j)) => Ok(
                (RowModel { time: signed64(be_u64(b.subrange(i, i + 8))) as i64, elements }, j),
            ),
        }
    }
}

/// The `n` rows from `i` on and where they end.
pub open spec fn rows_from(b: Seq<u8>, i: int, types: Seq<DataType>, n: int) -> Result<
    (Seq<RowModel>, int),
    WireError,
>
    decreases n,
{
    if n <= 0 {
        Ok((Seq::empty(), i))
    } else {
        match rows_from(b, i, types, n - 1) {
            Err(e) => Err(e),
            Ok((rows, j)) => match row_at(b, j, types) {
                Err(e) => Err(e),
                Ok((row, k)) => Ok((rows.push(row), k)),
            },
        }
    }
}

/// The payload of the response to a query at `i` and where it ends.
pub open spec fn query_at(b: Seq<u8>, i: int) -> Result<(QueryModel, int), WireError> {
    match descriptions_at(b, i) {
        Err(e) => Err(e),
        Ok((fields, j)) => if j + 4 > b.len() {
            Err(WireError::Truncated)
        } else {
            match rows_from(b, j + 4, types_of(fields), be_u32(b.subrange(j, j + 4))) {
                Err(e) => Err(e),
                Ok((rows, k)) => Ok((QueryModel { count: rows.len(), fields, rows }, k)),
            }
        },
    }
}

impl<'a> ByteReader<'a> {
    /// A cursor at the start of the bytes.
    pub fn new(buffer: &'a [u8]) -> (reader: ByteReader<'a>)
        ensures
            reader.buffer == buffer,
            reader.position == 0,
    {
        ByteReader { buffer, position: 0 }
    }

    /// Reads `n` bytes, if that many are left.
    pub fn read_bytes(&mut self, n: usize) -> (r: Option<&'a [u8]>)
        ensures
            final(self).buffer == old(self).buffer,
            match r {
                Some(bytes) => {
                    &&& old(self).position + n <= old(self).buffer@.len()
                    &&& bytes@ == old(self).buffer@.subrange(
                        old(self).position as int,
                        old(self).position + n,
                    )
                    &&& final(self).position == old(self).position + n
                },
                None => old(self).position + n > old(self).buffer@.len() && final(self).position
                    == old(self).position,
            },
    {
        let buffer = self.buffer;
        if self.position > buffer.len() || n > buffer.len() - self.position {
            return None;
        }
        let start = self.position;
        self.position = start + n;
        Some(vstd::slice::slice_subrange(buffer, start, start + n))
    }

    /// Reads one byte.
    pub fn read_u8(&mut self) -> (r: Option<u8>)
        ensures
            final(self).buffer == old(self).buffer,
            match r {
                Some(byte) => {
                    &&& old(self).position < old(self).buffer@.len()
                    &&& byte == old(self).buffer@[old(self).position as int]
                    &&& final(self).position == old(self).position + 1
                },
                None => old(self).position >= old(self).buffer@.len() && final(self).position
                    == old(self).position,
            },
    {
        match self.read_bytes(1) {
            Some(bytes) => Some(bytes[0]),
            None => None,
        }
    }

    /// Reads two bytes as an unsigned integer, most significant first.
    pub fn read_u16(&mut self) -> (r: Option<u16>)
        ensures
            final(self).buffer == old(self).buffer,
            match r {
                Some(v) => old(self).position + 2 <= old(self).buffer@.len() && v == be_u16(
                    old(self).buffer@.subrange(old(self).position as int, old(self).position + 2),
                ) && final(self).position == old(self).position + 2,
                None => old(self).position + 2 > old(self).buffer@.len() && final(self).position
                    == old(self).position,
            },
    {
        match self.read_bytes(2) {
            Some(bytes) => Some(read_u16_be(bytes)),
            None => None,
        }
    }

    /// Reads four bytes as an unsigned integer, most significant first.
    pub fn read_u32(&mut self) -> (r: Option<u32>)
        ensures
            final(self).buffer == old(self).buffer,
            match r {
                Some(v) => old(self).position + 4 <= old(self).buffer@.len() && v == be_u32(
                    old(self).buffer@.subrange(old(self).position as int, old(self).position + 4),
                ) && final(self).position == old(self).position + 4,
                None => old(self).position + 4 > old(self).buffer@.len() && final(self).position
                    == old(self).position,
            },
    {
        match self.read_bytes(4) {
            Some(bytes) => Some(read_u32_be(bytes)),
            None => None,
        }
    }

    /// Reads eight bytes as an unsigned integer, most significant first.
    pub fn read_u64(&mut self) -> (r: Option<u64>)
        ensures
            final(self).buffer == old(self).buffer,
            match r {
                Some(v) => old(self).position + 8 <= old(self).buffer@.len() && v == be_u64(
                    old(self).buffer@.subrange(old(self).position as int, old(self).position + 8),
                ) && final(self).position == old(self).position + 8,
                None => old(self).position + 8 > old(self).buffer@.len() && final(self).position
                    == old(self).position,
            },
    {
        match self.read_bytes(8) {
            Some(bytes) => Some(read_u64_be(bytes)),
            None => None,
        }
    }

    /// Reads eight bytes as a signed integer, most significant first.
    pub fn read_i64(&mut self) -> (r: Option<i64>)
        ensures
            final(self).buffer == old(self).buffer,
            match r {
                Some(v) => old(self).position + 8 <= old(self).buffer@.len() && v == signed64(
                    be_u64(
                        old(self).buffer@.subrange(
                            old(self).position as int,
                            old(self).position + 8,
                        ),
                    ),
                ) && final(self).position == old(self).position + 8,
                None => old(self).position + 8 > old(self).buffer@.len() && final(self).position
                    == old(self).position,
            },
    {
        match self.read_bytes(8) {
            Some(bytes) => Some(read_i64_be(bytes)),
            None => None,
        }
    }
}

/// Whether the fields fit a frame.
pub fn fields_fit(fields: &Vec<FieldDescription>) -> (r: bool)
    ensures
        r == names_fit(fields@),
{
    if fields.len() > 255 {
        return false;
    }
    let mut k: usize = 0;
    while k < fields.len()
        invariant
            k <= fields@.len(),
            forall|i: int|
                0 <= i < k ==> encode_utf8((#[trigger] fields@[i]).name@).len() <= 65535,
        decreases fields.len() - k,
    {
        if fields[k].name.as_str().as_bytes().len() > 65535 {
            return false;
        }
        k += 1;
    }
    true
}

/// Whether the result fits a frame.
pub fn fits_frame(result: &QueryResult) -> (r: bool)
    ensures
        r == wire_valid(*result),
{
    if !fields_fit(&result.records.fields) || result.count > 0xFFFF_FFFF {
        return false;
    }
    let width: u64 = result.records.fields.len() as u64 + 1;
    let count: u64 = result.count as u64;
    assert(count * width <= 0xFFFF_FFFF * 256) by (nonlinear_arith)
        requires
            0 <= count <= 0xFFFF_FFFF,
            0 <= width <= 256,
    ;
    result.records.elements.len() as u64 == count * width
}

/// Appends the counted field descriptions to `out`. Fields that do not fit
/// a frame are refused, and `out` stays as it is.
pub fn write_field_descriptions(out: &mut Vec<u8>, fields: &Vec<FieldDescription>) -> (r: Result<
    (),
    WireError,
>)
    ensures
        match r {
            Ok(()) => names_fit(fields@) && final(out)@ == old(out)@ + counted_descriptions(
                fields@,
            ),
            Err(e) => e == WireError::Unwritable && !names_fit(fields@) && final(out)@ == old(out)@,
        },
{
    if !fields_fit(fields) {
        return Err(WireError::Unwritable);
    }
    out.push(fields.len() as u8);
    let ghost start = out@;
    let mut k: usize = 0;
    assert(out@ =~= start + descriptions_bytes(fields@, 0));
    while k < fields.len()
        invariant
            k <= fields@.len(),
            names_fit(fields@),
            out@ == start + descriptions_bytes(fields@, k as int),
        decreases fields.len() - k,
    {
        let ghost before = out@;
        out.push(fields[k].data_type.to_tag());
        assert(encode_utf8(fields@[k as int].name@).len() <= 65535);
        let pushed = push_str(out, fields[k].name.as_str());
        assert(pushed is Ok);
        assert(out@ =~= before + description_bytes(fields@[k as int]));
        assert(out@ =~= start + descriptions_bytes(fields@, k as int + 1));
        k += 1;
    }
    assert(out@ =~= old(out)@ + counted_descriptions(fields@));
    Ok(())
}

/// Appends a value to `out` as it stands in a column of the given type, or
/// in the column of the row's time.
pub fn push_element(out: &mut Vec<u8>, value: DataValue, column: Option<DataType>)
    ensures
        final(out)@ == old(out)@ + element_bytes(value, column),
{
    match column {
        None => {
            let time = match value {
                DataValue::Timestamp(t) => t,
                _ => 0,
            };
            push_u64_be(out, bits_of_i64(time));
        },
        Some(DataType::Bool) => {
            let byte = match value {
                DataValue::Bool(true) => 1,
                DataValue::Bool(false) => 0,
                _ => ABSENT_BOOL,
            };
            out.push(byte);
            assert(out@ =~= old(out)@ + element_bytes(value, column));
        },
        Some(DataType::Float) => {
            let bits = match value {
                DataValue::Float(bits) => bits,
                _ => ABSENT_FLOAT,
            };
            push_u64_be(out, bits);
        },
        Some(DataType::Timestamp) => {
            let time = match value {
                DataValue::Timestamp(t) => t,
                _ => ABSENT_TIMESTAMP,
            };
            push_u64_be(out, bits_of_i64(time));
        },
    }
}

/// Appends the response to a query to `out`. A result that does not fit a
/// frame is refused, and `out` stays as it is.
pub fn build_query_result(result: &QueryResult, out: &mut Vec<u8>) -> (r: Result<(), WireError>)
    ensures
        match r {
            Ok(()) => wire_valid(*result) && final(out)@ == old(out)@ + query_bytes(*result),
            Err(e) => e == WireError::Unwritable && !wire_valid(*result) && final(out)@ == old(out)@,
        },
{
    if !fits_frame(result) {
        return Err(WireError::Unwritable);
    }
    let fields = &result.records.fields;
    let elements = &result.records.elements;
    out.push(1);
    let described = write_field_descriptions(out, fields);
    assert(described is Ok);
    push_u32_be(out, result.count as u32);
    let ghost start = out@;
    let width = fields.len() + 1;
    let mut k: usize = 0;
    assert(out@ =~= start + elements_bytes(fields@, elements@, 0));
    while k < elements.len()
        invariant
            k <= elements@.len(),
            width == fields@.len() + 1,
            out@ == start + elements_bytes(fields@, elements@, k as int),
        decreases elements.len() - k,
    {
        let ghost before = out@;
        let at = k % width;
        let column = if at == 0 {
            None
        } else {
            Some(fields[at - 1].data_type)
        };
        push_element(out, elements[k], column);
        assert(out@ =~= before + element_bytes(elements@[k as int], column_type(fields@, k as int)));
        k += 1;
    }
    assert(out@ =~= old(out)@ + query_bytes(*result));
    Ok(())
}

/// Reads one field description.
pub fn parse_field_description(buffer: &mut ByteReader) -> (r: Result<
    (DataType, String),
    WireError,
>)
    ensures
        final(buffer).buffer == old(buffer).buffer,
        match description_at(old(buffer).buffer@, old(buffer).position as int) {
            Ok((model, end)) => r is Ok && r->Ok_0.0 == model.data_type && r->Ok_0.1@ == model.name
                && final(buffer).position == end,
            Err(e) => r == Err::<(DataType, String), WireError>(e),
        },
{
    let tag = match buffer.read_u8() {
        Some(tag) => tag,
        None => {
            return Err(WireError::Truncated);
        },
    };
    let data_type = match DataType::try_from(tag) {
        Ok(data_type) => data_type,
        Err(_) => {
            return Err(WireError::UnknownType);
        },
    };
    let len = match buffer.read_u16() {
        Some(len) => len,
        None => {
            return Err(WireError::Truncated);
        },
    };
    let raw = match buffer.read_bytes(len as usize) {
        Some(raw) => raw,
        None => {
            return Err(WireError::Truncated);
        },
    };
    match text_of_utf8(raw) {
        Some(name) => Ok((data_type, name)),
        None => Err(WireError::InvalidText),
    }
}

/// Reads the counted field descriptions.
pub fn parse_field_descriptions(buffer: &mut ByteReader) -> (r: Result<
    Vec<FieldDescription>,
    WireError,
>)
    ensures
        final(buffer).buffer == old(buffer).buffer,
        match descriptions_at(old(buffer).buffer@, old(buffer).position as int) {
            Ok((models, end)) => r is Ok && description_models(r->Ok_0@) == models
                && final(buffer).position == end,
            Err(e) => r == Err::<Vec<FieldDescription>, WireError>(e),
        },
{
    let n = match buffer.read_u8() {
        Some(n) => n,
        None => {
            return Err(WireError::Truncated);
        },
    };
    let ghost start = buffer.position as int;
    let ghost bytes = buffer.buffer@;
    let mut fields: Vec<FieldDescription> = Vec::new();
    let mut k: u8 = 0;
    assert(description_models(fields@) =~= Seq::<DescriptionModel>::empty());
    while k < n
        invariant
            k <= n,
            buffer.buffer == old(buffer).buffer,
            bytes == buffer.buffer@,
            fields@.len() == k,
            old(buffer).position < bytes.len(),
            start == old(buffer).position + 1,
            n == bytes[old(buffer).position as int],
            descriptions_from(bytes, start, k as int) == Ok::<
                (Seq<DescriptionModel>, int),
                WireError,
            >((description_models(fields@), buffer.position as int)),
        decreases n - k,
    {
        let ghost before = description_models(fields@);
        match parse_field_description(buffer) {
            Ok((data_type, name)) => {
                fields.push(FieldDescription { name, data_type });
                assert(description_models(fields@) =~= before.push(fields@[k as int]@));
            },
            Err(e) => {
                assert(descriptions_from(bytes, start, k as int + 1) is Err);
                proof {
                    lemma_descriptions_fail(bytes, start, k as int + 1, n as int);
                }
                return Err(e);
            },
        }
        k += 1;
    }
    Ok(fields)
}

/// Once some field description is refused, so is every longer run.
pub proof fn lemma_descriptions_fail(b: Seq<u8>, i: int, k: int, n: int)
    requires
        0 <= k <= n,
        descriptions_from(b, i, k) is Err,
    ensures
        descriptions_from(b, i, n) == descriptions_from(b, i, k),
    decreases n - k,
{
    if k < n {
        lemma_descriptions_fail(b, i, k, n - 1);
    }
}

/// Once some value of a row is refused, so is every longer run.
pub proof fn lemma_values_fail(b: Seq<u8>, i: int, types: Seq<DataType>, k: int, n: int)
    requires
        0 <= k <= n,
        values_from(b, i, types, k) is Err,
    ensures
        values_from(b, i, types, n) == values_from(b, i, types, k),
    decreases n - k,
{
    if k < n {
        lemma_values_fail(b, i, types, k, n - 1);
    }
}

/// Once some row is refused, so is every longer run.
pub proof fn lemma_rows_fail(b: Seq<u8>, i: int, types: Seq<DataType>, k: int, n: int)
    requires
        0 <= k <= n,
        rows_from(b, i, types, k) is Err,
    ensures
        rows_from(b, i, types, n) == rows_from(b, i, types, k),
    decreases n - k,
{
    if k < n {
        lemma_rows_fail(b, i, types, k, n - 1);
    }
}

/// Reads one row: the time, then one value per field.
pub fn parse_data_row(buffer: &mut ByteReader, fields: &Vec<FieldDescription>) -> (r: Result<
    DataRow,
    WireError,
>)
    ensures
        final(buffer).buffer == old(buffer).buffer,
        match row_at(
            old(buffer).buffer@,
            old(buffer).position as int,
            types_of(description_models(fields@)),
        ) {
            Ok((model, end)) => r is Ok && r->Ok_0@ == model && final(buffer).position == end,
            Err(e) => r == Err::<DataRow, WireError>(e),
        },
{
    let ghost types = types_of(description_models(fields@));
    let ghost bytes = buffer.buffer@;
    let time = match buffer.read_i64() {
        Some(time) => time,
        None => {
            return Err(WireError::Truncated);
        },
    };
    let ghost start = buffer.position as int;
    let mut values: Vec<DataValue> = Vec::new();
    let mut k: usize = 0;
    while k < fields.len()
        invariant
            k <= fields@.len(),
            buffer.buffer == old(buffer).buffer,
            bytes == buffer.buffer@,
            types == types_of(description_models(fields@)),
            old(buffer).position + 8 <= bytes.len(),
            start == old(buffer).position + 8,
            time == signed64(
                be_u64(bytes.subrange(old(buffer).position as int, old(buffer).position + 8)),
            ),
            values@.len() == k,
            values_from(bytes, start, types, k as int) == Ok::<(Seq<DataValue>, int), WireError>(
                (values@, buffer.position as int),
            ),
        decreases fields.len() - k,
    {
        assert(types[k as int] == fields@[k as int].data_type);
        let value = match fields[k].data_type {
            DataType::Timestamp => match buffer.read_i64() {
                Some(t) => if t == ABSENT_TIMESTAMP {
                    Some(DataValue::Absent)
                } else {
                    Some(DataValue::Timestamp(t))
                },
                None => None,
            },
            DataType::Float => match buffer.read_u64() {
                Some(bits) => if bits == ABSENT_FLOAT {
                    Some(DataValue::Absent)
                } else {
                    Some(DataValue::Float(bits))
                },
                None => None,
            },
            DataType::Bool => match buffer.read_u8() {
                Some(byte) => if byte == 0xFF {
                    Some(DataValue::Absent)
                } else {
                    Some(DataValue::Bool(byte == 1))
                },
                None => None,
            },
        };
        match value {
            Some(value) => {
                values.push(value);
            },
            None => {
                assert(values_from(bytes, start, types, k as int + 1) is Err);
                proof {
                    lemma_values_fail(bytes, start, types, k as int + 1, fields@.len() as int);
                }
                return Err(WireError::Truncated);
            },
        }
        k += 1;
    }
    Ok(DataRow { time, elements: values })
}

/// Reads the payload of the response to a query.
pub fn parse_query_result(buffer: &mut ByteReader) -> (r: Result<ClientQueryResult, WireError>)
    ensures
        final(buffer).buffer == old(buffer).buffer,
        match query_at(old(buffer).buffer@, old(buffer).position as int) {
            Ok((model, end)) => r is Ok && r->Ok_0@ == model && final(buffer).position == end,
            Err(e) => r == Err::<ClientQueryResult, WireError>(e),
        },
{
    let fields = match parse_field_descriptions(buffer) {
        Ok(fields) => fields,
        Err(e) => {
            return Err(e);
        },
    };
    let count = match buffer.read_u32() {
        Some(count) => count,
        None => {
            return Err(WireError::Truncated);
        },
    };
    let ghost bytes = buffer.buffer@;
    let ghost start = buffer.position as int;
    let ghost types = types_of(description_models(fields@));
    let ghost described = descriptions_at(bytes, old(buffer).position as int);
    let mut rows: Vec<DataRow> = Vec::new();
    let mut k: u32 = 0;
    assert(row_models(rows@) =~= Seq::<RowModel>::empty());
    while k < count
        invariant
            k <= count,
            buffer.buffer == old(buffer).buffer,
            bytes == buffer.buffer@,
            types == types_of(description_models(fields@)),
            rows@.len() == k,
            described == descriptions_at(bytes, old(buffer).position as int),
            described is Ok,
            described->Ok_0.0 == description_models(fields@),
            start == described->Ok_0.1 + 4,
            start <= bytes.len(),
            count == be_u32(bytes.subrange(start - 4, start as int)),
            rows_from(bytes, start, types, k as int) == Ok::<(Seq<RowModel>, int), WireError>(
                (row_models(rows@), buffer.position as int),
            ),
        decreases count - k,
    {
        let ghost before = row_models(rows@);
        match parse_data_row(buffer, &fields) {
            Ok(row) => {
                rows.push(row);
                assert(row_models(rows@) =~= before.push(rows@[k as int]@));
            },
            Err(e) => {
                assert(rows_from(bytes, start, types, k as int + 1) is Err);
                proof {
                    lemma_rows_fail(bytes, start, types, k as int + 1, count as int);
                }
                return Err(e);
            },
        }
        k += 1;
    }
    Ok(ClientQueryResult { count: count as usize, records: ClientRecordCollection { fields, rows } })
}

/// The number of bytes that a value of the type takes in a row.
pub open spec fn value_size(data_type: DataType) -> int {
    match data_type {
        DataType::Timestamp => 8,
        DataType::Float => 8,
        DataType::Bool => 1,
    }
}

/// The room that the first `k` fields of a result of `rows` rows are
/// reckoned to take: for each field 32 bytes, its name, and for each row
/// eight bytes and a value.
pub open spec fn estimated_mem(fields: Seq<FieldDescription>, rows: int, k: int) -> int
    decreases k,
{
    if k <= 0 {
        0
    } else {
        estimated_mem(fields, rows, k - 1) + 32 + encode_utf8(fields[k - 1].name@).len() + (8
            + value_size(fields[k - 1].data_type)) * rows
    }
}

/// The reckoning never goes down from field to field.
pub proof fn lemma_estimate_grows(fields: Seq<FieldDescription>, rows: int, k: int)
    requires
        0 <= rows,
        0 <= k,
    ensures
        0 <= estimated_mem(fields, rows, k),
        k > 0 ==> estimated_mem(fields, rows, k - 1) <= estimated_mem(fields, rows, k),
    decreases k,
{
    if k > 0 {
        lemma_estimate_grows(fields, rows, k - 1);
        let size = 8 + value_size(fields[k - 1].data_type);
        assert(0 <= size * rows) by (nonlinear_arith)
            requires
                0 <= size,
                0 <= rows,
        ;
    }
}

/// The room to set aside for a result of `row_count` rows, in bytes: the
/// reckoning for its fields, or the largest number there is where the
/// reckoning is larger.
pub fn estimate_mem(fields: &Vec<FieldDescription>, row_count: usize) -> (bytes: usize)
    ensures
        bytes == if estimated_mem(fields@, row_count as int, fields@.len() as int) <= usize::MAX {
            estimated_mem(fields@, row_count as int, fields@.len() as int)
        } else {
            usize::MAX as int
        },
{
    let mut total: usize = 0;
    let mut k: usize = 0;
    while k < fields.len()
        invariant
            k <= fields@.len(),
            total == estimated_mem(fields@, row_count as int, k as int),
        decreases fields.len() - k,
    {
        let field = &fields[k];
        let size: usize = match field.data_type {
            DataType::Timestamp => 16,
            DataType::Float => 16,
            DataType::Bool => 9,
        };
        let name = field.name.as_str().as_bytes().len();
        let ghost wanted = estimated_mem(fields@, row_count as int, k as int + 1);
        proof {
            let per_row = 8 + value_size(fields@[k as int].data_type);
            assert(size as int == per_row);
            assert(size as int * row_count as int == per_row * row_count as int)
                by (nonlinear_arith)
                requires
                    size as int == per_row,
            ;
            assert(0 <= size as int * row_count as int) by (nonlinear_arith);
            assert(wanted == total + 32 + name + size as int * row_count as int);
        }
        let next = match size.checked_mul(row_count) {
            None => None,
            Some(rows) => match rows.checked_add(name) {
                None => None,
                Some(sum) => match sum.checked_add(32) {
                    None => None,
                    Some(sum) => sum.checked_add(total),
                },
            },
        };
        match next {
            Some(next) => {
                total = next;
            },
            None => {
                proof {
                    assert(wanted > usize::MAX);
                    lemma_estimate_exceeds(fields@, row_count as int, k as int + 1, fields@.len() as int);
                }
                return usize::MAX;
            },
        }
        k += 1;
    }
    total
}

/// A reckoning that is too large stays too large with more fields.
pub proof fn lemma_estimate_exceeds(fields: Seq<FieldDescription>, rows: int, k: int, n: int)
    requires
        0 <= rows,
        0 <= k <= n,
    ensures
        estimated_mem(fields, rows, k) <= estimated_mem(fields, rows, n),
    decreases n - k,
{
    if k < n {
        lemma_estimate_exceeds(fields, rows, k, n - 1);
        lemma_estimate_grows(fields, rows, n);
    }
}

} // verus!
