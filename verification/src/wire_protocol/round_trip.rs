//! The wire round trip: a client reads back what the server wrote.

use vstd::prelude::*;
use vstd::utf8::encode_utf8;

use crate::{DataValue, RecordCollection};
use crate::encoding::{
    be_u32, lemma_signed_round_trip, lemma_u16_round_trip, lemma_u32_round_trip,
    lemma_u64_round_trip, u16_be, u32_be, u64_be, unsigned64,
};
use crate::execution::{ExecutionResult, QueryResult};
use crate::storage::merge::lemma_row_offset;
use crate::wire_protocol::{
    can_respond, response_bytes, result_of, DataType, DescriptionModel, FieldDescription,
    ResultModel, WireError,
};
use crate::wire_protocol::query::{
    cell, column_type, description_at, description_bytes, description_models, descriptions_at,
    descriptions_bytes, descriptions_from, element_bytes, elements_bytes, query_at, query_bytes,
    row_at, rows_from, types_of, value_at, values_from, wire_valid, QueryModel, RowModel,
    ABSENT_FLOAT, ABSENT_TIMESTAMP,
};

verus! {

/// What the values of row `r` read back as on the other side of the wire,
/// one for each field.
pub open spec fn row_cells(fields: Seq<FieldDescription>, elements: Seq<DataValue>, r: int) -> Seq<
    DataValue,
> {
    Seq::new(
        fields.len(),
        |i: int| cell(elements[r * (fields.len() + 1) + 1 + i], fields[i].data_type),
    )
}

/// What a client sees of the result: the count, the fields, and each row as
/// its time and what its values read back as.
pub open spec fn client_model(result: QueryResult) -> QueryModel {
    let fields = result.records.fields@;
    let elements = result.records.elements@;
    QueryModel {
        count: result.count as nat,
        fields: description_models(fields),
        rows: Seq::new(
            result.count as nat,
            |r: int|
                RowModel {
                    time: elements[r * (fields.len() + 1)].row_time(),
                    elements: row_cells(fields, elements, r),
                },
        ),
    }
}

/// Every row of the result starts with a timestamp, and every other value
/// is of the type of its field, or absent, and is not the pattern that the
/// wire keeps for absent values.
pub open spec fn faithful(result: QueryResult) -> bool {
    let fields = result.records.fields@;
    let elements = result.records.elements@;
    let width = fields.len() + 1;
    &&& forall|r: int| 0 <= r < result.count ==> (#[trigger] elements[r * width]) is Timestamp
    &&& forall|r: int, i: int|
        0 <= r < result.count && 0 <= i < fields.len() ==> reads_as_itself(
            #[trigger] elements[r * width + 1 + i],
            fields[i].data_type,
        )
}

/// The value reads back as itself from a column of the given type.
pub open spec fn reads_as_itself(value: DataValue, data_type: DataType) -> bool {
    match value {
        DataValue::Absent => true,
        DataValue::Bool(_) => data_type == DataType::Bool,
        DataValue::Float(bits) => data_type == DataType::Float && bits != ABSENT_FLOAT,
        DataValue::Timestamp(t) => data_type == DataType::Timestamp && t != ABSENT_TIMESTAMP,
    }
}

/// What a client sees of the outcome of a statement.
pub open spec fn client_view(result: ExecutionResult) -> ResultModel {
    match result {
        ExecutionResult::Query(query) => ResultModel::Query(client_model(query)),
        ExecutionResult::Insert(insert) => ResultModel::Insert(insert.success),
    }
}

/// The bytes hold `x` at position `i`.
pub open spec fn holds_at(b: Seq<u8>, i: int, x: Seq<u8>) -> bool {
    &&& 0 <= i
    &&& i + x.len() <= b.len()
    &&& b.subrange(i, i + x.len()) == x
}

proof fn lemma_holds_split(b: Seq<u8>, i: int, x: Seq<u8>, y: Seq<u8>)
    requires
        holds_at(b, i, x + y),
    ensures
        holds_at(b, i, x),
        holds_at(b, i + x.len(), y),
{
    let whole = b.subrange(i, i + (x + y).len());
    assert(b.subrange(i, i + x.len()) =~= whole.subrange(0, x.len() as int));
    assert(whole.subrange(0, x.len() as int) =~= x);
    assert(b.subrange(i + x.len(), i + x.len() + y.len()) =~= whole.subrange(
        x.len() as int,
        (x + y).len() as int,
    ));
    assert(whole.subrange(x.len() as int, (x + y).len() as int) =~= y);
}

proof fn lemma_description_round_trip(b: Seq<u8>, i: int, field: FieldDescription)
    requires
        holds_at(b, i, description_bytes(field)),
        encode_utf8(field.name@).len() <= 65535,
    ensures
        description_at(b, i) == Ok::<(DescriptionModel, int), WireError>(
            (field@, i + description_bytes(field).len()),
        ),
{
    let raw = encode_utf8(field.name@);
    let n = raw.len() as int;
    let tag = seq![field.data_type.tag()];
    let len = u16_be(n % 0x1_0000);
    assert(description_bytes(field) =~= tag + (len + raw));
    lemma_u16_round_trip(n);
    lemma_holds_split(b, i, tag, len + raw);
    lemma_holds_split(b, i + 1, len, raw);
    assert(b[i] == b.subrange(i, i + 1)[0]);
    assert(b.subrange(i + 1, i + 3) == len);
    assert(b.subrange(i + 3, i + 3 + n) == raw);
    vstd::utf8::encode_utf8_valid_utf8(field.name@);
    vstd::utf8::encode_utf8_decode_utf8(field.name@);
}

proof fn lemma_descriptions_round_trip(b: Seq<u8>, i: int, fields: Seq<FieldDescription>, k: int)
    requires
        0 <= k <= fields.len(),
        holds_at(b, i, descriptions_bytes(fields, k)),
        forall|j: int|
            0 <= j < fields.len() ==> encode_utf8((#[trigger] fields[j]).name@).len() <= 65535,
    ensures
        descriptions_from(b, i, k) == Ok::<(Seq<DescriptionModel>, int), WireError>(
            (description_models(fields).take(k), i + descriptions_bytes(fields, k).len()),
        ),
    decreases k,
{
    if k <= 0 {
        assert(description_models(fields).take(0) =~= Seq::<DescriptionModel>::empty());
    } else {
        let front = descriptions_bytes(fields, k - 1);
        let piece = description_bytes(fields[k - 1]);
        lemma_holds_split(b, i, front, piece);
        lemma_descriptions_round_trip(b, i, fields, k - 1);
        lemma_description_round_trip(b, i + front.len(), fields[k - 1]);
        assert(description_models(fields).take(k - 1).push(fields[k - 1]@) =~= description_models(
            fields,
        ).take(k));
    }
}

proof fn lemma_value_round_trip(b: Seq<u8>, i: int, value: DataValue, data_type: DataType)
    requires
        holds_at(b, i, element_bytes(value, Some(data_type))),
    ensures
        value_at(b, i, data_type) == Ok::<(DataValue, int), WireError>(
            (cell(value, data_type), i + element_bytes(value, Some(data_type)).len()),
        ),
{
    match data_type {
        DataType::Bool => {
            assert(b[i] == b.subrange(i, i + 1)[0]);
        },
        DataType::Float => {
            let bits = match value {
                DataValue::Float(bits) => bits as int,
                _ => ABSENT_FLOAT as int,
            };
            lemma_u64_round_trip(bits);
        },
        DataType::Timestamp => {
            let time = match value {
                DataValue::Timestamp(t) => t as int,
                _ => ABSENT_TIMESTAMP as int,
            };
            lemma_signed_round_trip(time);
            lemma_u64_round_trip(unsigned64(time));
        },
    }
}

/// The bytes that hold the first `t` elements hold each of them at its place.
proof fn lemma_element_at(
    b: Seq<u8>,
    i: int,
    fields: Seq<FieldDescription>,
    elements: Seq<DataValue>,
    k: int,
    t: int,
)
    requires
        0 <= k < t,
        holds_at(b, i, elements_bytes(fields, elements, t)),
    ensures
        holds_at(
            b,
            i + elements_bytes(fields, elements, k).len(),
            element_bytes(elements[k], column_type(fields, k)),
        ),
        elements_bytes(fields, elements, k + 1).len() == elements_bytes(fields, elements, k).len()
            + element_bytes(elements[k], column_type(fields, k)).len(),
    decreases t,
{
    let front = elements_bytes(fields, elements, t - 1);
    let piece = element_bytes(elements[t - 1], column_type(fields, t - 1));
    lemma_holds_split(b, i, front, piece);
    if k < t - 1 {
        lemma_element_at(b, i, fields, elements, k, t - 1);
    }
}

/// Where the element `j` of row `r` stands, and in which column.
proof fn lemma_row_column(r: int, j: int, width: int)
    requires
        0 <= r,
        0 <= j < width,
    ensures
        (r * width + j) % width == j,
        0 <= r * width,
{
    vstd::arithmetic::div_mod::lemma_fundamental_div_mod_converse(r * width + j, width, r, j);
    assert(0 <= r * width) by (nonlinear_arith)
        requires
            0 <= r,
            0 <= width,
    ;
}

proof fn lemma_values_round_trip(
    b: Seq<u8>,
    i: int,
    result: QueryResult,
    r: int,
    j: int,
)
    requires
        wire_valid(result),
        0 <= r < result.count,
        0 <= j <= result.records.fields@.len(),
        holds_at(
            b,
            i,
            elements_bytes(
                result.records.fields@,
                result.records.elements@,
                result.records.elements@.len() as int,
            ),
        ),
    ensures
        ({
            let fields = result.records.fields@;
            let elements = result.records.elements@;
            let width = fields.len() + 1;
            let base = r * width;
            values_from(
                b,
                i + elements_bytes(fields, elements, base + 1).len(),
                types_of(description_models(fields)),
                j,
            ) == Ok::<(Seq<DataValue>, int), WireError>(
                (
                    row_cells(fields, elements, r).take(j),
                    i + elements_bytes(fields, elements, base + 1 + j).len(),
                ),
            )
        }),
    decreases j,
{
    let fields = result.records.fields@;
    let elements = result.records.elements@;
    let width = fields.len() as int + 1;
    let base = r * width;
    let types = types_of(description_models(fields));
    let cells = row_cells(fields, elements, r);
    lemma_row_offset(r, result.count as int, width);
    if j <= 0 {
        assert(cells.take(0) =~= Seq::<DataValue>::empty());
    } else {
        lemma_values_round_trip(b, i, result, r, j - 1);
        let at = base + j;
        lemma_element_at(b, i, fields, elements, at, elements.len() as int);
        lemma_row_column(r, j, width);
        assert(column_type(fields, at) == Some(fields[j - 1].data_type));
        assert(types[j - 1] == fields[j - 1].data_type);
        lemma_value_round_trip(
            b,
            i + elements_bytes(fields, elements, at).len(),
            elements[at],
            fields[j - 1].data_type,
        );
        assert(cells[j - 1] == cell(elements[base + 1 + (j - 1)], fields[j - 1].data_type));
        assert(cells.take(j - 1).push(cells[j - 1]) =~= cells.take(j));
    }
}

proof fn lemma_rows_round_trip(b: Seq<u8>, i: int, result: QueryResult, n: int)
    requires
        wire_valid(result),
        0 <= n <= result.count,
        holds_at(
            b,
            i,
            elements_bytes(
                result.records.fields@,
                result.records.elements@,
                result.records.elements@.len() as int,
            ),
        ),
    ensures
        ({
            let fields = result.records.fields@;
            let elements = result.records.elements@;
            let width = fields.len() + 1;
            rows_from(b, i, types_of(description_models(fields)), n) == Ok::<
                (Seq<RowModel>, int),
                WireError,
            >(
                (
                    client_model(result).rows.take(n),
                    i + elements_bytes(fields, elements, n * width).len(),
                ),
            )
        }),
    decreases n,
{
    let fields = result.records.fields@;
    let elements = result.records.elements@;
    let width = fields.len() as int + 1;
    let types = types_of(description_models(fields));
    if n <= 0 {
        assert(client_model(result).rows.take(0) =~= Seq::<RowModel>::empty());
        assert(0 * width == 0) by (nonlinear_arith);
    } else {
        let r = n - 1;
        let base = r * width;
        lemma_rows_round_trip(b, i, result, r);
        lemma_row_offset(r, result.count as int, width);
        lemma_row_column(r, 0, width);
        lemma_element_at(b, i, fields, elements, base, elements.len() as int);
        let start = i + elements_bytes(fields, elements, base).len();
        let t = elements[base].row_time();
        assert(column_type(fields, base) is None);
        assert(element_bytes(elements[base], None) == u64_be(unsigned64(t as int)));
        lemma_signed_round_trip(t as int);
        lemma_u64_round_trip(unsigned64(t as int));
        lemma_values_round_trip(b, i, result, r, fields.len() as int);
        assert(base + 1 + fields.len() == n * width);
        let cells = row_cells(fields, elements, r);
        assert(cells.take(fields.len() as int) =~= cells);
        let row = RowModel { time: t, elements: cells };
        assert(row_at(b, start, types) == Ok::<(RowModel, int), WireError>(
            (row, i + elements_bytes(fields, elements, n * width).len()),
        ));
        assert(client_model(result).rows.take(r).push(row) =~= client_model(result).rows.take(n));
    }
}

/// Where the parts of the response to a query stand.
proof fn lemma_query_layout(result: QueryResult)
    ensures
        ({
            let fields = result.records.fields@;
            let elements = result.records.elements@;
            let b = query_bytes(result);
            let described = descriptions_bytes(fields, fields.len() as int);
            let j = 2 + described.len() as int;
            &&& b.len() == j + 4 + elements_bytes(fields, elements, elements.len() as int).len()
            &&& b[0] == 1
            &&& b[1] == fields.len() as u8
            &&& holds_at(b, 2, described)
            &&& holds_at(b, j, u32_be(result.count as int))
            &&& holds_at(b, j + 4, elements_bytes(fields, elements, elements.len() as int))
        }),
{
    let fields = result.records.fields@;
    let elements = result.records.elements@;
    let b = query_bytes(result);
    let kind = seq![1u8];
    let number = seq![fields.len() as u8];
    let described = descriptions_bytes(fields, fields.len() as int);
    let counted = u32_be(result.count as int);
    let rows = elements_bytes(fields, elements, elements.len() as int);
    assert(b =~= kind + (number + (described + (counted + rows))));
    assert(holds_at(b, 0, b)) by {
        assert(b.subrange(0, b.len() as int) =~= b);
    }
    lemma_holds_split(b, 0, kind, number + (described + (counted + rows)));
    lemma_holds_split(b, 1, number, described + (counted + rows));
    lemma_holds_split(b, 2, described, counted + rows);
    lemma_holds_split(b, 2 + described.len() as int, counted, rows);
    assert(b[0] == b.subrange(0, 1)[0]);
    assert(b[1] == b.subrange(1, 2)[0]);
}

proof fn lemma_query_descriptions(result: QueryResult)
    requires
        wire_valid(result),
    ensures
        descriptions_at(query_bytes(result), 1) == Ok::<(Seq<DescriptionModel>, int), WireError>(
            (
                description_models(result.records.fields@),
                2 + descriptions_bytes(
                    result.records.fields@,
                    result.records.fields@.len() as int,
                ).len() as int,
            ),
        ),
{
    let fields = result.records.fields@;
    let b = query_bytes(result);
    lemma_query_layout(result);
    assert(b[1] == fields.len());
    lemma_descriptions_round_trip(b, 2, fields, fields.len() as int);
    assert(description_models(fields).take(fields.len() as int) =~= description_models(fields));
}

proof fn lemma_query_count(result: QueryResult)
    requires
        result.count <= u32::MAX,
    ensures
        ({
            let fields = result.records.fields@;
            let b = query_bytes(result);
            let j = 2 + descriptions_bytes(fields, fields.len() as int).len() as int;
            &&& j + 4 <= b.len()
            &&& be_u32(b.subrange(j, j + 4)) == result.count
        }),
{
    lemma_query_layout(result);
    lemma_u32_round_trip(result.count as int);
}

proof fn lemma_query_rows(result: QueryResult)
    requires
        wire_valid(result),
    ensures
        ({
            let fields = result.records.fields@;
            let b = query_bytes(result);
            let j = 2 + descriptions_bytes(fields, fields.len() as int).len() as int;
            rows_from(b, j + 4, types_of(description_models(fields)), result.count as int)
                == Ok::<(Seq<RowModel>, int), WireError>(
                (client_model(result).rows, b.len() as int),
            )
        }),
{
    let fields = result.records.fields@;
    let elements = result.records.elements@;
    let b = query_bytes(result);
    let j = 2 + descriptions_bytes(fields, fields.len() as int).len() as int;
    let n = result.count as int;
    let width = fields.len() as int + 1;
    lemma_query_layout(result);
    lemma_rows_round_trip(b, j + 4, result, n);
    let rows = client_model(result).rows;
    assert(rows.len() == n);
    assert(rows.take(n) =~= rows);
    assert(n * width == elements.len());
}

/// Wire round trip for queries. The response to a query result that fits a
/// frame reads back as what a client sees of that result: the same count,
/// the same fields, and each row with its time and with every value as it
/// reads back from its column.
pub proof fn lemma_query_round_trip(result: QueryResult)
    requires
        wire_valid(result),
    ensures
        query_at(query_bytes(result), 1) == Ok::<(QueryModel, int), WireError>(
            (client_model(result), query_bytes(result).len() as int),
        ),
{
    lemma_query_descriptions(result);
    lemma_query_count(result);
    lemma_query_rows(result);
    assert(client_model(result).rows.len() == result.count);
}

/// Wire round trip. The response to the outcome of a statement that fits a
/// frame reads back as what a client sees of that outcome. A value in a
/// column of another type than its own reads back as absent, and so does the
/// one float and the one time that the wire keeps for absent values.
pub proof fn lemma_wire_round_trip(result: ExecutionResult)
    requires
        can_respond(result),
    ensures
        result_of(response_bytes(result)) == Ok::<ResultModel, WireError>(client_view(result)),
{
    match result {
        ExecutionResult::Query(query) => {
            lemma_query_round_trip(query);
        },
        ExecutionResult::Insert(insert) => {},
    }
}

/// Faithful round trip. Of a result whose rows start with timestamps and
/// whose values read back as themselves, a client sees the rows as they
/// are: each with its time and its values.
pub proof fn lemma_faithful_round_trip(result: QueryResult)
    requires
        wire_valid(result),
        faithful(result),
    ensures
        client_model(result).rows == RecordCollection::rows_of(
            result.records.fields@.len(),
            result.records.elements@,
        ),
{
    let fields = result.records.fields@;
    let elements = result.records.elements@;
    let width = fields.len() as int + 1;
    let seen = client_model(result).rows;
    let rows = RecordCollection::rows_of(fields.len(), elements);
    vstd::arithmetic::div_mod::lemma_fundamental_div_mod_converse(
        elements.len() as int,
        width,
        result.count as int,
        0,
    );
    assert(rows.len() == result.count);
    assert forall|r: int| 0 <= r < result.count implies seen[r] == rows[r] by {
        lemma_row_offset(r, result.count as int, width);
        assert(elements[r * width] is Timestamp);
        assert(seen[r].elements =~= rows[r].elements) by {
            assert forall|i: int| 0 <= i < fields.len() implies seen[r].elements[i]
                == rows[r].elements[i] by {
                assert(reads_as_itself(elements[r * width + 1 + i], fields[i].data_type));
            }
        }
    }
    assert(seen =~= rows);
}

} // verus!
