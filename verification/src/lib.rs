//! An embeddable time-series store: a statement parser, a columnar field
//! store with fixed-size blocks, a timestamp merge, and a binary wire codec.

pub mod encoding;
pub mod execution;
pub mod lang;
pub mod storage;
pub mod users;
pub mod util;
pub mod wire_protocol;

use vstd::prelude::*;

use crate::encoding::{bits_of_i64, push_u64_be, u64_be, unsigned64};
use crate::storage::merge::lemma_row_offset;
use crate::wire_protocol::FieldDescription;
use crate::wire_protocol::query::{row_models, RowModel};

verus! {

/// One measurement, or the marker that a column holds none at a row's time.
///
/// `Float` carries the IEEE-754 bit pattern of a 64-bit float: two values are
/// equal when their patterns are.
#[derive(Clone, Copy, Debug, PartialEq, Eq, Structural)]
pub enum DataValue {
    Absent,
    Timestamp(i64),
    Bool(bool),
    Float(u64),
}

impl From<bool> for DataValue {
    fn from(b: bool) -> (value: DataValue) {
        DataValue::Bool(b)
    }
}

impl vstd::std_specs::convert::FromSpecImpl<bool> for DataValue {
    open spec fn obeys_from_spec() -> bool {
        true
    }

    open spec fn from_spec(b: bool) -> DataValue {
        DataValue::Bool(b)
    }
}

impl DataValue {
    /// The canonical big-endian encoding: nothing for `Absent`, one byte for a
    /// `Bool`, eight for a `Timestamp` or a `Float`.
    pub open spec fn be_bytes(self) -> Seq<u8> {
        match self {
            DataValue::Absent => Seq::empty(),
            DataValue::Timestamp(t) => u64_be(unsigned64(t as int)),
            DataValue::Bool(b) => seq![if b { 1u8 } else { 0u8 }],
            DataValue::Float(bits) => u64_be(bits as int),
        }
    }

    /// The time that a value gives to a row that starts with it: the time
    /// of a timestamp, and 0 for any other value.
    pub open spec fn row_time(self) -> i64 {
        match self {
            DataValue::Timestamp(t) => t,
            _ => 0,
        }
    }

    pub fn to_be_bytes(self) -> (bytes: Vec<u8>)
        ensures
            bytes@ == self.be_bytes(),
    {
        let mut bytes: Vec<u8> = Vec::new();
        match self {
            DataValue::Absent => {},
            DataValue::Timestamp(t) => {
                push_u64_be(&mut bytes, bits_of_i64(t));
            },
            DataValue::Bool(b) => {
                bytes.push(if b { 1u8 } else { 0u8 });
            },
            DataValue::Float(bits) => {
                push_u64_be(&mut bytes, bits);
            },
        }
        assert(bytes@ =~= self.be_bytes());
        bytes
    }
}

/// A query result stored row-major: each row is its timestamp followed by one
/// value per field, so `elements` holds `(fields.len() + 1)` values per row.
#[derive(Debug, PartialEq)]
pub struct RecordCollection {
    pub fields: Vec<FieldDescription>,
    pub elements: Vec<DataValue>,
}

impl RecordCollection {
    /// Number of rows that `elements` values make with `fields` fields.
    pub open spec fn row_count(fields: nat, elements: nat) -> nat {
        elements / (fields + 1)
    }

    /// Every row is complete.
    pub open spec fn well_formed(&self) -> bool {
        self.elements@.len() % (self.fields@.len() + 1) == 0
    }

    pub fn empty() -> (r: RecordCollection)
        ensures
            r.fields@.len() == 0,
            r.elements@.len() == 0,
            r.well_formed(),
    {
        RecordCollection { fields: Vec::new(), elements: Vec::new() }
    }

    /// The complete rows of `elements` with `fields` fields to a row, each
    /// as its time and its values.
    pub open spec fn rows_of(fields: nat, elements: Seq<DataValue>) -> Seq<RowModel> {
        let width = fields + 1;
        Seq::new(
            elements.len() / width,
            |r: int|
                RowModel {
                    time: elements[r * width].row_time(),
                    elements: elements.subrange(r * width + 1, r * width + width),
                },
        )
    }

    /// The rows, each as its time and its values. A trailing partial row is left out.
    pub fn rows(&self) -> (rows: Vec<DataRow>)
        ensures
            row_models(rows@) == Self::rows_of(self.fields@.len(), self.elements@),
    {
        let count = self.len();
        let fields = self.fields.len();
        let total = self.elements.len();
        let ghost width = fields as int + 1;
        let ghost wanted = Self::rows_of(self.fields@.len(), self.elements@);
        let mut rows: Vec<DataRow> = Vec::new();
        let mut r: usize = 0;
        let mut base: usize = 0;
        proof {
            assert(0 * width == 0) by (nonlinear_arith);
            vstd::arithmetic::div_mod::lemma_fundamental_div_mod(
                self.elements@.len() as int,
                width,
            );
            vstd::arithmetic::mul::lemma_mul_is_commutative(
                width,
                self.elements@.len() as int / width,
            );
        }
        while r < count
            invariant
                r <= count,
                count == self.elements@.len() / (width as nat),
                count * width <= total,
                total == self.elements@.len(),
                fields == self.fields@.len(),
                width == fields + 1,
                base == r * width,
                wanted == Self::rows_of(self.fields@.len(), self.elements@),
                rows@.len() == r,
                forall|i: int| 0 <= i < r ==> (#[trigger] rows@[i])@ == wanted[i],
            decreases count - r,
        {
            proof {
                lemma_row_offset(r as int, count as int, width);
            }
            let time = match self.elements[base] {
                DataValue::Timestamp(t) => t,
                _ => 0,
            };
            let mut values: Vec<DataValue> = Vec::new();
            let mut j: usize = 0;
            while j < fields
                invariant
                    j <= fields,
                    base + 1 + fields <= total,
                    total == self.elements@.len(),
                    values@ == self.elements@.subrange(base + 1, base + 1 + j),
                decreases fields - j,
            {
                values.push(self.elements[base + 1 + j]);
                assert(values@ =~= self.elements@.subrange(base + 1, base + 1 + j + 1));
                j += 1;
            }
            rows.push(DataRow { time, elements: values });
            base = base + fields + 1;
            r += 1;
        }
        assert(row_models(rows@) =~= wanted);
        rows
    }

    /// The number of rows.
    pub fn len(&self) -> (n: usize)
        ensures
            n == Self::row_count(self.fields@.len(), self.elements@.len()),
    {
        let width = self.fields.len();
        let count = self.elements.len();
        if width < usize::MAX {
            count / (width + 1)
        } else {
            proof {
                vstd::arithmetic::div_mod::lemma_basic_div(count as int, width as int + 1);
            }
            0
        }
    }
}

/// One row as a client sees it: the timestamp and one value per field.
#[derive(Debug, PartialEq, Clone)]
pub struct DataRow {
    pub time: i64,
    pub elements: Vec<DataValue>,
}

impl DataRow {
    pub fn with_capacity(num_elems: usize) -> (row: DataRow)
        ensures
            row.time == 0,
            row.elements@.len() == 0,
    {
        DataRow { time: 0, elements: Vec::with_capacity(num_elems) }
    }
}

/// A query result as a client sees it, row by row.
#[derive(Debug, PartialEq)]
pub struct ClientRecordCollection {
    pub fields: Vec<FieldDescription>,
    pub rows: Vec<DataRow>,
}

} // verus!
