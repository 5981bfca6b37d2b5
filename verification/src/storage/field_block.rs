//! A block: the bounded run of entries that a field store writes at once,
//! and its fixed-size form on disk.

use vstd::prelude::*;

use crate::DataValue;
use crate::encoding::{
    bits_of_i64, i64_of_bits, le_u64, lemma_le_u64_prefix, lemma_signed_round_trip,
    lemma_u64_le_round_trip, push_u64_le, read_u64_le, signed64, u64_le, unsigned64,
};
use crate::storage::field::FieldEntry;
use crate::storage::field_index::FieldStorageBlockSummary;
use crate::wire_protocol::DataType;

verus! {

/// The number of bytes of a block on disk: a count of eight bytes, then room
/// for `ENTRIES_PER_BLOCK` records of `ENTRY_SIZE` bytes.
pub const BLOCK_SIZE: usize = 2408;

/// The number of bytes of the record of one entry.
pub const ENTRY_SIZE: usize = 24;

/// The most entries that a block holds.
pub const ENTRIES_PER_BLOCK: usize = 100;

/// Why the bytes of a block were refused.
#[derive(Clone, Copy, Debug, PartialEq, Eq, Structural)]
pub enum BlockError {
    /// The bytes are not a block: wrong size, a count past the bound, or a
    /// record with an unknown tag.
    DecodeFailure,
    /// The block holds a value of another type than the field declares.
    TypeMismatch,
}

/// The run of entries that a field store gathers and writes at once.
#[derive(Clone, Debug, PartialEq)]
pub struct FieldStorageBlock {
    pub entries: Vec<FieldEntry>,
}

/// `n` zero bytes.
pub open spec fn zeros(n: int) -> Seq<u8> {
    Seq::new(n as nat, |i: int| 0u8)
}

/// The tag that marks the kind of a value in a record.
pub open spec fn value_tag(value: DataValue) -> u8 {
    match value {
        DataValue::Absent => 0,
        DataValue::Timestamp(_) => 1,
        DataValue::Bool(_) => 2,
        DataValue::Float(_) => 3,
    }
}

/// The 64 bits that stand for a value in a record.
pub open spec fn value_payload(value: DataValue) -> int {
    match value {
        DataValue::Absent => 0,
        DataValue::Timestamp(t) => unsigned64(t as int),
        DataValue::Bool(b) => if b {
            1
        } else {
            0
        },
        DataValue::Float(bits) => bits as int,
    }
}

/// The record of an entry: the time in eight bytes, the tag of the value,
/// the value in eight bytes, and seven zero bytes. Integers stand least
/// significant byte first.
pub open spec fn entry_record(entry: FieldEntry) -> Seq<u8> {
    u64_le(unsigned64(entry.time as int)) + seq![value_tag(entry.value)] + u64_le(
        value_payload(entry.value),
    ) + zeros(7)
}

/// The records of the entries, one after the other.
pub open spec fn entry_records(entries: Seq<FieldEntry>) -> Seq<u8>
    decreases entries.len(),
{
    if entries.len() == 0 {
        Seq::empty()
    } else {
        entry_records(entries.drop_last()) + entry_record(entries.last())
    }
}

/// The block on disk: the number of entries in eight bytes, the records, and
/// zero bytes up to `BLOCK_SIZE`.
pub open spec fn block_bytes(entries: Seq<FieldEntry>) -> Seq<u8> {
    u64_le(entries.len() as int) + entry_records(entries) + zeros(
        BLOCK_SIZE - 8 - 24 * entries.len(),
    )
}

/// The value with the given tag and 64 bits, if the tag is known.
pub open spec fn value_of(tag: u8, payload: int) -> Option<DataValue> {
    if tag == 0 {
        Some(DataValue::Absent)
    } else if tag == 1 {
        Some(DataValue::Timestamp(signed64(payload) as i64))
    } else if tag == 2 {
        Some(DataValue::Bool(payload != 0))
    } else if tag == 3 {
        Some(DataValue::Float(payload as u64))
    } else {
        None
    }
}

/// The entry that a record holds, if its tag is known.
pub open spec fn entry_of(record: Seq<u8>) -> Option<FieldEntry> {
    match value_of(record[8], le_u64(record.skip(9))) {
        Some(value) => Some(FieldEntry { time: signed64(le_u64(record)) as i64, value }),
        None => None,
    }
}

/// The record of entry `k` within a block on disk.
pub open spec fn record_at(bytes: Seq<u8>, k: int) -> Seq<u8> {
    bytes.subrange(8 + 24 * k, 8 + 24 * k + 24)
}

/// The entries of a block on disk, or `DecodeFailure` where the bytes are
/// not a block.
pub open spec fn decoded(bytes: Seq<u8>) -> Result<Seq<FieldEntry>, BlockError> {
    if bytes.len() != BLOCK_SIZE || le_u64(bytes) > ENTRIES_PER_BLOCK {
        Err(BlockError::DecodeFailure)
    } else if exists|k: int| 0 <= k < le_u64(bytes) && entry_of(#[trigger] record_at(bytes, k)) is None {
        Err(BlockError::DecodeFailure)
    } else {
        Ok(Seq::new(le_u64(bytes) as nat, |k: int| entry_of(record_at(bytes, k))->Some_0))
    }
}

/// A value may stand in a field of the given type. A `Bool` field takes
/// `Absent` as well.
pub open spec fn conforms(value: DataValue, data_type: DataType) -> bool {
    match data_type {
        DataType::Float => value is Float,
        DataType::Bool => value is Bool || value is Absent,
        DataType::Timestamp => value is Timestamp,
    }
}

/// Every value of the entries may stand in a field of the given type.
pub open spec fn all_conform(entries: Seq<FieldEntry>, data_type: DataType) -> bool {
    forall|k: int| 0 <= k < entries.len() ==> conforms((#[trigger] entries[k]).value, data_type)
}

/// The entries of a block on disk read for a field of the given type.
pub open spec fn decoded_as(bytes: Seq<u8>, data_type: DataType) -> Result<
    Seq<FieldEntry>,
    BlockError,
> {
    match decoded(bytes) {
        Err(e) => Err(e),
        Ok(entries) => if all_conform(entries, data_type) {
            Ok(entries)
        } else {
            Err(BlockError::TypeMismatch)
        },
    }
}

/// The time lies within the bounds, each of which is inclusive and optional.
pub open spec fn in_range(time: i64, from: Option<i64>, until: Option<i64>) -> bool {
    &&& from matches Some(f) ==> f <= time
    &&& until matches Some(u) ==> time <= u
}

/// The test that keeps the entries within the bounds.
pub open spec fn within(from: Option<i64>, until: Option<i64>) -> spec_fn(FieldEntry) -> bool {
    |entry: FieldEntry| in_range(entry.time, from, until)
}

/// The entries within the bounds, in their order.
pub open spec fn narrowed(entries: Seq<FieldEntry>, from: Option<i64>, until: Option<i64>) -> Seq<
    FieldEntry,
> {
    entries.filter(within(from, until))
}

pub proof fn lemma_entry_records_len(entries: Seq<FieldEntry>)
    ensures
        entry_records(entries).len() == 24 * entries.len(),
    decreases entries.len(),
{
    if entries.len() > 0 {
        lemma_entry_records_len(entries.drop_last());
    }
}

/// Each record stands at its place among the records.
pub proof fn lemma_entry_records_at(entries: Seq<FieldEntry>, k: int)
    requires
        0 <= k < entries.len(),
    ensures
        entry_records(entries).len() == 24 * entries.len(),
        entry_records(entries).subrange(24 * k, 24 * k + 24) == entry_record(entries[k]),
    decreases entries.len(),
{
    lemma_entry_records_len(entries);
    lemma_entry_records_len(entries.drop_last());
    if k == entries.len() - 1 {
        assert(entry_records(entries).subrange(24 * k, 24 * k + 24) =~= entry_record(entries[k]));
    } else {
        lemma_entry_records_at(entries.drop_last(), k);
        assert(entry_records(entries).subrange(24 * k, 24 * k + 24) =~= entry_records(
            entries.drop_last(),
        ).subrange(24 * k, 24 * k + 24));
    }
}

/// A record holds the entry that wrote it.
pub proof fn lemma_entry_round_trip(entry: FieldEntry)
    ensures
        entry_of(entry_record(entry)) == Some(entry),
{
    let record = entry_record(entry);
    let time = unsigned64(entry.time as int);
    let payload = value_payload(entry.value);
    lemma_signed_round_trip(entry.time as int);
    lemma_u64_le_round_trip(time);
    match entry.value {
        DataValue::Timestamp(t) => {
            lemma_signed_round_trip(t as int);
        },
        _ => {},
    }
    lemma_u64_le_round_trip(payload);
    assert(record.take(8) =~= u64_le(time).take(8));
    lemma_le_u64_prefix(record, u64_le(time));
    assert(record.skip(9).take(8) =~= u64_le(payload).take(8));
    lemma_le_u64_prefix(record.skip(9), u64_le(payload));
    assert(record[8] == value_tag(entry.value));
}

/// Block round trip. A block of at most `ENTRIES_PER_BLOCK` entries, written
/// and read back, gives the same entries; read for a field of a type to
/// which all its values conform, it gives them too.
pub proof fn lemma_block_round_trip(entries: Seq<FieldEntry>, data_type: DataType)
    requires
        entries.len() <= ENTRIES_PER_BLOCK,
    ensures
        block_bytes(entries).len() == BLOCK_SIZE,
        decoded(block_bytes(entries)) == Ok::<Seq<FieldEntry>, BlockError>(entries),
        all_conform(entries, data_type) ==> decoded_as(block_bytes(entries), data_type) == Ok::<
            Seq<FieldEntry>,
            BlockError,
        >(entries),
{
    let bytes = block_bytes(entries);
    let n = entries.len() as int;
    lemma_entry_records_len(entries);
    lemma_u64_le_round_trip(n);
    assert(bytes.take(8) =~= u64_le(n).take(8));
    lemma_le_u64_prefix(bytes, u64_le(n));
    assert forall|k: int| 0 <= k < n implies entry_of(#[trigger] record_at(bytes, k)) == Some(
        entries[k],
    ) by {
        lemma_entry_records_at(entries, k);
        assert(record_at(bytes, k) =~= entry_records(entries).subrange(24 * k, 24 * k + 24));
        lemma_entry_round_trip(entries[k]);
    }
    assert(decoded(bytes)->Ok_0 =~= entries);
}

impl FieldStorageBlock {
    /// Where in a data file the block with the given ordinal starts; nothing
    /// where the place does not fit 64 bits.
    pub fn offset(ordinal: usize) -> (at: Option<u64>)
        ensures
            at == if ordinal * BLOCK_SIZE <= u64::MAX {
                Some((ordinal * BLOCK_SIZE) as u64)
            } else {
                None
            },
    {
        (ordinal as u64).checked_mul(BLOCK_SIZE as u64)
    }

    pub fn new() -> (block: FieldStorageBlock)
        ensures
            block.entries@.len() == 0,
    {
        FieldStorageBlock { entries: Vec::new() }
    }

    /// The entries whose time lies within the bounds, each of which is
    /// inclusive and optional, in the block's order.
    pub fn read(&self, from: Option<i64>, until: Option<i64>) -> (found: Vec<FieldEntry>)
        ensures
            found@ == narrowed(self.entries@, from, until),
    {
        let mut found: Vec<FieldEntry> = Vec::new();
        let mut i: usize = 0;
        assert(self.entries@.take(0) =~= Seq::<FieldEntry>::empty());
        while i < self.entries.len()
            invariant
                i <= self.entries@.len(),
                found@ == narrowed(self.entries@.take(i as int), from, until),
            decreases self.entries.len() - i,
        {
            let entry = self.entries[i];
            let after = match from {
                Some(f) => f <= entry.time,
                None => true,
            };
            let before = match until {
                Some(u) => entry.time <= u,
                None => true,
            };
            proof {
                let longer = self.entries@.take(i as int + 1);
                assert(longer.drop_last() =~= self.entries@.take(i as int));
                assert(longer.last() == entry);
                reveal_with_fuel(Seq::filter, 1);
            }
            if after && before {
                found.push(entry);
            }
            i += 1;
        }
        assert(self.entries@.take(self.entries@.len() as int) =~= self.entries@);
        found
    }

    /// Whether the block has room for one more entry.
    pub fn has_space(&self) -> (r: bool)
        ensures
            r == (self.entries@.len() < ENTRIES_PER_BLOCK),
    {
        self.entries.len() < ENTRIES_PER_BLOCK
    }

    /// Appends the entry.
    pub fn insert(&mut self, entry: FieldEntry)
        ensures
            final(self).entries@ == old(self).entries@.push(entry),
    {
        self.entries.push(entry);
    }

    /// Reads a block on disk for a field of the given type.
    pub fn decode(bytes: &[u8], data_type: DataType) -> (r: Result<FieldStorageBlock, BlockError>)
        ensures
            match decoded_as(bytes@, data_type) {
                Ok(entries) => r is Ok && r->Ok_0.entries@ == entries,
                Err(e) => r == Err::<FieldStorageBlock, BlockError>(e),
            },
    {
        if bytes.len() != BLOCK_SIZE {
            return Err(BlockError::DecodeFailure);
        }
        let count = read_u64_le(bytes);
        if count > ENTRIES_PER_BLOCK as u64 {
            return Err(BlockError::DecodeFailure);
        }
        let count = count as usize;
        let mut entries: Vec<FieldEntry> = Vec::new();
        let mut typed = true;
        let mut k: usize = 0;
        while k < count
            invariant
                k <= count <= ENTRIES_PER_BLOCK,
                bytes@.len() == BLOCK_SIZE,
                count == le_u64(bytes@),
                entries@.len() == k,
                forall|j: int|
                    0 <= j < k ==> entry_of(#[trigger] record_at(bytes@, j)) == Some(entries@[j]),
                typed <==> all_conform(entries@, data_type),
            decreases count - k,
        {
            let record = vstd::slice::slice_subrange(bytes, 8 + 24 * k, 8 + 24 * k + 24);
            assert(record@ == record_at(bytes@, k as int));
            let time = i64_of_bits(read_u64_le(record));
            let tag = record[8];
            let field = vstd::slice::slice_subrange(record, 9, 17);
            proof {
                assert(field@.take(8) =~= record@.skip(9).take(8));
                lemma_le_u64_prefix(field@, record@.skip(9));
            }
            let payload = read_u64_le(field);
            let value = if tag == 0 {
                DataValue::Absent
            } else if tag == 1 {
                DataValue::Timestamp(i64_of_bits(payload))
            } else if tag == 2 {
                DataValue::Bool(payload != 0)
            } else if tag == 3 {
                DataValue::Float(payload)
            } else {
                assert(entry_of(record_at(bytes@, k as int)) is None);
                return Err(BlockError::DecodeFailure);
            };
            let fits = match data_type {
                DataType::Float => match value {
                    DataValue::Float(_) => true,
                    _ => false,
                },
                DataType::Bool => match value {
                    DataValue::Bool(_) => true,
                    DataValue::Absent => true,
                    _ => false,
                },
                DataType::Timestamp => match value {
                    DataValue::Timestamp(_) => true,
                    _ => false,
                },
            };
            let ghost before = entries@;
            entries.push(FieldEntry { time, value });
            proof {
                assert(fits == conforms(value, data_type));
                if typed && fits {
                    assert forall|j: int| 0 <= j < entries@.len() implies conforms(
                        (#[trigger] entries@[j]).value,
                        data_type,
                    ) by {
                        if j < k {
                            assert(entries@[j] == before[j]);
                        }
                    }
                } else if !fits {
                    assert(!conforms(entries@[k as int].value, data_type));
                } else {
                    let j = choose|j: int|
                        0 <= j < before.len() && !conforms((#[trigger] before[j]).value, data_type);
                    assert(entries@[j] == before[j]);
                }
            }
            typed = typed && fits;
            k += 1;
        }
        assert(decoded(bytes@) is Ok);
        assert(decoded(bytes@)->Ok_0 =~= entries@);
        if typed {
            Ok(FieldStorageBlock { entries })
        } else {
            Err(BlockError::TypeMismatch)
        }
    }

    /// Reads a block on disk for a field of the given type; bytes that are
    /// refused give an empty block.
    pub fn load(bytes: &[u8], data_type: DataType) -> (block: FieldStorageBlock)
        ensures
            block.entries@ == match decoded_as(bytes@, data_type) {
                Ok(entries) => entries,
                Err(_) => Seq::empty(),
            },
    {
        match FieldStorageBlock::decode(bytes, data_type) {
            Ok(block) => block,
            Err(_) => FieldStorageBlock::new(),
        }
    }

    /// Appends the block's form on disk, `BLOCK_SIZE` bytes, to `out`.
    pub fn write_data(&self, out: &mut Vec<u8>)
        requires
            self.entries@.len() <= ENTRIES_PER_BLOCK,
        ensures
            final(out)@ == old(out)@ + block_bytes(self.entries@),
    {
        let count = self.entries.len();
        let ghost start = out@;
        push_u64_le(out, count as u64);
        let mut k: usize = 0;
        assert(self.entries@.take(0) =~= Seq::<FieldEntry>::empty());
        assert(out@ =~= start + u64_le(count as int) + entry_records(self.entries@.take(0)));
        while k < count
            invariant
                k <= count <= ENTRIES_PER_BLOCK,
                count == self.entries@.len(),
                out@ == start + u64_le(count as int) + entry_records(self.entries@.take(k as int)),
            decreases count - k,
        {
            let entry = self.entries[k];
            let ghost before = out@;
            push_u64_le(out, bits_of_i64(entry.time));
            match entry.value {
                DataValue::Absent => {
                    out.push(0);
                    push_u64_le(out, 0);
                },
                DataValue::Timestamp(t) => {
                    out.push(1);
                    push_u64_le(out, bits_of_i64(t));
                },
                DataValue::Bool(b) => {
                    out.push(2);
                    push_u64_le(out, if b { 1 } else { 0 });
                },
                DataValue::Float(bits) => {
                    out.push(3);
                    push_u64_le(out, bits);
                },
            }
            let mut pad: usize = 0;
            let ghost filled = out@;
            while pad < 7
                invariant
                    pad <= 7,
                    out@ == filled + zeros(pad as int),
                decreases 7 - pad,
            {
                out.push(0);
                assert(out@ =~= filled + zeros(pad as int + 1));
                pad += 1;
            }
            proof {
                assert(filled + zeros(0) =~= filled);
                assert(out@ =~= before + entry_record(entry));
                let longer = self.entries@.take(k as int + 1);
                assert(longer.drop_last() =~= self.entries@.take(k as int));
                assert(longer.last() == entry);
                assert(out@ =~= start + u64_le(count as int) + entry_records(longer));
            }
            k += 1;
        }
        assert(self.entries@.take(count as int) =~= self.entries@);
        proof {
            lemma_entry_records_len(self.entries@);
        }
        let ghost body = out@;
        let room: usize = BLOCK_SIZE - 8 - 24 * count;
        let mut pad: usize = 0;
        while pad < room
            invariant
                pad <= room,
                out@ == body + zeros(pad as int),
            decreases room - pad,
        {
            out.push(0);
            assert(out@ =~= body + zeros(pad as int + 1));
            pad += 1;
        }
        assert(out@ =~= start + block_bytes(self.entries@));
    }

    /// Appends the record of the block's summary to `out` and returns the
    /// summary, for a field that declares the given type.
    pub fn write_summary(&self, out: &mut Vec<u8>, data_type: DataType) -> (summary:
        FieldStorageBlockSummary)
        requires
            self.entries@.len() > 0,
        ensures
            summary.start_timestamp == self.entries@[0].time,
            summary.latest_timestamp == self.entries@[self.entries@.len() - 1].time,
            summary.data_type == data_type,
            final(out)@ == old(out)@ + summary.record(),
    {
        let summary = FieldStorageBlockSummary::from_entries(&self.entries, data_type);
        summary.write(out);
        summary
    }
}

} // verus!
