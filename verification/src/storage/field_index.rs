//! The index of a field: one summary per persisted block.

use vstd::prelude::*;

use crate::encoding::{
    bits_of_i64, i64_of_bits, le_u64, lemma_le_u64_prefix, lemma_signed_round_trip,
    lemma_u64_le_round_trip, push_u64_le, read_u64_le, signed64, u64_le, unsigned64,
};
use crate::storage::field::FieldEntry;
use crate::wire_protocol::DataType;

verus! {

/// The number of bytes of one summary in an index file.
pub const SUMMARY_BLOCK_SIZE: usize = 17;

/// The times of the first and of the last entry of a persisted block, and
/// the type that the field declared when the block was written.
#[derive(Clone, Copy, Debug, PartialEq, Eq, Structural)]
pub struct FieldStorageBlockSummary {
    pub start_timestamp: i64,
    pub latest_timestamp: i64,
    pub data_type: DataType,
}

/// The type that the tag of a record stands for: 1 is `Bool`, 2 is
/// `Timestamp`, and anything else `Float`.
pub open spec fn recorded_type(tag: u8) -> DataType {
    if tag == 1 {
        DataType::Bool
    } else if tag == 2 {
        DataType::Timestamp
    } else {
        DataType::Float
    }
}

impl FieldStorageBlockSummary {
    /// The record of the summary in an index file, 17 bytes: both times as
    /// 64-bit two's complement values, least significant byte first, then
    /// the tag of the type.
    pub open spec fn record(self) -> Seq<u8> {
        u64_le(unsigned64(self.start_timestamp as int)) + u64_le(
            unsigned64(self.latest_timestamp as int),
        ) + seq![self.data_type.tag()]
    }

    /// The summary that a record of 17 bytes holds.
    pub open spec fn of_record(record: Seq<u8>) -> FieldStorageBlockSummary {
        FieldStorageBlockSummary {
            start_timestamp: signed64(le_u64(record)) as i64,
            latest_timestamp: signed64(le_u64(record.skip(8))) as i64,
            data_type: recorded_type(record[16]),
        }
    }

    /// The summaries that an index file holds: one per complete record, in
    /// the file's order. A trailing partial record is left out.
    pub open spec fn all_of(index: Seq<u8>) -> Seq<FieldStorageBlockSummary> {
        Seq::new(
            index.len() / 17,
            |k: int| Self::of_record(index.subrange(17 * k, 17 * k + 17)),
        )
    }

    /// The index file that holds the given summaries.
    pub open spec fn records(summaries: Seq<FieldStorageBlockSummary>) -> Seq<u8>
        decreases summaries.len(),
    {
        if summaries.len() == 0 {
            Seq::empty()
        } else {
            Self::records(summaries.drop_last()) + summaries.last().record()
        }
    }

    /// The summary of a block with the given entries, of a field that
    /// declares the given type.
    pub fn from_entries(entries: &Vec<FieldEntry>, data_type: DataType) -> (summary:
        FieldStorageBlockSummary)
        requires
            entries@.len() > 0,
        ensures
            summary.start_timestamp == entries@[0].time,
            summary.latest_timestamp == entries@[entries@.len() - 1].time,
            summary.data_type == data_type,
    {
        FieldStorageBlockSummary {
            start_timestamp: entries[0].time,
            latest_timestamp: entries[entries.len() - 1].time,
            data_type,
        }
    }

    /// Reads every summary of an index file.
    pub fn load_all(index: &[u8]) -> (summaries: Vec<FieldStorageBlockSummary>)
        ensures
            summaries@ == Self::all_of(index@),
    {
        let total = index.len();
        let count = total / 17;
        let mut summaries: Vec<FieldStorageBlockSummary> = Vec::new();
        let mut k: usize = 0;
        while k < count
            invariant
                k <= count,
                total == index@.len(),
                count == total / 17,
                summaries@ == Self::all_of(index@).take(k as int),
            decreases count - k,
        {
            let record = vstd::slice::slice_subrange(index, 17 * k, 17 * k + 17);
            let start = i64_of_bits(read_u64_le(record));
            let second = vstd::slice::slice_subrange(record, 8, 16);
            proof {
                assert(second@.take(8) =~= record@.skip(8).take(8));
                lemma_le_u64_prefix(second@, record@.skip(8));
            }
            let latest = i64_of_bits(read_u64_le(second));
            let tag = record[16];
            let data_type = if tag == 1 {
                DataType::Bool
            } else if tag == 2 {
                DataType::Timestamp
            } else {
                DataType::Float
            };
            summaries.push(
                FieldStorageBlockSummary {
                    start_timestamp: start,
                    latest_timestamp: latest,
                    data_type,
                },
            );
            assert(summaries@ =~= Self::all_of(index@).take(k as int + 1));
            k += 1;
        }
        assert(Self::all_of(index@).take(count as int) =~= Self::all_of(index@));
        summaries
    }

    /// Appends the summary's record to `out`.
    pub fn write(&self, out: &mut Vec<u8>)
        ensures
            final(out)@ == old(out)@ + self.record(),
    {
        push_u64_le(out, bits_of_i64(self.start_timestamp));
        push_u64_le(out, bits_of_i64(self.latest_timestamp));
        out.push(self.data_type.to_tag());
        assert(out@ =~= old(out)@ + self.record());
    }
}

/// A record holds the summary that wrote it.
pub proof fn lemma_record_round_trip(summary: FieldStorageBlockSummary)
    ensures
        summary.record().len() == 17,
        FieldStorageBlockSummary::of_record(summary.record()) == summary,
{
    let start = unsigned64(summary.start_timestamp as int);
    let latest = unsigned64(summary.latest_timestamp as int);
    lemma_signed_round_trip(summary.start_timestamp as int);
    lemma_signed_round_trip(summary.latest_timestamp as int);
    lemma_u64_le_round_trip(start);
    lemma_u64_le_round_trip(latest);
    let record = summary.record();
    assert(record.take(8) =~= u64_le(start).take(8));
    lemma_le_u64_prefix(record, u64_le(start));
    assert(record.skip(8).take(8) =~= u64_le(latest).take(8));
    lemma_le_u64_prefix(record.skip(8), u64_le(latest));
    assert(record[16] == summary.data_type.tag());
}

/// The index file of some summaries has 17 bytes for each.
pub proof fn lemma_records_len(summaries: Seq<FieldStorageBlockSummary>)
    ensures
        FieldStorageBlockSummary::records(summaries).len() == 17 * summaries.len(),
    decreases summaries.len(),
{
    if summaries.len() > 0 {
        lemma_records_len(summaries.drop_last());
        lemma_record_round_trip(summaries.last());
    }
}

/// The index file of some summaries holds the record of each at 17 times
/// its position.
proof fn lemma_record_at(summaries: Seq<FieldStorageBlockSummary>, k: int)
    requires
        0 <= k < summaries.len(),
    ensures
        FieldStorageBlockSummary::records(summaries).subrange(17 * k, 17 * k + 17)
            == summaries[k].record(),
    decreases summaries.len(),
{
    let index = FieldStorageBlockSummary::records(summaries);
    let front = summaries.drop_last();
    let shorter = FieldStorageBlockSummary::records(front);
    lemma_records_len(front);
    lemma_record_round_trip(summaries.last());
    assert(index == shorter + summaries.last().record());
    if k < front.len() {
        lemma_record_at(front, k);
        assert(front[k] == summaries[k]);
        assert(index.subrange(17 * k, 17 * k + 17) =~= shorter.subrange(17 * k, 17 * k + 17));
    } else {
        assert(index.subrange(17 * k, 17 * k + 17) =~= summaries.last().record());
    }
}

/// Index round trip: reading the index file that holds some summaries gives
/// those summaries back.
pub proof fn lemma_index_round_trip(summaries: Seq<FieldStorageBlockSummary>)
    ensures
        FieldStorageBlockSummary::all_of(FieldStorageBlockSummary::records(summaries))
            == summaries,
{
    let index = FieldStorageBlockSummary::records(summaries);
    let read = FieldStorageBlockSummary::all_of(index);
    lemma_records_len(summaries);
    assert(read.len() == summaries.len());
    assert forall|k: int| 0 <= k < summaries.len() implies read[k] == summaries[k] by {
        lemma_record_at(summaries, k);
        lemma_record_round_trip(summaries[k]);
    }
    assert(read =~= summaries);
}

} // verus!
