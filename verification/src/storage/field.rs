//! One field of a series: its entries, its blocks and its pending block.

use vstd::prelude::*;

use crate::DataValue;
use crate::storage::block_manager::{after_load, BlockManager};
use crate::storage::field_block::{
    all_conform, block_bytes, in_range, lemma_block_round_trip, narrowed, within,
    FieldStorageBlock, ENTRIES_PER_BLOCK,
};
use crate::storage::field_index::{lemma_index_round_trip, FieldStorageBlockSummary};
use crate::wire_protocol::DataType;

verus! {

/// One stored measurement of a field.
#[derive(Clone, Copy, Debug, PartialEq, Eq, Structural)]
pub struct FieldEntry {
    /// Nanoseconds since the Unix epoch.
    pub time: i64,
    pub value: DataValue,
}

/// What a field store holds: its name and declared type, the summaries of
/// its persisted blocks, those blocks as far as they are in memory, and the
/// entries of the pending block.
pub struct FieldState {
    pub name: Seq<char>,
    pub data_type: DataType,
    pub summaries: Seq<FieldStorageBlockSummary>,
    pub cached: Seq<Option<Seq<FieldEntry>>>,
    pub pending: Seq<FieldEntry>,
}

/// The bytes that a full block adds to the two files of a field.
#[derive(Debug, PartialEq)]
pub struct FlushedBlock {
    /// The block, to append to the data file.
    pub data: Vec<u8>,
    /// The block's summary, to append to the index file.
    pub summary: Vec<u8>,
}

/// The store of one field of a series.
#[derive(Debug)]
pub struct FieldStorage {
    pub name: String,
    pub data_type: DataType,
    /// One summary per persisted block, in block order.
    pub block_summaries: Vec<FieldStorageBlockSummary>,
    /// The pending block: the entries not yet persisted.
    pub curr_block: FieldStorageBlock,
    /// The persisted blocks that are in memory.
    pub block_manager: BlockManager,
}

/// The summary of a block with the given entries, of a field that declares
/// the given type.
pub open spec fn summary_of(entries: Seq<FieldEntry>, data_type: DataType) -> FieldStorageBlockSummary {
    FieldStorageBlockSummary {
        start_timestamp: entries[0].time,
        latest_timestamp: entries[entries.len() - 1].time,
        data_type,
    }
}

/// The type of a value; `Float` for an absent one.
pub open spec fn value_type(value: DataValue) -> DataType {
    match value {
        DataValue::Bool(_) => DataType::Bool,
        DataValue::Timestamp(_) => DataType::Timestamp,
        _ => DataType::Float,
    }
}

/// The type that a store declares once it took the value as its first: the
/// type of the value, and for an absent value the type declared before.
pub open spec fn taken_type(declared: DataType, value: DataValue) -> DataType {
    if value is Absent {
        declared
    } else {
        value_type(value)
    }
}

/// The type that the index file of a field declares: that of its first
/// summary, and `Float` where it has none.
pub open spec fn indexed_type(summaries: Seq<FieldStorageBlockSummary>) -> DataType {
    if summaries.len() > 0 {
        summaries[0].data_type
    } else {
        DataType::Float
    }
}

/// The block may hold entries within the bounds: its span of time, from its
/// first to its last entry, overlaps them.
pub open spec fn eligible(
    summary: FieldStorageBlockSummary,
    start: Option<i64>,
    end: Option<i64>,
) -> bool {
    &&& start matches Some(s) ==> s <= summary.latest_timestamp
    &&& end matches Some(e) ==> summary.start_timestamp <= e
}

/// What the first `k` persisted blocks give to a read: the entries within
/// the bounds of every eligible block that is in memory, in block order.
pub open spec fn stored_part(
    state: FieldState,
    start: Option<i64>,
    end: Option<i64>,
    k: int,
) -> Seq<FieldEntry>
    decreases k,
{
    if k <= 0 {
        Seq::empty()
    } else {
        stored_part(state, start, end, k - 1) + (if eligible(state.summaries[k - 1], start, end) {
            match state.cached[k - 1] {
                Some(entries) => narrowed(entries, start, end),
                None => Seq::empty(),
            }
        } else {
            Seq::empty()
        })
    }
}

/// The ordinals among the first `k` blocks that a read within the bounds
/// needs from disk: the eligible blocks that are not in memory, ascending.
pub open spec fn missing_part(
    state: FieldState,
    start: Option<i64>,
    end: Option<i64>,
    k: int,
) -> Seq<usize>
    decreases k,
{
    if k <= 0 {
        Seq::empty()
    } else if eligible(state.summaries[k - 1], start, end) && state.cached[k - 1] is None {
        missing_part(state, start, end, k - 1).push((k - 1) as usize)
    } else {
        missing_part(state, start, end, k - 1)
    }
}

/// The times of the entries never go down.
pub open spec fn sorted(entries: Seq<FieldEntry>) -> bool {
    forall|a: int, b: int| 0 <= a <= b < entries.len() ==> entries[a].time <= entries[b].time
}

/// Block `i` starts no later than it ends.
pub open spec fn starts_first(summaries: Seq<FieldStorageBlockSummary>, i: int) -> bool {
    summaries[i].start_timestamp <= summaries[i].latest_timestamp
}

/// Block `i` ends no later than the next one starts.
pub open spec fn ends_before_next(summaries: Seq<FieldStorageBlockSummary>, i: int) -> bool {
    summaries[i].latest_timestamp <= summaries[i + 1].start_timestamp
}

/// Each block ends no later than the next one starts.
pub open spec fn summaries_ordered(summaries: Seq<FieldStorageBlockSummary>) -> bool {
    forall|i: int| 0 <= i < summaries.len() - 1 ==> #[trigger] ends_before_next(summaries, i)
}

impl FieldState {
    /// The pending block is within its bound and the cache has one slot per
    /// persisted block.
    pub open spec fn well_formed(self) -> bool {
        &&& self.pending.len() <= ENTRIES_PER_BLOCK
        &&& self.cached.len() == self.summaries.len()
    }

    /// A fresh store: nothing persisted, nothing pending.
    pub open spec fn fresh(name: Seq<char>, data_type: DataType) -> FieldState {
        FieldState {
            name,
            data_type,
            summaries: Seq::empty(),
            cached: Seq::empty(),
            pending: Seq::empty(),
        }
    }

    /// The store of a field whose index file holds the given summaries:
    /// the type that the index declares, nothing in memory, nothing pending.
    pub open spec fn opened(name: Seq<char>, summaries: Seq<FieldStorageBlockSummary>) -> FieldState {
        FieldState {
            name,
            data_type: indexed_type(summaries),
            summaries,
            cached: Seq::new(summaries.len(), |i: int| None),
            pending: Seq::empty(),
        }
    }

    /// The store holds no entry, persisted or pending.
    pub open spec fn holds_nothing(self) -> bool {
        self.summaries.len() == 0 && self.pending.len() == 0
    }

    /// The store after an insert. A store that holds nothing takes the type
    /// of its first value. With room in the pending block the entry joins
    /// it. With a full pending block that block is persisted: its summary
    /// joins the summaries, the block joins the cache, and the entry
    /// starts a new pending block.
    pub open spec fn inserted(self, entry: FieldEntry) -> FieldState {
        if self.pending.len() < ENTRIES_PER_BLOCK {
            FieldState {
                data_type: if self.holds_nothing() {
                    taken_type(self.data_type, entry.value)
                } else {
                    self.data_type
                },
                pending: self.pending.push(entry),
                ..self
            }
        } else {
            FieldState {
                summaries: self.summaries.push(summary_of(self.pending, self.data_type)),
                cached: self.cached.push(Some(self.pending)),
                pending: seq![entry],
                ..self
            }
        }
    }

    /// The store after the bytes of a block arrive from disk.
    pub open spec fn supplied(self, ordinal: int, bytes: Seq<u8>) -> FieldState {
        FieldState { cached: after_load(self.cached, ordinal, bytes, self.data_type), ..self }
    }

    /// What a read within the bounds returns: the entries within the bounds
    /// of the eligible persisted blocks that are in memory, in block order,
    /// then those of the pending block.
    pub open spec fn read(self, start: Option<i64>, end: Option<i64>) -> Seq<FieldEntry> {
        stored_part(self, start, end, self.summaries.len() as int) + narrowed(
            self.pending,
            start,
            end,
        )
    }

    /// The ordinals of the blocks that a read within the bounds needs from disk.
    pub open spec fn missing(self, start: Option<i64>, end: Option<i64>) -> Seq<usize> {
        missing_part(self, start, end, self.summaries.len() as int)
    }

    /// The time of the last entry that the store took, if it took any.
    pub open spec fn latest_time(self) -> Option<i64> {
        if self.pending.len() > 0 {
            Some(self.pending.last().time)
        } else if self.summaries.len() > 0 {
            Some(self.summaries.last().latest_timestamp)
        } else {
            None
        }
    }

    /// The entry is no earlier than the last one that the store took.
    pub open spec fn in_order(self, entry: FieldEntry) -> bool {
        self.latest_time() matches Some(t) ==> t <= entry.time
    }

    /// The store has taken its entries in time order: the summaries are
    /// ordered, every block starts no later than it ends, and the pending
    /// block is sorted and starts no earlier than the last persisted block ends.
    pub open spec fn time_ordered(self) -> bool {
        &&& summaries_ordered(self.summaries)
        &&& forall|i: int| 0 <= i < self.summaries.len() ==> #[trigger] starts_first(self.summaries, i)
        &&& sorted(self.pending)
        &&& self.summaries.len() > 0 && self.pending.len() > 0
            ==> self.summaries.last().latest_timestamp <= self.pending[0].time
    }
}

/// Summary monotonicity. A store that takes its entries in time order keeps
/// its summaries ordered: from a time-ordered store, an insert of an entry
/// no earlier than the last gives a time-ordered store, in which every block
/// ends no later than the next one starts.
pub proof fn lemma_summary_monotonicity(state: FieldState, entry: FieldEntry)
    requires
        state.well_formed(),
        state.time_ordered(),
        state.in_order(entry),
    ensures
        state.inserted(entry).time_ordered(),
        summaries_ordered(state.inserted(entry).summaries),
{
    let after = state.inserted(entry);
    if state.pending.len() < ENTRIES_PER_BLOCK {
        assert(after.summaries == state.summaries);
        assert(after.pending == state.pending.push(entry));
        lemma_push_keeps_sorted(state.pending, entry);
    } else {
        let added = summary_of(state.pending, state.data_type);
        assert(after.summaries == state.summaries.push(added));
        assert(after.pending == seq![entry]);
        assert(state.pending[0].time <= state.pending.last().time);
        lemma_push_keeps_ordered(state.summaries, added);
    }
}

/// A sorted run with an entry at its end that is no earlier than its last is sorted.
proof fn lemma_push_keeps_sorted(pending: Seq<FieldEntry>, entry: FieldEntry)
    requires
        sorted(pending),
        pending.len() > 0 ==> pending.last().time <= entry.time,
    ensures
        sorted(pending.push(entry)),
{
    let after = pending.push(entry);
    assert forall|a: int, b: int| 0 <= a <= b < after.len() implies after[a].time
        <= after[b].time by {
        if b < pending.len() {
            assert(pending[a].time <= pending[b].time);
        } else if a < pending.len() {
            assert(pending[a].time <= pending.last().time);
        }
    }
}

/// Ordered summaries with one more at their end, which starts no later than
/// it ends and no earlier than the last of them ends, are ordered.
proof fn lemma_push_keeps_ordered(
    summaries: Seq<FieldStorageBlockSummary>,
    added: FieldStorageBlockSummary,
)
    requires
        summaries_ordered(summaries),
        forall|i: int| 0 <= i < summaries.len() ==> #[trigger] starts_first(summaries, i),
        added.start_timestamp <= added.latest_timestamp,
        summaries.len() > 0 ==> summaries.last().latest_timestamp <= added.start_timestamp,
    ensures
        summaries_ordered(summaries.push(added)),
        forall|i: int|
            0 <= i < summaries.push(added).len() ==> #[trigger] starts_first(
                summaries.push(added),
                i,
            ),
{
    let after = summaries.push(added);
    assert forall|i: int| 0 <= i < after.len() - 1 implies #[trigger] ends_before_next(
        after,
        i,
    ) by {
        if i < summaries.len() - 1 {
            assert(ends_before_next(summaries, i));
        }
    }
    assert forall|i: int| 0 <= i < after.len() implies #[trigger] starts_first(after, i) by {
        if i < summaries.len() {
            assert(starts_first(summaries, i));
        }
    }
}

/// The store after the first `k` of some entries went into it, one by one.
pub open spec fn after_inserts(state: FieldState, entries: Seq<FieldEntry>, k: int) -> FieldState
    decreases k,
{
    if k <= 0 {
        state
    } else {
        after_inserts(state, entries, k - 1).inserted(entries[k - 1])
    }
}

/// Summary monotonicity from the start. A store that starts empty and takes
/// entries whose times never go down has, after any number of them, every
/// block end no later than the next one starts.
pub proof fn lemma_sorted_inserts_keep_order(
    name: Seq<char>,
    data_type: DataType,
    entries: Seq<FieldEntry>,
    k: int,
)
    requires
        sorted(entries),
        0 <= k <= entries.len(),
    ensures
        after_inserts(FieldState::fresh(name, data_type), entries, k).well_formed(),
        after_inserts(FieldState::fresh(name, data_type), entries, k).time_ordered(),
        summaries_ordered(after_inserts(FieldState::fresh(name, data_type), entries, k).summaries),
        k > 0 ==> after_inserts(FieldState::fresh(name, data_type), entries, k).latest_time()
            == Some(entries[k - 1].time),
    decreases k,
{
    if k > 0 {
        lemma_sorted_inserts_keep_order(name, data_type, entries, k - 1);
        let before = after_inserts(FieldState::fresh(name, data_type), entries, k - 1);
        if k > 1 {
            assert(entries[k - 2].time <= entries[k - 1].time);
        }
        lemma_summary_monotonicity(before, entries[k - 1]);
    }
}

/// The entries of the first `k` blocks, one block after the other.
pub open spec fn blocks_entries(blocks: Seq<Seq<FieldEntry>>, k: int) -> Seq<FieldEntry>
    decreases k,
{
    if k <= 0 {
        Seq::empty()
    } else {
        blocks_entries(blocks, k - 1) + blocks[k - 1]
    }
}

/// The summary spans the block: no entry is earlier than the summary's
/// start or later than its end.
pub open spec fn spans(summary: FieldStorageBlockSummary, entries: Seq<FieldEntry>) -> bool {
    forall|j: int|
        0 <= j < entries.len() ==> summary.start_timestamp <= (#[trigger] entries[j]).time
            <= summary.latest_timestamp
}

/// The store holds the given persisted blocks: a summary for each that
/// spans it, and in memory, where a block is in memory, that block.
pub open spec fn holds_blocks(state: FieldState, blocks: Seq<Seq<FieldEntry>>) -> bool {
    &&& state.summaries.len() == blocks.len()
    &&& state.cached.len() == blocks.len()
    &&& forall|i: int| 0 <= i < blocks.len() ==> spans(state.summaries[i], #[trigger] blocks[i])
    &&& forall|i: int|
        0 <= i < blocks.len() ==> ((#[trigger] state.cached[i]) matches Some(entries)
            ==> entries == blocks[i])
}

/// Nothing within the bounds is in a block whose span lies outside them.
proof fn lemma_pruned_block(
    summary: FieldStorageBlockSummary,
    entries: Seq<FieldEntry>,
    start: Option<i64>,
    end: Option<i64>,
)
    requires
        spans(summary, entries),
        !eligible(summary, start, end),
    ensures
        narrowed(entries, start, end) == Seq::<FieldEntry>::empty(),
    decreases entries.len(),
{
    reveal_with_fuel(Seq::filter, 1);
    if entries.len() > 0 {
        assert(spans(summary, entries.drop_last())) by {
            assert forall|j: int| 0 <= j < entries.drop_last().len() implies summary.start_timestamp
                <= (#[trigger] entries.drop_last()[j]).time <= summary.latest_timestamp by {
                assert(entries.drop_last()[j] == entries[j]);
            }
        }
        lemma_pruned_block(summary, entries.drop_last(), start, end);
        assert(!within(start, end)(entries.last()));
    }
}

proof fn lemma_stored_part_complete(
    state: FieldState,
    blocks: Seq<Seq<FieldEntry>>,
    start: Option<i64>,
    end: Option<i64>,
    k: int,
)
    requires
        holds_blocks(state, blocks),
        state.missing(start, end).len() == 0,
        0 <= k <= blocks.len(),
    ensures
        stored_part(state, start, end, k) == narrowed(blocks_entries(blocks, k), start, end),
    decreases k,
{
    if k <= 0 {
        assert(narrowed(blocks_entries(blocks, k), start, end) =~= Seq::<FieldEntry>::empty());
    } else {
        lemma_stored_part_complete(state, blocks, start, end, k - 1);
        Seq::filter_distributes_over_add(
            blocks_entries(blocks, k - 1),
            blocks[k - 1],
            within(start, end),
        );
        if eligible(state.summaries[k - 1], start, end) {
            if state.cached[k - 1] is None {
                lemma_missing_holds(state, start, end, k - 1, blocks.len() as int);
            }
        } else {
            assert(spans(state.summaries[k - 1], blocks[k - 1]));
            lemma_pruned_block(state.summaries[k - 1], blocks[k - 1], start, end);
            assert(stored_part(state, start, end, k - 1) + Seq::<FieldEntry>::empty()
                =~= stored_part(state, start, end, k - 1));
        }
    }
}

/// An eligible block that is not in memory is among the missing ones.
proof fn lemma_missing_holds(
    state: FieldState,
    start: Option<i64>,
    end: Option<i64>,
    i: int,
    k: int,
)
    requires
        0 <= i < k,
        eligible(state.summaries[i], start, end),
        state.cached[i] is None,
    ensures
        missing_part(state, start, end, k).len() > 0,
    decreases k,
{
    if i < k - 1 {
        lemma_missing_holds(state, start, end, i, k - 1);
    }
}

/// Reads are complete. When no block that a read needs is missing from
/// memory, the read returns exactly the entries of the store whose time
/// lies within the bounds, in the order in which the store took them:
/// nothing within the bounds is lost with a block that is passed over.
pub proof fn lemma_read_complete(
    state: FieldState,
    blocks: Seq<Seq<FieldEntry>>,
    start: Option<i64>,
    end: Option<i64>,
)
    requires
        holds_blocks(state, blocks),
        state.missing(start, end).len() == 0,
    ensures
        state.read(start, end) == narrowed(
            blocks_entries(blocks, blocks.len() as int) + state.pending,
            start,
            end,
        ),
{
    lemma_stored_part_complete(state, blocks, start, end, blocks.len() as int);
    Seq::filter_distributes_over_add(
        blocks_entries(blocks, blocks.len() as int),
        state.pending,
        within(start, end),
    );
}

/// Insert visibility, for one field. After an insert, a read whose bounds
/// cover the entry's time returns the entry, as its last entry.
pub proof fn lemma_insert_visible(
    state: FieldState,
    entry: FieldEntry,
    start: Option<i64>,
    end: Option<i64>,
)
    requires
        in_range(entry.time, start, end),
    ensures
        state.inserted(entry).read(start, end).len() > 0,
        state.inserted(entry).read(start, end).last() == entry,
{
    let after = state.inserted(entry);
    assert(after.pending.last() == entry);
    assert(within(start, end)(entry));
    reveal_with_fuel(Seq::filter, 1);
    assert(narrowed(after.pending, start, end).last() == entry);
}

/// The store declares the type that its index file does: that of its first
/// summary, where it has one.
pub open spec fn declares_indexed_type(state: FieldState) -> bool {
    state.summaries.len() > 0 ==> state.data_type == indexed_type(state.summaries)
}

/// An insert keeps the store's type in step with its index file.
pub proof fn lemma_insert_keeps_indexed_type(state: FieldState, entry: FieldEntry)
    requires
        declares_indexed_type(state),
    ensures
        declares_indexed_type(state.inserted(entry)),
{
}

/// Persisted data is visible to a later open. Take the insert that
/// persists a full pending block whose values conform to the store's type.
/// The store opened from the index file with that block's summary at its
/// end has the summaries and the type of the store that wrote it; supplied
/// with the bytes that went to the data file, it holds the block in memory
/// as it was written, be it of floats, booleans or times.
pub proof fn lemma_reopened_store_reads_block(state: FieldState, entry: FieldEntry)
    requires
        state.well_formed(),
        declares_indexed_type(state),
        state.pending.len() == ENTRIES_PER_BLOCK,
        all_conform(state.pending, state.data_type),
    ensures
        ({
            let after = state.inserted(entry);
            let ordinal = state.summaries.len() as int;
            let reopened = FieldState::opened(
                state.name,
                FieldStorageBlockSummary::all_of(FieldStorageBlockSummary::records(after.summaries)),
            );
            &&& reopened.summaries == after.summaries
            &&& reopened.data_type == state.data_type
            &&& reopened.well_formed()
            &&& reopened.supplied(ordinal, block_bytes(state.pending)).cached[ordinal] == Some(
                state.pending,
            )
        }),
{
    let after = state.inserted(entry);
    lemma_index_round_trip(after.summaries);
    lemma_block_round_trip(state.pending, state.data_type);
}

impl View for FieldStorage {
    type V = FieldState;

    open spec fn view(&self) -> FieldState {
        FieldState {
            name: self.name@,
            data_type: self.data_type,
            summaries: self.block_summaries@,
            cached: self.block_manager@,
            pending: self.curr_block.entries@,
        }
    }
}

impl FieldStorage {
    /// A store for a field with nothing on disk.
    pub fn new(field_name: &str, data_type: DataType) -> (store: FieldStorage)
        ensures
            store@ == FieldState::fresh(field_name@, data_type),
            store@.well_formed(),
            store@.time_ordered(),
    {
        let store = FieldStorage {
            name: field_name.to_owned(),
            data_type,
            block_summaries: Vec::new(),
            curr_block: FieldStorageBlock::new(),
            block_manager: BlockManager::new(0),
        };
        proof {
            let fresh = FieldState::fresh(field_name@, data_type);
            assert(store@.summaries =~= fresh.summaries);
            assert(store@.cached =~= fresh.cached);
            assert(store@.pending =~= fresh.pending);
        }
        store
    }

    /// Opens the store of a field from the contents of its index file. The
    /// field's type is the one that its first summary declares, and `Float`
    /// for an index file without summaries; no block is in memory and the
    /// pending block is empty.
    pub fn load(field_name: &str, index: &[u8]) -> (store: FieldStorage)
        ensures
            store@ == FieldState::opened(field_name@, FieldStorageBlockSummary::all_of(index@)),
            store@.well_formed(),
    {
        let summaries = FieldStorageBlockSummary::load_all(index);
        let manager = BlockManager::new(summaries.len());
        let data_type = if summaries.len() > 0 {
            summaries[0].data_type
        } else {
            DataType::Float
        };
        let store = FieldStorage {
            name: field_name.to_owned(),
            data_type,
            block_summaries: summaries,
            curr_block: FieldStorageBlock::new(),
            block_manager: manager,
        };
        proof {
            let opened = FieldState::opened(
                field_name@,
                FieldStorageBlockSummary::all_of(index@),
            );
            assert(store@.cached =~= opened.cached);
            assert(store@.pending =~= opened.pending);
        }
        store
    }

    /// Whether the store is well formed.
    pub fn is_well_formed(&self) -> (r: bool)
        ensures
            r == self@.well_formed(),
    {
        self.curr_block.entries.len() <= ENTRIES_PER_BLOCK && self.block_manager.blocks.len()
            == self.block_summaries.len()
    }

    /// Takes an entry. A store that holds nothing takes the type of the
    /// entry's value. When the pending block is full, it is persisted first:
    /// the bytes to append to the data file and to the index file come back.
    pub fn insert(&mut self, entry: FieldEntry) -> (flushed: Option<FlushedBlock>)
        requires
            old(self)@.well_formed(),
        ensures
            final(self)@ == old(self)@.inserted(entry),
            final(self)@.well_formed(),
            final(self).name == old(self).name,
            flushed is Some <==> old(self)@.pending.len() == ENTRIES_PER_BLOCK,
            flushed matches Some(f) ==> f.data@ == block_bytes(old(self)@.pending) && f.summary@
                == summary_of(old(self)@.pending, old(self)@.data_type).record(),
    {
        if self.curr_block.has_space() {
            if self.block_summaries.len() == 0 && self.curr_block.entries.len() == 0 {
                match entry.value {
                    DataValue::Absent => {},
                    value => {
                        self.data_type = value_type_of(value);
                    },
                }
            }
            self.curr_block.insert(entry);
            return None;
        }
        let mut data: Vec<u8> = Vec::new();
        let mut summary_bytes: Vec<u8> = Vec::new();
        self.curr_block.write_data(&mut data);
        let summary = self.curr_block.write_summary(&mut summary_bytes, self.data_type);
        assert(summary == summary_of(self.curr_block.entries@, self.data_type));
        assert(data@ =~= block_bytes(self.curr_block.entries@));
        assert(summary_bytes@ =~= summary.record());
        self.block_summaries.push(summary);
        let mut full = FieldStorageBlock::new();
        core::mem::swap(&mut self.curr_block, &mut full);
        self.block_manager.push(full);
        self.curr_block.insert(entry);
        assert(self.curr_block.entries@ =~= seq![entry]);
        Some(FlushedBlock { data, summary: summary_bytes })
    }

    /// The ordinals of the blocks that a read within the bounds needs from
    /// disk before it can return their entries.
    pub fn missing_blocks(&self, start: Option<i64>, end: Option<i64>) -> (ordinals: Vec<usize>)
        requires
            self@.well_formed(),
        ensures
            ordinals@ == self@.missing(start, end),
    {
        let mut ordinals: Vec<usize> = Vec::new();
        let mut k: usize = 0;
        while k < self.block_summaries.len()
            invariant
                k <= self.block_summaries@.len(),
                self@.well_formed(),
                ordinals@ == missing_part(self@, start, end, k as int),
            decreases self.block_summaries.len() - k,
        {
            if overlaps(&self.block_summaries[k], start, end) && !self.block_manager.is_cached(k) {
                ordinals.push(k);
            }
            k += 1;
        }
        ordinals
    }

    /// Takes the bytes of the block with the given ordinal as they came from
    /// disk. Bytes that are no block of the field's type count as an empty block.
    pub fn supply_block(&mut self, ordinal: usize, bytes: &[u8])
        ensures
            final(self)@ == old(self)@.supplied(ordinal as int, bytes@),
            old(self)@.well_formed() ==> final(self)@.well_formed(),
            final(self).name == old(self).name,
            final(self).data_type == old(self).data_type,
    {
        self.block_manager.load(ordinal, bytes, self.data_type);
    }

    /// The entries whose time lies within the bounds, each of which is
    /// inclusive and optional: those of the eligible persisted blocks that
    /// are in memory, in block order, then those of the pending block.
    pub fn read(&self, start: Option<i64>, end: Option<i64>) -> (records: Vec<FieldEntry>)
        requires
            self@.well_formed(),
        ensures
            records@ == self@.read(start, end),
    {
        let mut records: Vec<FieldEntry> = Vec::new();
        let mut k: usize = 0;
        while k < self.block_summaries.len()
            invariant
                k <= self.block_summaries@.len(),
                self@.well_formed(),
                records@ == stored_part(self@, start, end, k as int),
            decreases self.block_summaries.len() - k,
        {
            if overlaps(&self.block_summaries[k], start, end) {
                match &self.block_manager.blocks[k] {
                    Some(block) => {
                        let mut found = block.read(start, end);
                        records.append(&mut found);
                    },
                    None => {
                        assert(records@ + Seq::<FieldEntry>::empty() =~= records@);
                    },
                }
            } else {
                assert(records@ + Seq::<FieldEntry>::empty() =~= records@);
            }
            k += 1;
        }
        let mut found = self.curr_block.read(start, end);
        records.append(&mut found);
        records
    }
}

/// The type of a value; `Float` for an absent one.
pub fn value_type_of(value: DataValue) -> (data_type: DataType)
    ensures
        data_type == value_type(value),
{
    match value {
        DataValue::Bool(_) => DataType::Bool,
        DataValue::Timestamp(_) => DataType::Timestamp,
        _ => DataType::Float,
    }
}

/// Whether a block's span of time overlaps the bounds.
pub fn overlaps(summary: &FieldStorageBlockSummary, start: Option<i64>, end: Option<i64>) -> (r:
    bool)
    ensures
        r == eligible(*summary, start, end),
{
    let after = match start {
        Some(s) => s <= summary.latest_timestamp,
        None => true,
    };
    let before = match end {
        Some(e) => summary.start_timestamp <= e,
        None => true,
    };
    after && before
}

} // verus!
