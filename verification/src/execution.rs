//! The query engine: it keeps the stores of the series that it has touched
//! and maps statements to reads and inserts on them.

use vstd::prelude::*;

use crate::{ClientRecordCollection, DataValue, RecordCollection};
use crate::encoding::same_text;
use crate::lang::{Action, Selection, SelectQuery};
use crate::lang::insert::Insertion;
use crate::storage::field_block::in_range;
use crate::storage::merge::row_holds;
use crate::storage::name_index::{index_get, index_insert, index_new, name_positions};
use crate::storage::series::{
    distinct_names, inserted_upto, is_read_of, lemma_insert_visibility, selected_names, texts,
    write_models, writes_upto, BlockRequest, BlockWrite, SeriesState, SeriesStorage,
};

verus! {

/// The outcome of a statement.
#[derive(Debug, PartialEq)]
pub enum ExecutionResult {
    Query(QueryResult),
    Insert(InsertionResult),
}

/// The rows that a query found, and how many they are.
#[derive(Debug, PartialEq)]
pub struct QueryResult {
    pub count: usize,
    pub records: RecordCollection,
}

/// The rows that a query found as a client sees them, and how many they are.
#[derive(Debug, PartialEq)]
pub struct ClientQueryResult {
    pub count: usize,
    pub records: ClientRecordCollection,
}

/// Whether an insert went through.
#[derive(Clone, Copy, Debug, PartialEq, Eq, Structural)]
pub struct InsertionResult {
    pub success: bool,
}

/// The engine: the stores of the series touched so far, in the order in
/// which they came, and a hash index from each series' name to its position.
pub struct ExecutionEngine {
    pub series_storages: Vec<SeriesStorage>,
    pub index: fnv::FnvHashMap<String, usize>,
}

/// Some series has the given name.
pub open spec fn has_series(series: Seq<SeriesState>, name: Seq<char>) -> bool {
    exists|i: int| 0 <= i < series.len() && (#[trigger] series[i]).name == name
}

/// The position of a series with the given name.
pub open spec fn series_position(series: Seq<SeriesState>, name: Seq<char>) -> int {
    choose|i: int| 0 <= i < series.len() && (#[trigger] series[i]).name == name
}

/// The index keeps the position of every series under the series' name.
pub open spec fn indexes_series(positions: Map<Seq<char>, usize>, series: Seq<SeriesState>) -> bool {
    forall|i: int|
        0 <= i < series.len() ==> positions.dom().contains((#[trigger] series[i]).name)
            && positions[series[i].name] == i
}

/// The series as the engine finds it for a statement: the store that it
/// keeps under the name, or an empty one where it keeps none.
pub open spec fn series_for(series: Seq<SeriesState>, name: Seq<char>) -> SeriesState {
    if has_series(series, name) {
        series[series_position(series, name)]
    } else {
        SeriesState { name, fields: Seq::empty() }
    }
}

/// The series after a statement left the series of the given name in the given state.
pub open spec fn with_series(series: Seq<SeriesState>, state: SeriesState) -> Seq<SeriesState> {
    if has_series(series, state.name) {
        series.update(series_position(series, state.name), state)
    } else {
        series.push(state)
    }
}

/// With an index, a series is at the position of its name.
proof fn lemma_series_position(
    positions: Map<Seq<char>, usize>,
    series: Seq<SeriesState>,
    i: int,
)
    requires
        indexes_series(positions, series),
        0 <= i < series.len(),
    ensures
        has_series(series, series[i].name),
        series_position(series, series[i].name) == i,
{
    let name = series[i].name;
    assert(0 <= i < series.len() && series[i].name == name);
    let j = series_position(series, name);
    assert(positions[series[j].name] == j);
    assert(positions[series[i].name] == i);
}

proof fn lemma_replace_series(
    positions: Map<Seq<char>, usize>,
    before: Seq<SeriesState>,
    p: int,
    changed: SeriesState,
)
    requires
        indexes_series(positions, before),
        0 <= p < before.len(),
        changed.name == before[p].name,
    ensures
        indexes_series(positions, before.update(p, changed)),
{
    let after = before.update(p, changed);
    assert forall|i: int| 0 <= i < after.len() implies positions.dom().contains(
        (#[trigger] after[i]).name,
    ) && positions[after[i].name] == i by {
        assert(after[i].name == before[i].name);
    }
}

proof fn lemma_add_series(
    positions: Map<Seq<char>, usize>,
    before: Seq<SeriesState>,
    added: SeriesState,
)
    requires
        indexes_series(positions, before),
        !has_series(before, added.name),
        before.len() <= usize::MAX,
    ensures
        indexes_series(positions.insert(added.name, before.len() as usize), before.push(added)),
{
    let after = before.push(added);
    let grown = positions.insert(added.name, before.len() as usize);
    assert forall|i: int| 0 <= i < after.len() implies grown.dom().contains(
        (#[trigger] after[i]).name,
    ) && grown[after[i].name] == i by {
        if i < before.len() {
            assert(after[i] == before[i]);
            assert(before[i].name != added.name);
        }
    }
}

/// A statement that changes the series it touched leaves the series as if
/// the change had been made to the series found.
proof fn lemma_insert_outcome(
    before: Seq<SeriesState>,
    touched: Seq<SeriesState>,
    p: int,
    changed: SeriesState,
)
    requires
        0 <= p < touched.len(),
        changed.name == touched[p].name,
        touched == with_series(before, touched[p]),
        has_series(before, touched[p].name) ==> p == series_position(before, touched[p].name),
        !has_series(before, touched[p].name) ==> p == before.len(),
    ensures
        touched.update(p, changed) == with_series(before, changed),
{
    if has_series(before, changed.name) {
        assert(touched.update(p, changed) =~= before.update(p, changed));
    } else {
        assert(touched.update(p, changed) =~= before.push(changed));
    }
}

impl View for ExecutionEngine {
    type V = Seq<SeriesState>;

    open spec fn view(&self) -> Seq<SeriesState> {
        Seq::new(self.series_storages@.len(), |i: int| self.series_storages@[i]@)
    }
}

impl ExecutionEngine {
    /// Every series store is well formed and the index keeps the position
    /// of every series under its name.
    pub open spec fn well_formed(&self) -> bool {
        &&& forall|i: int|
            0 <= i < self.series_storages@.len() ==> (
            #[trigger] self.series_storages@[i]).well_formed()
        &&& indexes_series(name_positions(self.index), self@)
    }

    /// An engine that has touched no series.
    pub fn new() -> (engine: ExecutionEngine)
        ensures
            engine@.len() == 0,
            engine.well_formed(),
    {
        ExecutionEngine { series_storages: Vec::new(), index: index_new() }
    }

    /// The position of the store of the series with the given name.
    pub fn find(&self, name: &str) -> (position: Option<usize>)
        requires
            self.well_formed(),
        ensures
            position is Some <==> has_series(self@, name@),
            position matches Some(p) ==> p == series_position(self@, name@) && p < self@.len()
                && self@[p as int].name == name@,
    {
        let kept = index_get(&self.index, name);
        let position = match kept {
            Some(p) => if p < self.series_storages.len() && same_text(
                self.series_storages[p].series_name.as_str(),
                name,
            ) {
                Some(p)
            } else {
                None
            },
            None => None,
        };
        proof {
            match position {
                Some(p) => {
                    lemma_series_position(name_positions(self.index), self@, p as int);
                },
                None => {
                    if has_series(self@, name@) {
                        let i = series_position(self@, name@);
                        assert(name_positions(self.index).dom().contains(self@[i].name));
                        assert(name_positions(self.index)[self@[i].name] == i);
                    }
                },
            }
        }
        position
    }

    /// Whether the engine is well formed.
    pub fn is_well_formed(&self) -> (r: bool)
        ensures
            r == self.well_formed(),
    {
        let mut i: usize = 0;
        while i < self.series_storages.len()
            invariant
                i <= self.series_storages@.len(),
                forall|j: int| 0 <= j < i ==> (#[trigger] self.series_storages@[j]).well_formed(),
                forall|j: int|
                    0 <= j < i ==> name_positions(self.index).dom().contains(
                        (#[trigger] self@[j]).name,
                    ) && name_positions(self.index)[self@[j].name] == j,
            decreases self.series_storages.len() - i,
        {
            let series = &self.series_storages[i];
            assert(self@[i as int] == series@);
            if !series.is_well_formed() {
                return false;
            }
            match index_get(&self.index, series.series_name.as_str()) {
                Some(p) => {
                    if p != i {
                        return false;
                    }
                },
                None => {
                    return false;
                },
            }
            i += 1;
        }
        true
    }

    /// Whether the engine keeps a store for the series.
    pub fn is_loaded(&self, name: &str) -> (r: bool)
        requires
            self.well_formed(),
        ensures
            r == has_series(self@, name@),
    {
        self.find(name).is_some()
    }

    /// Takes the store of a series, as opened from disk. A store for a
    /// series that the engine keeps already is dropped.
    pub fn attach(&mut self, storage: SeriesStorage)
        requires
            old(self).well_formed(),
            storage.well_formed(),
        ensures
            final(self).well_formed(),
            final(self)@ == if has_series(old(self)@, storage@.name) {
                old(self)@
            } else {
                old(self)@.push(storage@)
            },
    {
        if self.find(storage.series_name.as_str()).is_none() {
            let ghost before = self@;
            let ghost positions = name_positions(self.index);
            let position = self.series_storages.len();
            index_insert(&mut self.index, storage.series_name.clone(), position);
            self.series_storages.push(storage);
            proof {
                assert(self@ =~= before.push(storage@));
                lemma_add_series(positions, before, storage@);
            }
        }
    }

    /// The position of the store of the series, which is made, empty, where
    /// the engine keeps none.
    fn touch(&mut self, name: &str) -> (p: usize)
        requires
            old(self).well_formed(),
        ensures
            final(self).well_formed(),
            p < final(self)@.len(),
            final(self)@[p as int] == series_for(old(self)@, name@),
            final(self)@ == with_series(old(self)@, series_for(old(self)@, name@)),
            final(self)@[p as int].name == name@,
            has_series(old(self)@, name@) ==> p == series_position(old(self)@, name@),
            !has_series(old(self)@, name@) ==> p == old(self)@.len(),
    {
        match self.find(name) {
            Some(p) => {
                assert(self@ =~= with_series(self@, series_for(self@, name@)));
                p
            },
            None => {
                let storage = SeriesStorage::new(name);
                let ghost state = storage@;
                assert(state.fields =~= Seq::empty());
                let p = self.series_storages.len();
                self.attach(storage);
                p
            },
        }
    }

    /// The blocks that a read of the query needs from disk: none for a
    /// series that the engine does not keep.
    pub fn missing_blocks(&self, query: &SelectQuery) -> (requests: Vec<BlockRequest>)
        requires
            self.well_formed(),
        ensures
            requests@ == if has_series(self@, query.series@) {
                series_for(self@, query.series@).requests(
                    query.selections@,
                    query.start,
                    query.end,
                )
            } else {
                Seq::empty()
            },
    {
        match self.find(query.series.as_str()) {
            Some(p) => self.series_storages[p].missing_blocks(query),
            None => Vec::new(),
        }
    }

    /// Takes the bytes of a block as they came from disk, for a field store
    /// of a series. A series that the engine does not keep changes nothing.
    pub fn supply_block(&mut self, series: &str, field: usize, ordinal: usize, bytes: &[u8])
        requires
            old(self).well_formed(),
        ensures
            final(self).well_formed(),
            final(self)@ == if has_series(old(self)@, series@) {
                old(self)@.update(
                    series_position(old(self)@, series@),
                    series_for(old(self)@, series@).supplied(
                        field as int,
                        ordinal as int,
                        bytes@,
                    ),
                )
            } else {
                old(self)@
            },
    {
        match self.find(series) {
            Some(p) => {
                let ghost before = self@;
                let ghost stores = self.series_storages@;
                let ghost positions = name_positions(self.index);
                assert(stores[p as int].well_formed());
                self.series_storages[p].supply_block(field, ordinal, bytes);
                proof {
                    let changed = self.series_storages@[p as int]@;
                    assert(self.series_storages@ =~= stores.update(
                        p as int,
                        self.series_storages@[p as int],
                    ));
                    assert(self@ =~= before.update(p as int, changed));
                    lemma_replace_series(positions, before, p as int, changed);
                    assert forall|i: int| 0 <= i < self.series_storages@.len() implies (
                    #[trigger] self.series_storages@[i]).well_formed() by {
                        if i != p {
                            assert(self.series_storages@[i] == stores[i]);
                        }
                    }
                }
            },
            None => {},
        }
    }

    /// Executes a statement. The result comes with the bytes that the
    /// statement adds to the files of the series, which are the caller's to write.
    pub fn execute(&mut self, action: Action) -> (r: (ExecutionResult, Vec<BlockWrite>))
        requires
            old(self).well_formed(),
        ensures
            final(self).well_formed(),
            match action {
                Action::Select(query) => select_outcome(old(self)@, query, final(self)@, r.0)
                    && r.1@.len() == 0,
                Action::Insert(insertion) => insert_outcome(
                    old(self)@,
                    insertion,
                    final(self)@,
                    r.0,
                    r.1@,
                ),
            },
    {
        match action {
            Action::Select(query) => {
                let result = self.execute_select(query);
                (result, Vec::new())
            },
            Action::Insert(insertion) => self.execute_insert(insertion),
        }
    }

    /// Reads the rows that a query asks for from the store of its series.
    fn execute_select(&mut self, query: SelectQuery) -> (r: ExecutionResult)
        requires
            old(self).well_formed(),
        ensures
            final(self).well_formed(),
            select_outcome(old(self)@, query, final(self)@, r),
    {
        let p = self.touch(query.series.as_str());
        let records = self.series_storages[p].read(query);
        let count = records.len();
        ExecutionResult::Query(QueryResult { count, records })
    }

    /// Inserts a row into the store of its series.
    fn execute_insert(&mut self, insertion: Insertion) -> (r: (ExecutionResult, Vec<BlockWrite>))
        requires
            old(self).well_formed(),
        ensures
            final(self).well_formed(),
            insert_outcome(old(self)@, insertion, final(self)@, r.0, r.1@),
    {
        if insertion.entry.fields.len() != insertion.entry.values.len() {
            return (ExecutionResult::Insert(InsertionResult { success: false }), Vec::new());
        }
        let p = self.touch(insertion.series.as_str());
        let ghost touched = self@;
        let ghost stores = self.series_storages@;
        let ghost positions = name_positions(self.index);
        assert(stores[p as int].well_formed());
        let writes = self.series_storages[p].insert(insertion.entry);
        proof {
            let changed = self.series_storages@[p as int]@;
            assert(self.series_storages@ =~= stores.update(p as int, self.series_storages@[p as int]));
            assert(self@ =~= touched.update(p as int, changed));
            lemma_replace_series(positions, touched, p as int, changed);
            assert forall|i: int| 0 <= i < self.series_storages@.len() implies (
            #[trigger] self.series_storages@[i]).well_formed() by {
                if i != p {
                    assert(self.series_storages@[i] == stores[i]);
                }
            }
            lemma_insert_outcome(old(self)@, touched, p as int, changed);
        }
        (ExecutionResult::Insert(InsertionResult { success: true }), writes)
    }
}

/// What a SELECT statement does. The engine finds the store of the series,
/// or makes an empty one; the result holds the rows that the store reads
/// for the query and their number; nothing is written.
pub open spec fn select_outcome(
    before: Seq<SeriesState>,
    query: SelectQuery,
    after: Seq<SeriesState>,
    r: ExecutionResult,
) -> bool {
    let series = series_for(before, query.series@);
    &&& after == with_series(before, series)
    &&& r matches ExecutionResult::Query(result)
    &&& is_read_of(result.records, series, query.selections@, query.start, query.end)
    &&& result.count == RecordCollection::row_count(
        result.records.fields@.len(),
        result.records.elements@.len(),
    )
}

/// What an INSERT statement does. A row with as many values as fields goes
/// into the store of the series, which is made where the engine keeps none;
/// the result reports success and comes with the blocks to write. Any
/// other row changes nothing and reports failure.
pub open spec fn insert_outcome(
    before: Seq<SeriesState>,
    insertion: Insertion,
    after: Seq<SeriesState>,
    r: ExecutionResult,
    writes: Seq<BlockWrite>,
) -> bool {
    let entry = insertion.entry;
    let series = series_for(before, insertion.series@);
    if entry.fields@.len() == entry.values@.len() {
        &&& r == ExecutionResult::Insert(InsertionResult { success: true })
        &&& after == with_series(
            before,
            SeriesState {
                name: series.name,
                fields: inserted_upto(
                    series.fields,
                    texts(entry.fields@),
                    entry.values@,
                    entry.time,
                    entry.fields@.len() as int,
                ),
            },
        )
        &&& write_models(writes) == writes_upto(
            series.fields,
            texts(entry.fields@),
            entry.values@,
            entry.time,
            entry.fields@.len() as int,
        )
    } else {
        &&& r == ExecutionResult::Insert(InsertionResult { success: false })
        &&& after == before
        &&& writes.len() == 0
    }
}

/// No two series have the same name.
pub open spec fn distinct_series(series: Seq<SeriesState>) -> bool {
    forall|i: int, j: int|
        0 <= i < series.len() && 0 <= j < series.len() && i != j ==> (#[trigger] series[i]).name != (
        #[trigger] series[j]).name
}

/// An index of the series shows that their names are distinct.
pub proof fn lemma_indexed_series_distinct(
    positions: Map<Seq<char>, usize>,
    series: Seq<SeriesState>,
)
    requires
        indexes_series(positions, series),
    ensures
        distinct_series(series),
{
    assert forall|i: int, j: int|
        0 <= i < series.len() && 0 <= j < series.len() && i != j implies (#[trigger] series[i]).name
        != (#[trigger] series[j]).name by {
        if series[i].name == series[j].name {
            assert(positions[series[i].name] == i);
            assert(positions[series[j].name] == j);
        }
    }
}

/// The series that a statement left behind is the series that the next
/// statement on the same name finds.
pub proof fn lemma_series_is_kept(before: Seq<SeriesState>, state: SeriesState)
    requires
        distinct_series(before),
    ensures
        series_for(with_series(before, state), state.name) == state,
{
    let after = with_series(before, state);
    let at = if has_series(before, state.name) {
        series_position(before, state.name)
    } else {
        before.len() as int
    };
    assert(0 <= at < after.len() && after[at].name == state.name);
    let found = series_position(after, state.name);
    if found != at {
        if has_series(before, state.name) {
            assert(before[found].name == after[found].name);
            assert(before[at].name == state.name);
        } else {
            assert(after[found] == before[found]);
        }
    }
}

/// Insert visibility across statements. After an INSERT statement put a
/// row into a series, a later SELECT statement on the same series, whose
/// bounds cover the row's time and that reads the field of one of the
/// row's values as its column `c`, finds a row with the row's time that
/// holds the value under that column. This is stated of the last value that
/// the row gives to each field.
pub proof fn lemma_insert_then_select(
    before: Seq<SeriesState>,
    name: Seq<char>,
    fields: Seq<Seq<char>>,
    values: Seq<DataValue>,
    time: i64,
    selections: Seq<Selection>,
    start: Option<i64>,
    end: Option<i64>,
    k: int,
    c: int,
)
    requires
        distinct_series(before),
        distinct_names(series_for(before, name).fields),
        fields.len() == values.len(),
        0 <= k < fields.len(),
        forall|j: int| k < j < fields.len() ==> fields[j] != fields[k],
        in_range(time, start, end),
        ({
            let after = inserted_upto(
                series_for(before, name).fields,
                fields,
                values,
                time,
                fields.len() as int,
            );
            0 <= c < selected_names(after, selections).len() && selected_names(
                after,
                selections,
            )[c] == fields[k]
        }),
    ensures
        ({
            let inserted = SeriesState {
                name: series_for(before, name).name,
                fields: inserted_upto(
                    series_for(before, name).fields,
                    fields,
                    values,
                    time,
                    fields.len() as int,
                ),
            };
            let found = series_for(with_series(before, inserted), name);
            exists|r: int|
                row_holds(
                    found.rows(selections, start, end),
                    selected_names(found.fields, selections).len(),
                    r,
                    c,
                    time,
                    values[k],
                )
        }),
{
    let series = series_for(before, name);
    assert(series.name == name) by {
        if has_series(before, name) {
            let p = series_position(before, name);
            assert(before[p].name == name);
        }
    }
    let inserted = SeriesState {
        name: series.name,
        fields: inserted_upto(series.fields, fields, values, time, fields.len() as int),
    };
    lemma_series_is_kept(before, inserted);
    lemma_insert_visibility(series, fields, values, time, selections, start, end, k, c);
}

} // verus!
