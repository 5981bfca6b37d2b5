//! A series: its field stores, the fan-out of inserts and the fan-in of reads.

use vstd::prelude::*;
use vstd::string::{StrSliceExecFns, StringExecFns, StringSliceAdditionalSpecFns};
use vstd::utf8::encode_utf8;

use crate::{ClientRecordCollection, DataValue, RecordCollection};
use crate::encoding::same_text;
use crate::lang::{Selection, SelectQuery};
use crate::storage::field::{
    summary_of, value_type, value_type_of, FieldEntry, FieldState, FieldStorage,
};
use crate::storage::field_block::{block_bytes, in_range, ENTRIES_PER_BLOCK};
use crate::storage::field_index::FieldStorageBlockSummary;
use crate::storage::merge::{
    all_times, has_time, lemma_merge_complete, lemma_row_offset, lemma_value_from_unique,
    strictly_sorted, sweep, value_at,
    advance, all_empty, at_start, columns_of, earliest, lemma_advance_consumes,
    lemma_earliest_is_least_head, lemma_merge_emits, lemma_merge_of_nothing, lemma_merge_rows_whole,
    merge_from, merge_spec, remaining, row_holds, row_values,
};
use crate::storage::name_index::{index_get, index_insert, index_new, name_positions};
use crate::wire_protocol::{DataType, FieldDescription};
use crate::wire_protocol::query::row_models;

verus! {

/// One row to insert: a value for each of some fields, all at one time.
#[derive(Debug, PartialEq)]
pub struct SeriesEntry {
    pub fields: Vec<String>,
    pub values: Vec<DataValue>,
    /// Nanoseconds since the Unix epoch.
    pub time: i64,
}

/// The name of a series and the names of its fields.
#[derive(Debug, PartialEq)]
pub struct SeriesSummary {
    pub name: String,
    pub fields: Vec<String>,
}

/// Where the word that holds position `k` starts: after the last blank
/// before `k`, or at the start of the text.
pub open spec fn word_start(text: Seq<char>, k: int) -> int
    decreases k,
{
    if k <= 0 {
        0
    } else if text[k - 1] == ' ' {
        k
    } else {
        word_start(text, k - 1)
    }
}

/// The words that the blanks among the first `k` characters end, in order.
pub open spec fn words_upto(text: Seq<char>, k: int) -> Seq<Seq<char>>
    decreases k,
{
    if k <= 0 {
        Seq::empty()
    } else if text[k - 1] == ' ' {
        words_upto(text, k - 1).push(text.subrange(word_start(text, k - 1), k - 1))
    } else {
        words_upto(text, k - 1)
    }
}

/// The words of a text: what stands between its blanks, before the first
/// and after the last, empty words too.
pub open spec fn words(text: Seq<char>) -> Seq<Seq<char>> {
    words_upto(text, text.len() as int).push(
        text.subrange(word_start(text, text.len() as int), text.len() as int),
    )
}

/// The first `k` words with a blank after each.
pub open spec fn words_text(names: Seq<Seq<char>>, k: int) -> Seq<char>
    decreases k,
{
    if k <= 0 {
        Seq::empty()
    } else {
        words_text(names, k - 1) + names[k - 1] + seq![' ']
    }
}

/// The words with a blank between each two: the text of a summary's fields.
pub open spec fn joined(names: Seq<Seq<char>>) -> Seq<char> {
    if names.len() == 0 {
        Seq::empty()
    } else {
        words_text(names, names.len() - 1) + names.last()
    }
}

/// The name holds no blank.
pub open spec fn no_blank(name: Seq<char>) -> bool {
    forall|i: int| 0 <= i < name.len() ==> #[trigger] name[i] != ' '
}

/// Across a stretch without blanks no word ends and none starts.
proof fn lemma_words_across(text: Seq<char>, a: int, m: int)
    requires
        0 <= a,
        0 <= m,
        a + m <= text.len(),
        word_start(text, a) == a,
        forall|i: int| a <= i < a + m ==> #[trigger] text[i] != ' ',
    ensures
        words_upto(text, a + m) == words_upto(text, a),
        word_start(text, a + m) == a,
    decreases m,
{
    if m > 0 {
        lemma_words_across(text, a, m - 1);
        assert(text[a + m - 1] != ' ');
    }
}

/// A text that starts with the first `j` names, a blank after each, has
/// those names as the words that end there, and a word starts after them.
proof fn lemma_words_of_prefix(text: Seq<char>, names: Seq<Seq<char>>, j: int)
    requires
        0 <= j <= names.len(),
        forall|i: int| 0 <= i < j ==> no_blank(#[trigger] names[i]),
        words_text(names, j).len() <= text.len(),
        text.take(words_text(names, j).len() as int) == words_text(names, j),
    ensures
        words_upto(text, words_text(names, j).len() as int) == names.take(j),
        word_start(text, words_text(names, j).len() as int) == words_text(names, j).len(),
    decreases j,
{
    if j <= 0 {
        assert(words_upto(text, 0) =~= names.take(0));
    } else {
        let before = words_text(names, j - 1);
        let name = names[j - 1];
        let a = before.len() as int;
        let n = name.len() as int;
        let all = words_text(names, j);
        assert(all == before + name + seq![' ']);
        assert forall|i: int| 0 <= i < all.len() implies text[i] == all[i] by {
            assert(text.take(all.len() as int)[i] == text[i]);
        }
        assert(text.take(a) =~= before) by {
            assert forall|i: int| 0 <= i < a implies text[i] == before[i] by {
                assert(all[i] == before[i]);
            }
        }
        lemma_words_of_prefix(text, names, j - 1);
        assert(no_blank(name));
        assert forall|i: int| a <= i < a + n implies #[trigger] text[i] != ' ' by {
            assert(all[i] == name[i - a]);
        }
        lemma_words_across(text, a, n);
        assert(text[a + n] == ' ') by {
            assert(all[a + n] == ' ');
        }
        assert(text.subrange(a, a + n) =~= name) by {
            assert forall|i: int| 0 <= i < n implies text[a + i] == name[i] by {
                assert(all[a + i] == name[i]);
            }
        }
        assert(names.take(j - 1).push(name) =~= names.take(j));
    }
}

/// The text of a summary loads back: the words of one or more names without
/// blanks, written with a blank between each two, are those names.
pub proof fn lemma_summary_round_trip(names: Seq<Seq<char>>)
    requires
        names.len() > 0,
        forall|i: int| 0 <= i < names.len() ==> no_blank(#[trigger] names[i]),
    ensures
        words(joined(names)) == names,
{
    let text = joined(names);
    let j = names.len() - 1;
    let before = words_text(names, j);
    let a = before.len() as int;
    let last = names.last();
    assert(text == before + last);
    assert(text.take(a) =~= before);
    lemma_words_of_prefix(text, names, j);
    assert(no_blank(last));
    assert forall|i: int| a <= i < a + last.len() implies #[trigger] text[i] != ' ' by {
        assert(text[i] == last[i - a]);
    }
    lemma_words_across(text, a, last.len() as int);
    assert(text.subrange(a, text.len() as int) =~= last);
    assert(names.take(j).push(last) =~= names);
}

impl SeriesSummary {
    /// The summary of a series without fields.
    pub fn new(name: &str) -> (summary: SeriesSummary)
        ensures
            summary.name@ == name@,
            summary.fields@.len() == 0,
    {
        SeriesSummary { name: name.to_owned(), fields: Vec::new() }
    }

    /// The summary of a series from the text that holds the names of its
    /// fields with a blank between each two.
    pub fn load(name: &str, contents: &str) -> (summary: SeriesSummary)
        ensures
            summary.name@ == name@,
            texts(summary.fields@) == words(contents@),
    {
        let len = contents.unicode_len();
        let mut fields: Vec<String> = Vec::new();
        let mut start: usize = 0;
        let mut i: usize = 0;
        assert(texts(fields@) =~= words_upto(contents@, 0));
        while i < len
            invariant
                i <= len,
                len == contents@.len(),
                start == word_start(contents@, i as int),
                start <= i,
                texts(fields@) == words_upto(contents@, i as int),
            decreases len - i,
        {
            if contents.get_char(i) == ' ' {
                let word = contents.substring_char(start, i).to_owned();
                let ghost before = texts(fields@);
                fields.push(word);
                assert(texts(fields@) =~= before.push(word@));
                start = i + 1;
            }
            i += 1;
        }
        let word = contents.substring_char(start, len).to_owned();
        let ghost before = texts(fields@);
        fields.push(word);
        assert(texts(fields@) =~= before.push(word@));
        SeriesSummary { name: name.to_owned(), fields }
    }

    /// The names of the fields with a blank between each two.
    pub fn text(&self) -> (text: String)
        ensures
            text@ == joined(texts(self.fields@)),
    {
        let mut text = String::new();
        let ghost names = texts(self.fields@);
        let mut k: usize = 0;
        if self.fields.len() == 0 {
            return text;
        }
        while k + 1 < self.fields.len()
            invariant
                k + 1 <= self.fields@.len(),
                names == texts(self.fields@),
                text@ == words_text(names, k as int),
            decreases self.fields.len() - k,
        {
            text.append(self.fields[k].as_str());
            text.append(" ");
            proof {
                reveal_strlit(" ");
                assert(" "@ =~= seq![' ']);
                assert(names[k as int] == self.fields@[k as int]@);
                assert(text@ =~= words_text(names, k as int + 1));
            }
            k += 1;
        }
        text.append(self.fields[k].as_str());
        assert(names[k as int] == self.fields@[k as int]@);
        assert(names.last() == names[k as int]);
        text
    }
}

/// The bytes that a full block of one field adds to the field's two files.
#[derive(Debug, PartialEq)]
pub struct BlockWrite {
    /// The name of the field.
    pub field: String,
    /// The block, to append to the data file.
    pub data: Vec<u8>,
    /// The block's summary, to append to the index file.
    pub summary: Vec<u8>,
}

/// What a `BlockWrite` says: the field and the two runs of bytes.
pub struct BlockWriteModel {
    pub field: Seq<char>,
    pub data: Seq<u8>,
    pub summary: Seq<u8>,
}

impl View for BlockWrite {
    type V = BlockWriteModel;

    open spec fn view(&self) -> BlockWriteModel {
        BlockWriteModel { field: self.field@, data: self.data@, summary: self.summary@ }
    }
}

/// A block that a read needs from disk: the position of the field's store
/// in the series and the ordinal of the block in the field's data file.
#[derive(Clone, Copy, Debug, PartialEq, Eq, Structural)]
pub struct BlockRequest {
    pub field: usize,
    pub ordinal: usize,
}

/// The store of one series: a store per field, in the order in which the
/// fields came, and a hash index from each field's name to its position.
pub struct SeriesStorage {
    pub series_name: String,
    pub field_storages: Vec<FieldStorage>,
    pub index: fnv::FnvHashMap<String, usize>,
}

/// What a series store holds: its name and the states of its field stores.
pub struct SeriesState {
    pub name: Seq<char>,
    pub fields: Seq<FieldState>,
}

/// Some field has the given name.
pub open spec fn has_field(fields: Seq<FieldState>, name: Seq<char>) -> bool {
    exists|i: int| 0 <= i < fields.len() && (#[trigger] fields[i]).name == name
}

/// The position of a field with the given name.
pub open spec fn position_of(fields: Seq<FieldState>, name: Seq<char>) -> int {
    choose|i: int| 0 <= i < fields.len() && (#[trigger] fields[i]).name == name
}

/// No two fields have the same name.
pub open spec fn distinct_names(fields: Seq<FieldState>) -> bool {
    forall|i: int, j: int|
        0 <= i < fields.len() && 0 <= j < fields.len() && i != j ==> (#[trigger] fields[i]).name != (
        #[trigger] fields[j]).name
}

/// The index keeps the position of every field under the field's name.
pub open spec fn indexes(positions: Map<Seq<char>, usize>, fields: Seq<FieldState>) -> bool {
    forall|i: int|
        0 <= i < fields.len() ==> positions.dom().contains((#[trigger] fields[i]).name)
            && positions[fields[i].name] == i
}

/// The fields after one value goes to the field of the given name: the
/// field's store takes the entry, and a field that the series does not have
/// yet gets a fresh store at the end, of the value's type.
pub open spec fn inserted_one(fields: Seq<FieldState>, name: Seq<char>, entry: FieldEntry) -> Seq<
    FieldState,
> {
    if has_field(fields, name) {
        let i = position_of(fields, name);
        fields.update(i, fields[i].inserted(entry))
    } else {
        fields.push(FieldState::fresh(name, value_type(entry.value)).inserted(entry))
    }
}

/// The fields after the first `k` values of a row went to their fields, in the row's order.
pub open spec fn inserted_upto(
    fields: Seq<FieldState>,
    names: Seq<Seq<char>>,
    values: Seq<DataValue>,
    time: i64,
    k: int,
) -> Seq<FieldState>
    decreases k,
{
    if k <= 0 {
        fields
    } else {
        inserted_one(
            inserted_upto(fields, names, values, time, k - 1),
            names[k - 1],
            FieldEntry { time, value: values[k - 1] },
        )
    }
}

/// The block that one value's insert makes a field persist, if it finds the
/// field's pending block full.
pub open spec fn write_of(fields: Seq<FieldState>, name: Seq<char>) -> Seq<BlockWriteModel> {
    if has_field(fields, name) && fields[position_of(fields, name)].pending.len()
        == ENTRIES_PER_BLOCK {
        let pending = fields[position_of(fields, name)].pending;
        seq![
            BlockWriteModel {
                field: name,
                data: block_bytes(pending),
                summary: summary_of(pending, fields[position_of(fields, name)].data_type).record(),
            },
        ]
    } else {
        Seq::empty()
    }
}

/// The blocks that the first `k` values of a row make their fields persist, in the row's order.
pub open spec fn writes_upto(
    fields: Seq<FieldState>,
    names: Seq<Seq<char>>,
    values: Seq<DataValue>,
    time: i64,
    k: int,
) -> Seq<BlockWriteModel>
    decreases k,
{
    if k <= 0 {
        Seq::empty()
    } else {
        writes_upto(fields, names, values, time, k - 1) + write_of(
            inserted_upto(fields, names, values, time, k - 1),
            names[k - 1],
        )
    }
}

/// The texts of the names.
pub open spec fn texts(names: Seq<String>) -> Seq<Seq<char>> {
    Seq::new(names.len(), |i: int| names[i]@)
}

/// What the writes say.
pub open spec fn write_models(writes: Seq<BlockWrite>) -> Seq<BlockWriteModel> {
    Seq::new(writes.len(), |i: int| writes[i]@)
}

/// With distinct names, a field is at the position of its name.
pub proof fn lemma_position_of(fields: Seq<FieldState>, i: int)
    requires
        distinct_names(fields),
        0 <= i < fields.len(),
    ensures
        has_field(fields, fields[i].name),
        position_of(fields, fields[i].name) == i,
{
    let name = fields[i].name;
    assert(0 <= i < fields.len() && fields[i].name == name);
    let j = position_of(fields, name);
    if j != i {
        assert(fields[i].name != fields[j].name);
    }
}

/// An index of the fields shows that their names are distinct.
pub proof fn lemma_indexes_distinct(positions: Map<Seq<char>, usize>, fields: Seq<FieldState>)
    requires
        indexes(positions, fields),
    ensures
        distinct_names(fields),
{
    assert forall|i: int, j: int|
        0 <= i < fields.len() && 0 <= j < fields.len() && i != j implies (#[trigger] fields[i]).name
        != (#[trigger] fields[j]).name by {
        if fields[i].name == fields[j].name {
            assert(positions[fields[i].name] == i);
            assert(positions[fields[j].name] == j);
        }
    }
}

/// A file of a series directory: its name and what it holds.
#[derive(Debug, PartialEq)]
pub struct StoredFile {
    pub name: String,
    pub contents: Vec<u8>,
}

/// `s` ends with `tail`.
pub open spec fn has_suffix(s: Seq<u8>, tail: Seq<u8>) -> bool {
    tail.len() <= s.len() && s.subrange(s.len() - tail.len(), s.len() as int) == tail
}

/// The name is reserved for index files: it ends in `_index`.
pub open spec fn is_index_file(name: Seq<char>) -> bool {
    has_suffix(encode_utf8(name), "_index".spec_bytes())
}

/// The file name is that of the index file of the field: the field's name and `_index`.
pub open spec fn is_index_of(file: Seq<char>, field: Seq<char>) -> bool {
    encode_utf8(file) == encode_utf8(field) + "_index".spec_bytes()
}

/// What the index file of the field holds, going by the first `k` files:
/// the contents of the last file so named, or nothing where there is none.
pub open spec fn index_upto(files: Seq<StoredFile>, field: Seq<char>, k: int) -> Seq<u8>
    decreases k,
{
    if k <= 0 {
        Seq::empty()
    } else if is_index_of(files[k - 1].name@, field) {
        files[k - 1].contents@
    } else {
        index_upto(files, field, k - 1)
    }
}

/// The field stores that the first `k` files of a directory give: one for
/// each file whose name is not reserved for index files and has not come
/// before, opened from what the field's index file holds.
pub open spec fn loaded_upto(files: Seq<StoredFile>, k: int) -> Seq<FieldState>
    decreases k,
{
    if k <= 0 {
        Seq::empty()
    } else {
        let before = loaded_upto(files, k - 1);
        let name = files[k - 1].name@;
        if is_index_file(name) || has_field(before, name) {
            before
        } else {
            before.push(
                FieldState::opened(
                    name,
                    FieldStorageBlockSummary::all_of(index_upto(files, name, files.len() as int)),
                ),
            )
        }
    }
}

/// The name of the index file of a field: the field's name and `_index`.
pub fn index_file_name(field: &str) -> (name: String)
    ensures
        name@ == field@ + "_index"@,
{
    let name = field.to_owned();
    name.concat("_index")
}

/// Whether `s` ends with `tail`.
pub fn ends_with(s: &[u8], tail: &[u8]) -> (r: bool)
    ensures
        r == has_suffix(s@, tail@),
{
    if tail.len() > s.len() {
        return false;
    }
    let offset = s.len() - tail.len();
    let mut i: usize = 0;
    while i < tail.len()
        invariant
            i <= tail@.len(),
            offset + tail@.len() == s@.len() <= usize::MAX,
            forall|j: int| 0 <= j < i ==> s@[offset + j] == tail@[j],
        decreases tail.len() - i,
    {
        if s[offset + i] != tail[i] {
            assert(s@.subrange(offset as int, s@.len() as int)[i as int] != tail@[i as int]);
            return false;
        }
        i += 1;
    }
    assert(s@.subrange(offset as int, s@.len() as int) =~= tail@);
    true
}

/// Whether `whole` is `head` followed by `tail`.
pub fn is_joined(whole: &[u8], head: &[u8], tail: &[u8]) -> (r: bool)
    ensures
        r == (whole@ == head@ + tail@),
{
    if head.len() > whole.len() || whole.len() - head.len() != tail.len() {
        return false;
    }
    let mut i: usize = 0;
    while i < whole.len()
        invariant
            i <= whole@.len(),
            whole@.len() == head@.len() + tail@.len(),
            forall|j: int| 0 <= j < i ==> whole@[j] == (head@ + tail@)[j],
        decreases whole.len() - i,
    {
        let wanted = if i < head.len() {
            head[i]
        } else {
            tail[i - head.len()]
        };
        if whole[i] != wanted {
            return false;
        }
        i += 1;
    }
    assert(whole@ =~= head@ + tail@);
    true
}

/// The later bound lies before the earlier one.
pub open spec fn inverted(start: Option<i64>, end: Option<i64>) -> bool {
    start matches Some(s) && end matches Some(e) && e < s
}

/// The names of the fields that a query reads: the fields of its terms in
/// the query's order, or every field of the series, in the series' order,
/// where the query names none. Aggregators pass through.
pub open spec fn selected_names(fields: Seq<FieldState>, selections: Seq<Selection>) -> Seq<
    Seq<char>,
> {
    if selections.len() == 0 {
        Seq::new(fields.len(), |i: int| fields[i].name)
    } else {
        Seq::new(selections.len(), |i: int| selections[i].field_name())
    }
}

/// The column of the field of the given name within the bounds; a name that
/// the series does not know gives an empty column.
pub open spec fn column_of(
    fields: Seq<FieldState>,
    name: Seq<char>,
    start: Option<i64>,
    end: Option<i64>,
) -> Seq<FieldEntry> {
    if has_field(fields, name) {
        fields[position_of(fields, name)].read(start, end)
    } else {
        Seq::empty()
    }
}

/// The columns of the named fields within the bounds.
pub open spec fn columns_for(
    fields: Seq<FieldState>,
    names: Seq<Seq<char>>,
    start: Option<i64>,
    end: Option<i64>,
) -> Seq<Seq<FieldEntry>> {
    Seq::new(names.len(), |i: int| column_of(fields, names[i], start, end))
}

/// The declared type of the field of the given name; `Float` for a name that
/// the series does not know.
pub open spec fn declared_type(fields: Seq<FieldState>, name: Seq<char>) -> DataType {
    if has_field(fields, name) {
        fields[position_of(fields, name)].data_type
    } else {
        DataType::Float
    }
}

/// The descriptions are those of the named fields, in order.
pub open spec fn describes(
    descriptions: Seq<FieldDescription>,
    fields: Seq<FieldState>,
    names: Seq<Seq<char>>,
) -> bool {
    &&& descriptions.len() == names.len()
    &&& forall|i: int|
        0 <= i < names.len() ==> (#[trigger] descriptions[i]).name@ == names[i]
            && descriptions[i].data_type == declared_type(fields, names[i])
}

/// The blocks that the first `k` named fields need from disk for a read
/// within the bounds: field by field, ordinals ascending.
pub open spec fn requests_upto(
    fields: Seq<FieldState>,
    names: Seq<Seq<char>>,
    start: Option<i64>,
    end: Option<i64>,
    k: int,
) -> Seq<BlockRequest>
    decreases k,
{
    if k <= 0 {
        Seq::empty()
    } else {
        requests_upto(fields, names, start, end, k - 1) + (if has_field(fields, names[k - 1]) {
            let p = position_of(fields, names[k - 1]);
            let ordinals = fields[p].missing(start, end);
            Seq::new(
                ordinals.len(),
                |j: int| BlockRequest { field: p as usize, ordinal: ordinals[j] },
            )
        } else {
            Seq::empty()
        })
    }
}

/// The result is what a read of the query returns: the rows are the
/// series' rows for the query, and the fields are those read, with their
/// declared types, or none where the rows are none for inverted bounds or
/// for want of any entry.
pub open spec fn is_read_of(
    records: RecordCollection,
    state: SeriesState,
    selections: Seq<Selection>,
    start: Option<i64>,
    end: Option<i64>,
) -> bool {
    let names = selected_names(state.fields, selections);
    let columns = columns_for(state.fields, names, start, end);
    &&& records.elements@ == state.rows(selections, start, end)
    &&& records.well_formed()
    &&& if inverted(start, end) || all_empty(columns) {
        records.fields@.len() == 0
    } else {
        describes(records.fields@, state.fields, names)
    }
}

impl SeriesState {
    /// The series after the bytes of a block arrive from disk for the field
    /// store at the given position; a position past the fields changes nothing.
    pub open spec fn supplied(self, field: int, ordinal: int, bytes: Seq<u8>) -> SeriesState {
        if 0 <= field < self.fields.len() {
            SeriesState {
                fields: self.fields.update(field, self.fields[field].supplied(ordinal, bytes)),
                ..self
            }
        } else {
            self
        }
    }

    /// What a read of the query returns as its rows: nothing for inverted
    /// bounds, else the merge of the columns of the fields that the query reads.
    pub open spec fn rows(self, selections: Seq<Selection>, start: Option<i64>, end: Option<i64>) -> Seq<
        DataValue,
    > {
        if inverted(start, end) {
            Seq::empty()
        } else {
            merge_spec(
                columns_for(self.fields, selected_names(self.fields, selections), start, end),
            )
        }
    }

    /// The blocks that a read of the query needs from disk: none for inverted bounds.
    pub open spec fn requests(
        self,
        selections: Seq<Selection>,
        start: Option<i64>,
        end: Option<i64>,
    ) -> Seq<BlockRequest> {
        if inverted(start, end) {
            Seq::empty()
        } else {
            let names = selected_names(self.fields, selections);
            requests_upto(self.fields, names, start, end, names.len() as int)
        }
    }
}

/// Every field store is well formed.
pub open spec fn fields_well_formed(fields: Seq<FieldState>) -> bool {
    forall|i: int| 0 <= i < fields.len() ==> (#[trigger] fields[i]).well_formed()
}

/// A change of one field's store that keeps its name keeps the index right.
proof fn lemma_replace_field(
    positions: Map<Seq<char>, usize>,
    before: Seq<FieldState>,
    p: int,
    changed: FieldState,
)
    requires
        indexes(positions, before),
        fields_well_formed(before),
        0 <= p < before.len(),
        changed.name == before[p].name,
        changed.well_formed(),
    ensures
        indexes(positions, before.update(p, changed)),
        fields_well_formed(before.update(p, changed)),
{
    let after = before.update(p, changed);
    assert forall|i: int| 0 <= i < after.len() implies positions.dom().contains(
        (#[trigger] after[i]).name,
    ) && positions[after[i].name] == i by {
        assert(after[i].name == before[i].name);
    }
    assert forall|i: int| 0 <= i < after.len() implies (#[trigger] after[i]).well_formed() by {
        if i != p {
            assert(after[i] == before[i]);
        }
    }
}

/// A new field at the end, entered in the index under its name, keeps the index right.
proof fn lemma_add_field(positions: Map<Seq<char>, usize>, before: Seq<FieldState>, added: FieldState)
    requires
        indexes(positions, before),
        fields_well_formed(before),
        !has_field(before, added.name),
        added.well_formed(),
        before.len() <= usize::MAX,
    ensures
        indexes(positions.insert(added.name, before.len() as usize), before.push(added)),
        fields_well_formed(before.push(added)),
{
    let after = before.push(added);
    let grown = positions.insert(added.name, before.len() as usize);
    assert forall|i: int| 0 <= i < after.len() implies grown.dom().contains(
        (#[trigger] after[i]).name,
    ) && grown[after[i].name] == i by {
        if i < before.len() {
            assert(after[i] == before[i]);
            assert(before[i].name != added.name);
        }
    }
    assert forall|i: int| 0 <= i < after.len() implies (#[trigger] after[i]).well_formed() by {
        if i < before.len() {
            assert(after[i] == before[i]);
        }
    }
}

impl View for SeriesStorage {
    type V = SeriesState;

    open spec fn view(&self) -> SeriesState {
        SeriesState {
            name: self.series_name@,
            fields: Seq::new(self.field_storages@.len(), |i: int| self.field_storages@[i]@),
        }
    }
}

impl SeriesStorage {
    /// Every field store is well formed and the index keeps the position of
    /// every field under its name.
    pub open spec fn well_formed(&self) -> bool {
        &&& fields_well_formed(self@.fields)
        &&& indexes(name_positions(self.index), self@.fields)
    }

    /// The store of a series without fields.
    pub fn new(series_name: &str) -> (store: SeriesStorage)
        ensures
            store@.name == series_name@,
            store@.fields.len() == 0,
            store.well_formed(),
    {
        SeriesStorage {
            series_name: series_name.to_owned(),
            field_storages: Vec::new(),
            index: index_new(),
        }
    }

    /// Opens the store of a series from the files of its directory. Each
    /// file whose name does not end in `_index` names a field; the field's
    /// store is opened from the file named after the field with `_index`
    /// at its end, or without summaries where the directory has none. Only
    /// the contents of the index files are read.
    pub fn load(series_name: &str, files: &Vec<StoredFile>) -> (store: SeriesStorage)
        ensures
            store@.name == series_name@,
            store@.fields == loaded_upto(files@, files@.len() as int),
            store.well_formed(),
    {
        let mut store = SeriesStorage::new(series_name);
        assert(store@.fields =~= loaded_upto(files@, 0));
        let mut k: usize = 0;
        while k < files.len()
            invariant
                k <= files@.len(),
                store.well_formed(),
                store@.name == series_name@,
                store@.fields == loaded_upto(files@, k as int),
            decreases files.len() - k,
        {
            let name = &files[k].name;
            let ghost before = store@.fields;
            let ghost positions = name_positions(store.index);
            if !ends_with(name.as_str().as_bytes(), "_index".as_bytes()) && store.find(
                name.as_str(),
            ).is_none() {
                let mut found: usize = files.len();
                let mut j: usize = 0;
                while j < files.len()
                    invariant
                        j <= files@.len(),
                        found <= files@.len(),
                        found < files@.len() ==> index_upto(files@, name@, j as int)
                            == files@[found as int].contents@,
                        found == files@.len() ==> index_upto(files@, name@, j as int)
                            == Seq::<u8>::empty(),
                    decreases files.len() - j,
                {
                    if is_joined(
                        files[j].name.as_str().as_bytes(),
                        name.as_str().as_bytes(),
                        "_index".as_bytes(),
                    ) {
                        found = j;
                    }
                    j += 1;
                }
                let field = if found < files.len() {
                    FieldStorage::load(name.as_str(), files[found].contents.as_slice())
                } else {
                    let none: Vec<u8> = Vec::new();
                    FieldStorage::load(name.as_str(), none.as_slice())
                };
                let position = store.field_storages.len();
                index_insert(&mut store.index, name.clone(), position);
                store.field_storages.push(field);
                proof {
                    let added = FieldState::opened(
                        name@,
                        FieldStorageBlockSummary::all_of(
                            index_upto(files@, name@, files@.len() as int),
                        ),
                    );
                    assert(store@.fields =~= before.push(added));
                    lemma_add_field(positions, before, added);
                }
            }
            k += 1;
        }
        store
    }

    /// The position of the store of the field with the given name.
    pub fn find(&self, name: &str) -> (position: Option<usize>)
        requires
            self.well_formed(),
        ensures
            position is Some <==> has_field(self@.fields, name@),
            position matches Some(p) ==> p == position_of(self@.fields, name@) && p
                < self@.fields.len() && self@.fields[p as int].name == name@,
    {
        let kept = index_get(&self.index, name);
        let position = match kept {
            Some(p) => if p < self.field_storages.len() && same_text(
                self.field_storages[p].name.as_str(),
                name,
            ) {
                Some(p)
            } else {
                None
            },
            None => None,
        };
        proof {
            lemma_indexes_distinct(name_positions(self.index), self@.fields);
            match position {
                Some(p) => {
                    lemma_position_of(self@.fields, p as int);
                },
                None => {
                    if has_field(self@.fields, name@) {
                        let i = position_of(self@.fields, name@);
                        assert(name_positions(self.index).dom().contains(self@.fields[i].name));
                        assert(name_positions(self.index)[self@.fields[i].name] == i);
                    }
                },
            }
        }
        position
    }

    /// Whether the store is well formed.
    pub fn is_well_formed(&self) -> (r: bool)
        ensures
            r == self.well_formed(),
    {
        let mut i: usize = 0;
        while i < self.field_storages.len()
            invariant
                i <= self.field_storages@.len(),
                forall|j: int| 0 <= j < i ==> (#[trigger] self@.fields[j]).well_formed(),
                forall|j: int|
                    0 <= j < i ==> name_positions(self.index).dom().contains(
                        (#[trigger] self@.fields[j]).name,
                    ) && name_positions(self.index)[self@.fields[j].name] == j,
            decreases self.field_storages.len() - i,
        {
            let field = &self.field_storages[i];
            assert(self@.fields[i as int] == field@);
            if !field.is_well_formed() {
                return false;
            }
            match index_get(&self.index, field.name.as_str()) {
                Some(p) => {
                    if p != i {
                        return false;
                    }
                },
                None => {
                    return false;
                },
            }
            i += 1;
        }
        true
    }

    /// Takes a row: each value goes to the store of its field, in the row's
    /// order, and a field that the series does not have yet gets a store.
    /// The blocks that become full on the way are persisted: the bytes to
    /// append to the fields' files come back, in the row's order.
    pub fn insert(&mut self, entry: SeriesEntry) -> (writes: Vec<BlockWrite>)
        requires
            old(self).well_formed(),
            entry.fields@.len() == entry.values@.len(),
        ensures
            final(self).well_formed(),
            final(self)@.name == old(self)@.name,
            final(self)@.fields == inserted_upto(
                old(self)@.fields,
                texts(entry.fields@),
                entry.values@,
                entry.time,
                entry.fields@.len() as int,
            ),
            write_models(writes@) == writes_upto(
                old(self)@.fields,
                texts(entry.fields@),
                entry.values@,
                entry.time,
                entry.fields@.len() as int,
            ),
    {
        let ghost names = texts(entry.fields@);
        let ghost start = self@.fields;
        let mut writes: Vec<BlockWrite> = Vec::new();
        let mut k: usize = 0;
        assert(write_models(writes@) =~= Seq::<BlockWriteModel>::empty());
        while k < entry.fields.len()
            invariant
                k <= entry.fields@.len(),
                entry.fields@.len() == entry.values@.len(),
                names == texts(entry.fields@),
                self.well_formed(),
                self@.name == old(self)@.name,
                self@.fields == inserted_upto(start, names, entry.values@, entry.time, k as int),
                write_models(writes@) == writes_upto(
                    start,
                    names,
                    entry.values@,
                    entry.time,
                    k as int,
                ),
            decreases entry.fields.len() - k,
        {
            let item = FieldEntry { time: entry.time, value: entry.values[k] };
            let ghost written = write_models(writes@);
            let ghost before = self@.fields;
            assert(names[k as int] == entry.fields@[k as int]@);
            match self.insert_value(&entry.fields[k], item) {
                Some(write) => {
                    writes.push(write);
                    assert(write_models(writes@) =~= written + write_of(before, names[k as int]));
                },
                None => {
                    assert(write_models(writes@) =~= written + write_of(before, names[k as int]));
                },
            }
            k += 1;
        }
        writes
    }

    /// Takes one value of a row for the field of the given name, which gets
    /// a store where the series has none. A block that the value finds full
    /// is persisted: the bytes to append to the field's files come back.
    fn insert_value(&mut self, name: &String, item: FieldEntry) -> (write: Option<BlockWrite>)
        requires
            old(self).well_formed(),
        ensures
            final(self).well_formed(),
            final(self)@.name == old(self)@.name,
            final(self)@.fields == inserted_one(old(self)@.fields, name@, item),
            match write {
                Some(w) => write_of(old(self)@.fields, name@) == seq![w@],
                None => write_of(old(self)@.fields, name@) == Seq::<BlockWriteModel>::empty(),
            },
    {
        let ghost before = self@.fields;
        let ghost positions = name_positions(self.index);
        match self.find(name.as_str()) {
            Some(p) => {
                assert(before[p as int].well_formed());
                let flushed = self.field_storages[p].insert(item);
                proof {
                    let changed = before[p as int].inserted(item);
                    assert(self@.fields =~= before.update(p as int, changed));
                    lemma_replace_field(positions, before, p as int, changed);
                }
                match flushed {
                    Some(block) => {
                        let write = BlockWrite {
                            field: name.clone(),
                            data: block.data,
                            summary: block.summary,
                        };
                        assert(write_of(before, name@) =~= seq![write@]);
                        Some(write)
                    },
                    None => None,
                }
            },
            None => {
                let mut store = FieldStorage::new(name.as_str(), value_type_of(item.value));
                let flushed = store.insert(item);
                assert(flushed is None);
                let position = self.field_storages.len();
                index_insert(&mut self.index, name.clone(), position);
                self.field_storages.push(store);
                proof {
                    let added = FieldState::fresh(name@, value_type(item.value)).inserted(item);
                    assert(self@.fields =~= before.push(added));
                    lemma_add_field(positions, before, added);
                }
                None
            },
        }
    }

    /// The names of the fields that the query reads.
    fn names_for(&self, query: &SelectQuery) -> (names: Vec<String>)
        ensures
            texts(names@) == selected_names(self@.fields, query.selections@),
    {
        let mut names: Vec<String> = Vec::new();
        if query.selections.len() == 0 {
            let mut i: usize = 0;
            while i < self.field_storages.len()
                invariant
                    i <= self.field_storages@.len(),
                    names@.len() == i,
                    forall|j: int| 0 <= j < i ==> (#[trigger] names@[j])@ == self@.fields[j].name,
                decreases self.field_storages.len() - i,
            {
                names.push(self.field_storages[i].name.clone());
                i += 1;
            }
        } else {
            let mut i: usize = 0;
            while i < query.selections.len()
                invariant
                    i <= query.selections@.len(),
                    names@.len() == i,
                    forall|j: int|
                        0 <= j < i ==> (#[trigger] names@[j])@ == query.selections@[j].field_name(),
                decreases query.selections.len() - i,
            {
                names.push(query.selections[i].field().clone());
                i += 1;
            }
        }
        assert(texts(names@) =~= selected_names(self@.fields, query.selections@));
        names
    }

    /// The blocks that a read of the query needs from disk before it can
    /// return their entries: none where the later bound lies before the
    /// earlier one.
    pub fn missing_blocks(&self, query: &SelectQuery) -> (requests: Vec<BlockRequest>)
        requires
            self.well_formed(),
        ensures
            requests@ == self@.requests(query.selections@, query.start, query.end),
    {
        let mut requests: Vec<BlockRequest> = Vec::new();
        if is_inverted(query.start, query.end) {
            return requests;
        }
        let names = self.names_for(query);
        let ghost wanted = texts(names@);
        let mut k: usize = 0;
        while k < names.len()
            invariant
                k <= names@.len(),
                self.well_formed(),
                wanted == texts(names@),
                requests@ == requests_upto(self@.fields, wanted, query.start, query.end, k as int),
            decreases names.len() - k,
        {
            assert(wanted[k as int] == names@[k as int]@);
            match self.find(names[k].as_str()) {
                Some(p) => {
                    let ordinals = self.field_storages[p].missing_blocks(query.start, query.end);
                    let ghost before = requests@;
                    let mut j: usize = 0;
                    while j < ordinals.len()
                        invariant
                            j <= ordinals@.len(),
                            requests@.len() == before.len() + j,
                            requests@.take(before.len() as int) == before,
                            forall|i: int|
                                0 <= i < j ==> #[trigger] requests@[before.len() + i]
                                    == (BlockRequest { field: p, ordinal: ordinals@[i] }),
                        decreases ordinals.len() - j,
                    {
                        requests.push(BlockRequest { field: p, ordinal: ordinals[j] });
                        j += 1;
                    }
                    proof {
                        let added = Seq::new(
                            ordinals@.len(),
                            |i: int| BlockRequest { field: p, ordinal: ordinals@[i] },
                        );
                        assert forall|i: int| 0 <= i < requests@.len() implies requests@[i] == (
                        before + added)[i] by {
                            if i < before.len() {
                                assert(requests@.take(before.len() as int)[i] == requests@[i]);
                            } else {
                                assert(requests@[before.len() + (i - before.len())] == added[i
                                    - before.len()]);
                            }
                        }
                        assert(requests@ =~= before + added);
                    }
                },
                None => {
                    assert(requests@ + Seq::<BlockRequest>::empty() =~= requests@);
                },
            }
            k += 1;
        }
        requests
    }

    /// Takes the bytes of a block as they came from disk, for the field
    /// store at the given position. A position past the fields changes nothing.
    pub fn supply_block(&mut self, field: usize, ordinal: usize, bytes: &[u8])
        requires
            old(self).well_formed(),
        ensures
            final(self).well_formed(),
            final(self)@ == old(self)@.supplied(field as int, ordinal as int, bytes@),
    {
        if field < self.field_storages.len() {
            let ghost before = self@.fields;
            let ghost positions = name_positions(self.index);
            self.field_storages[field].supply_block(ordinal, bytes);
            proof {
                let changed = before[field as int].supplied(ordinal as int, bytes@);
                assert(before[field as int].well_formed());
                assert(self@.fields =~= before.update(field as int, changed));
                lemma_replace_field(positions, before, field as int, changed);
            }
        }
    }

    /// Reads the rows that the query asks for. Where the later bound lies
    /// before the earlier one the result is empty. Else each field that the
    /// query reads gives its column within the bounds, a name that the series
    /// does not know gives an empty column, and the columns are merged into
    /// rows; the result's fields are the fields read, with their declared types.
    pub fn read(&self, query: SelectQuery) -> (records: RecordCollection)
        requires
            self.well_formed(),
        ensures
            is_read_of(records, self@, query.selections@, query.start, query.end),
    {
        if is_inverted(query.start, query.end) {
            let records = RecordCollection::empty();
            assert(records.elements@ =~= Seq::<DataValue>::empty());
            return records;
        }
        let names = self.names_for(&query);
        let ghost wanted = texts(names@);
        let mut columns: Vec<Vec<FieldEntry>> = Vec::new();
        let mut descriptions: Vec<FieldDescription> = Vec::new();
        let mut k: usize = 0;
        while k < names.len()
            invariant
                k <= names@.len(),
                self.well_formed(),
                wanted == texts(names@),
                columns@.len() == k,
                descriptions@.len() == k,
                forall|i: int|
                    0 <= i < k ==> (#[trigger] columns@[i])@ == column_of(
                        self@.fields,
                        wanted[i],
                        query.start,
                        query.end,
                    ),
                forall|i: int|
                    0 <= i < k ==> (#[trigger] descriptions@[i]).name@ == wanted[i]
                        && descriptions@[i].data_type == declared_type(self@.fields, wanted[i]),
            decreases names.len() - k,
        {
            assert(wanted[k as int] == names@[k as int]@);
            match self.find(names[k].as_str()) {
                Some(p) => {
                    assert(self@.fields[p as int].well_formed());
                    columns.push(self.field_storages[p].read(query.start, query.end));
                    descriptions.push(
                        FieldDescription {
                            name: names[k].clone(),
                            data_type: self.field_storages[p].data_type,
                        },
                    );
                },
                None => {
                    columns.push(Vec::new());
                    descriptions.push(
                        FieldDescription { name: names[k].clone(), data_type: DataType::Float },
                    );
                },
            }
            k += 1;
        }
        assert(columns_of(columns@) =~= columns_for(
            self@.fields,
            wanted,
            query.start,
            query.end,
        ));
        merge_records(&columns, descriptions)
    }
}

/// Whether the later bound lies before the earlier one.
pub fn is_inverted(start: Option<i64>, end: Option<i64>) -> (r: bool)
    ensures
        r == inverted(start, end),
{
    match (start, end) {
        (Some(s), Some(e)) => e < s,
        _ => false,
    }
}

/// Fuses time-sorted columns into rows as `merge_records` does and hands
/// the rows out one by one, each as its time and its values.
pub fn merge_records3(entries: &Vec<Vec<FieldEntry>>, fields: Vec<FieldDescription>) -> (r:
    ClientRecordCollection)
    requires
        entries@.len() == fields@.len(),
    ensures
        all_empty(columns_of(entries@)) ==> r.fields@.len() == 0 && r.rows@.len() == 0,
        !all_empty(columns_of(entries@)) ==> r.fields@ == fields@ && row_models(r.rows@)
            == RecordCollection::rows_of(fields@.len(), merge_spec(columns_of(entries@))),
{
    let records = merge_records(entries, fields);
    let rows = records.rows();
    proof {
        if all_empty(columns_of(entries@)) {
            assert(RecordCollection::rows_of(0, merge_spec(columns_of(entries@))).len() == 0) by {
                lemma_merge_of_nothing(columns_of(entries@));
            }
        }
    }
    ClientRecordCollection { fields: records.fields, rows }
}

/// The cursors as mathematical integers.
pub open spec fn cursor_ints(cursors: Seq<usize>) -> Seq<int> {
    Seq::new(cursors.len(), |i: int| cursors[i] as int)
}

/// Fuses time-sorted columns into rows. Each row holds the least time among
/// the columns' next entries, then one value per column: the column's entry
/// at that time, or `Absent`. With no entry at all the result has no fields.
pub fn merge_records(entries: &Vec<Vec<FieldEntry>>, fields: Vec<FieldDescription>) -> (r:
    RecordCollection)
    requires
        entries@.len() == fields@.len(),
    ensures
        r.elements@ == merge_spec(columns_of(entries@)),
        all_empty(columns_of(entries@)) ==> r.fields@.len() == 0,
        !all_empty(columns_of(entries@)) ==> r.fields@ == fields@,
        r.well_formed(),
{
    let k = entries.len();
    let ghost cols = columns_of(entries@);
    let mut cursors: Vec<usize> = Vec::new();
    let mut any_entry = false;
    let mut c: usize = 0;
    while c < k
        invariant
            c <= k,
            k == entries@.len(),
            cols == columns_of(entries@),
            cursors@.len() == c,
            forall|i: int| 0 <= i < c ==> cursors@[i] == 0,
            any_entry <==> exists|i: int| 0 <= i < c && (#[trigger] cols[i]).len() > 0,
        decreases k - c,
    {
        if entries[c].len() > 0 {
            any_entry = true;
            assert(cols[c as int].len() > 0);
        }
        cursors.push(0);
        c += 1;
    }
    assert(cursor_ints(cursors@) =~= at_start(cols.len()));
    if !any_entry {
        proof {
            lemma_merge_of_nothing(cols);
        }
        return RecordCollection::empty();
    }
    assert(!all_empty(cols));
    let mut elements: Vec<DataValue> = Vec::new();
    loop
        invariant
            k == entries@.len(),
            cols == columns_of(entries@),
            cursors@.len() == k,
            forall|i: int| 0 <= i < k ==> (#[trigger] cursors@[i]) <= cols[i].len(),
            elements@ + merge_from(cols, cursor_ints(cursors@)) == merge_spec(cols),
        ensures
            elements@ == merge_spec(cols),
        decreases remaining(cols, cursor_ints(cursors@), k as int),
    {
        let ghost before = cursor_ints(cursors@);
        let mut found = false;
        let mut least: i64 = 0;
        let mut i: usize = 0;
        while i < k
            invariant
                i <= k,
                k == entries@.len(),
                cols == columns_of(entries@),
                cursors@.len() == k,
                before == cursor_ints(cursors@),
                forall|j: int| 0 <= j < k ==> (#[trigger] cursors@[j]) <= cols[j].len(),
                found <==> earliest(cols, before, i as int) is Some,
                found ==> earliest(cols, before, i as int) == Some(least as int),
            decreases k - i,
        {
            let cursor = cursors[i];
            assert(cursors@[i as int] <= cols[i as int].len());
            if cursor < entries[i].len() {
                let t = entries[i][cursor].time;
                if !found || t < least {
                    found = true;
                    least = t;
                }
            }
            i += 1;
        }
        if !found {
            proof {
                reveal_with_fuel(merge_from, 1);
            }
            assert(elements@ + Seq::<DataValue>::empty() =~= elements@);
            break;
        }
        let ghost t = least as int;
        let ghost prefix = elements@;
        proof {
            lemma_earliest_is_least_head(cols, before, k as int);
            lemma_advance_consumes(cols, before, t, k as int);
        }
        elements.push(DataValue::Timestamp(least));
        let mut i: usize = 0;
        while i < k
            invariant
                i <= k,
                k == entries@.len(),
                k == before.len(),
                cols == columns_of(entries@),
                cursors@.len() == k,
                t == least as int,
                forall|j: int| 0 <= j < k ==> 0 <= (#[trigger] before[j]) <= cols[j].len(),
                forall|j: int|
                    0 <= j < i ==> (#[trigger] cursors@[j]) as int == advance(cols, before, t)[j],
                forall|j: int| i <= j < k ==> (#[trigger] cursors@[j]) as int == before[j],
                elements@ == prefix + seq![DataValue::Timestamp(least)] + row_values(
                    cols,
                    before,
                    t,
                ).take(i as int),
            decreases k - i,
        {
            let cursor = cursors[i];
            assert(cursor as int == before[i as int]);
            let ghost taken = row_values(cols, before, t).take(i as int);
            if cursor < entries[i].len() && entries[i][cursor].time == least {
                elements.push(entries[i][cursor].value);
                cursors.set(i, cursor + 1);
            } else {
                elements.push(DataValue::Absent);
            }
            assert(row_values(cols, before, t).take(i as int + 1) =~= taken.push(
                row_values(cols, before, t)[i as int],
            ));
            assert(elements@ =~= prefix + seq![DataValue::Timestamp(least)] + row_values(
                cols,
                before,
                t,
            ).take(i as int + 1));
            i += 1;
        }
        proof {
            assert(row_values(cols, before, t).take(k as int) =~= row_values(cols, before, t));
            assert(cursor_ints(cursors@) =~= advance(cols, before, t));
            assert(forall|j: int| 0 <= j < k ==> (#[trigger] cursors@[j]) <= cols[j].len()) by {
                assert forall|j: int| 0 <= j < k implies (#[trigger] cursors@[j]) <= cols[j].len() by {
                    assert(cursors@[j] as int == advance(cols, before, t)[j]);
                    assert(0 <= before[j] <= cols[j].len());
                }
            }
            assert(merge_from(cols, before) == seq![DataValue::Timestamp(t as i64)] + row_values(
                cols,
                before,
                t,
            ) + merge_from(cols, advance(cols, before, t)));
            assert(elements@ + merge_from(cols, cursor_ints(cursors@)) =~= prefix + merge_from(
                cols,
                before,
            ));
        }
    }
    proof {
        lemma_merge_rows_whole(cols, at_start(cols.len()));
    }
    RecordCollection { fields, elements }
}

/// What one value's insert does to the field of the value's name: the
/// field is there afterwards and ends with the entry.
pub proof fn lemma_inserted_one(fields: Seq<FieldState>, name: Seq<char>, entry: FieldEntry)
    requires
        distinct_names(fields),
    ensures
        distinct_names(inserted_one(fields, name, entry)),
        has_field(inserted_one(fields, name, entry), name),
        inserted_one(fields, name, entry)[position_of(
            inserted_one(fields, name, entry),
            name,
        )].pending.last() == entry,
        inserted_one(fields, name, entry)[position_of(
            inserted_one(fields, name, entry),
            name,
        )].pending.len() > 0,
{
    let after = inserted_one(fields, name, entry);
    let at = if has_field(fields, name) {
        position_of(fields, name)
    } else {
        fields.len() as int
    };
    assert(after.len() > at >= 0 && after[at].name == name);
    assert(distinct_names(after)) by {
        assert forall|i: int, j: int|
            0 <= i < after.len() && 0 <= j < after.len() && i != j implies (#[trigger] after[i]).name
            != (#[trigger] after[j]).name by {
            if i < fields.len() && j < fields.len() {
                assert(fields[i].name != fields[j].name);
                assert(after[i].name == fields[i].name);
                assert(after[j].name == fields[j].name);
            } else if i < fields.len() {
                assert(after[i] == fields[i]);
            } else {
                assert(after[j] == fields[j]);
            }
        }
    }
    lemma_position_of(after, at);
}

/// What one value's insert does to a field of another name: nothing.
pub proof fn lemma_inserted_other(
    fields: Seq<FieldState>,
    name: Seq<char>,
    entry: FieldEntry,
    other: Seq<char>,
)
    requires
        distinct_names(fields),
        other != name,
        has_field(fields, other),
    ensures
        has_field(inserted_one(fields, name, entry), other),
        inserted_one(fields, name, entry)[position_of(inserted_one(fields, name, entry), other)]
            == fields[position_of(fields, other)],
{
    let after = inserted_one(fields, name, entry);
    lemma_inserted_one(fields, name, entry);
    let p = position_of(fields, other);
    assert(after[p] == fields[p]);
    lemma_position_of(after, p);
}

/// What the inserts of a row do to the field of the value at `k`, when no
/// later value of the row goes to the same field: after the first `m`
/// values, with `m` past `k`, the field is there and ends with that value's entry.
pub proof fn lemma_row_reaches_field(
    fields: Seq<FieldState>,
    names: Seq<Seq<char>>,
    values: Seq<DataValue>,
    time: i64,
    k: int,
    m: int,
)
    requires
        distinct_names(fields),
        0 <= k < m <= names.len(),
        forall|j: int| k < j < names.len() ==> names[j] != names[k],
    ensures
        distinct_names(inserted_upto(fields, names, values, time, m)),
        has_field(inserted_upto(fields, names, values, time, m), names[k]),
        inserted_upto(fields, names, values, time, m)[position_of(
            inserted_upto(fields, names, values, time, m),
            names[k],
        )].pending.len() > 0,
        inserted_upto(fields, names, values, time, m)[position_of(
            inserted_upto(fields, names, values, time, m),
            names[k],
        )].pending.last() == (FieldEntry { time, value: values[k] }),
    decreases m,
{
    lemma_rows_keep_names_distinct(fields, names, values, time, m - 1);
    let before = inserted_upto(fields, names, values, time, m - 1);
    let entry = FieldEntry { time, value: values[m - 1] };
    lemma_inserted_one(before, names[m - 1], entry);
    if m - 1 > k {
        lemma_row_reaches_field(fields, names, values, time, k, m - 1);
        lemma_inserted_other(before, names[m - 1], entry, names[k]);
    }
}

/// The inserts of a row keep the names of the fields distinct.
pub proof fn lemma_rows_keep_names_distinct(
    fields: Seq<FieldState>,
    names: Seq<Seq<char>>,
    values: Seq<DataValue>,
    time: i64,
    m: int,
)
    requires
        distinct_names(fields),
    ensures
        distinct_names(inserted_upto(fields, names, values, time, m)),
    decreases m,
{
    if m > 0 {
        lemma_rows_keep_names_distinct(fields, names, values, time, m - 1);
        lemma_inserted_one(
            inserted_upto(fields, names, values, time, m - 1),
            names[m - 1],
            FieldEntry { time, value: values[m - 1] },
        );
    }
}

/// After a row went into a series, the column of a read that covers the
/// row's time and reads the field of the value at `k` ends with that value's
/// entry, when no later value of the row goes to the same field.
proof fn lemma_column_ends_with_value(
    state: SeriesState,
    names: Seq<Seq<char>>,
    values: Seq<DataValue>,
    time: i64,
    selections: Seq<Selection>,
    start: Option<i64>,
    end: Option<i64>,
    k: int,
    c: int,
)
    requires
        distinct_names(state.fields),
        names.len() == values.len(),
        0 <= k < names.len(),
        forall|j: int| k < j < names.len() ==> names[j] != names[k],
        in_range(time, start, end),
        ({
            let after = inserted_upto(state.fields, names, values, time, names.len() as int);
            0 <= c < selected_names(after, selections).len() && selected_names(
                after,
                selections,
            )[c] == names[k]
        }),
    ensures
        ({
            let after = inserted_upto(state.fields, names, values, time, names.len() as int);
            let column = columns_for(after, selected_names(after, selections), start, end)[c];
            column.len() > 0 && column.last() == (FieldEntry { time, value: values[k] })
        }),
{
    let fields = inserted_upto(state.fields, names, values, time, names.len() as int);
    let read = selected_names(fields, selections);
    let columns = columns_for(fields, read, start, end);
    lemma_row_reaches_field(state.fields, names, values, time, k, names.len() as int);
    let p = position_of(fields, names[k]);
    let entry = FieldEntry { time, value: values[k] };
    let column = fields[p].read(start, end);
    assert(columns[c] == column);
    let pending = fields[p].pending;
    assert(crate::storage::field_block::within(start, end)(entry));
    reveal_with_fuel(Seq::filter, 1);
    assert(crate::storage::field_block::narrowed(pending, start, end).last() == entry);
}

/// Insert visibility. After a row went into a series, a read whose bounds
/// cover the row's time, and that reads the field of one of the row's
/// values as its column `c`, returns a row with the row's time that holds
/// the value under that column. This is stated of the last value that the
/// row gives to each field, which is every value of a row that names no
/// field twice.
pub proof fn lemma_insert_visibility(
    state: SeriesState,
    names: Seq<Seq<char>>,
    values: Seq<DataValue>,
    time: i64,
    selections: Seq<Selection>,
    start: Option<i64>,
    end: Option<i64>,
    k: int,
    c: int,
)
    requires
        distinct_names(state.fields),
        names.len() == values.len(),
        0 <= k < names.len(),
        forall|j: int| k < j < names.len() ==> names[j] != names[k],
        in_range(time, start, end),
        ({
            let after = inserted_upto(state.fields, names, values, time, names.len() as int);
            0 <= c < selected_names(after, selections).len() && selected_names(
                after,
                selections,
            )[c] == names[k]
        }),
    ensures
        ({
            let after = SeriesState {
                name: state.name,
                fields: inserted_upto(state.fields, names, values, time, names.len() as int),
            };
            let read = selected_names(after.fields, selections);
            exists|r: int|
                row_holds(
                    after.rows(selections, start, end),
                    read.len(),
                    r,
                    c,
                    time,
                    values[k],
                )
        }),
{
    let fields = inserted_upto(state.fields, names, values, time, names.len() as int);
    let read = selected_names(fields, selections);
    let columns = columns_for(fields, read, start, end);
    let entry = FieldEntry { time, value: values[k] };
    lemma_column_ends_with_value(state, names, values, time, selections, start, end, k, c);
    lemma_merge_emits(columns, c, columns[c].len() - 1);
    let r = choose|r: int|
        row_holds(merge_spec(columns), columns.len(), r, c, entry.time, entry.value);
    let after = SeriesState { name: state.name, fields };
    assert(!inverted(start, end));
    assert(after.rows(selections, start, end) == merge_spec(columns));
    assert(row_holds(after.rows(selections, start, end), read.len(), r, c, time, values[k]));
}

/// The row holds the given time, and under every column that reads a field
/// of the inserted row the value that the row gave to that field.
pub open spec fn row_holds_all(
    rows: Seq<DataValue>,
    read: Seq<Seq<char>>,
    r: int,
    names: Seq<Seq<char>>,
    values: Seq<DataValue>,
    time: i64,
) -> bool {
    let width = read.len() + 1;
    &&& 0 <= r
    &&& r * width + width <= rows.len()
    &&& rows[r * width] == DataValue::Timestamp(time)
    &&& forall|c: int, k: int|
        #![trigger read[c], names[k]]
        0 <= c < read.len() && 0 <= k < names.len() && read[c] == names[k] ==> rows[r * width + 1
            + c] == values[k]
}

/// Insert visibility in one row. After a row that names no field twice went
/// into a series, a read whose bounds cover the row's time and that reads
/// at least one of the row's fields returns, where its columns are strictly
/// sorted by time, one row with the row's time that holds, under every
/// column that reads a field of the row, the value that the row gave to
/// that field.
pub proof fn lemma_insert_visible_in_one_row(
    state: SeriesState,
    names: Seq<Seq<char>>,
    values: Seq<DataValue>,
    time: i64,
    selections: Seq<Selection>,
    start: Option<i64>,
    end: Option<i64>,
    k0: int,
    c0: int,
)
    requires
        distinct_names(state.fields),
        names.len() == values.len(),
        forall|i: int, j: int| 0 <= i < j < names.len() ==> names[i] != names[j],
        in_range(time, start, end),
        0 <= k0 < names.len(),
        ({
            let after = inserted_upto(state.fields, names, values, time, names.len() as int);
            let read = selected_names(after, selections);
            let columns = columns_for(after, read, start, end);
            &&& 0 <= c0 < read.len() && read[c0] == names[k0]
            &&& forall|c: int| 0 <= c < columns.len() ==> strictly_sorted(#[trigger] columns[c])
        }),
    ensures
        ({
            let after = SeriesState {
                name: state.name,
                fields: inserted_upto(state.fields, names, values, time, names.len() as int),
            };
            let read = selected_names(after.fields, selections);
            exists|r: int|
                row_holds_all(after.rows(selections, start, end), read, r, names, values, time)
        }),
{
    let fields = inserted_upto(state.fields, names, values, time, names.len() as int);
    let after = SeriesState { name: state.name, fields };
    let read = selected_names(fields, selections);
    let columns = columns_for(fields, read, start, end);
    let rows = merge_spec(columns);
    let times = sweep(columns, at_start(columns.len()));
    let width = read.len() as int + 1;
    assert(!inverted(start, end));
    assert(after.rows(selections, start, end) == rows);
    lemma_merge_complete(columns);
    lemma_column_ends_with_value(state, names, values, time, selections, start, end, k0, c0);
    let first = columns[c0];
    lemma_value_from_unique(first, 0, first.len() - 1);
    assert(all_times(columns).contains(time as int)) by {
        assert(has_time(columns[c0], time as int));
    }
    assert(times.to_set().contains(time as int));
    assert(times.contains(time as int));
    let r = choose|r: int| 0 <= r < times.len() && times[r] == time as int;
    lemma_row_offset(r, times.len() as int, width);
    assert(rows[r * width] == DataValue::Timestamp(time));
    assert forall|c: int, k: int|
        #![trigger read[c], names[k]]
        0 <= c < read.len() && 0 <= k < names.len() && read[c] == names[k] implies rows[r * width
        + 1 + c] == values[k] by {
        lemma_column_ends_with_value(state, names, values, time, selections, start, end, k, c);
        let column = columns[c];
        lemma_value_from_unique(column, 0, column.len() - 1);
        assert(rows[r * width + 1 + c] == value_at(columns[c], times[r]));
    }
    assert(row_holds_all(rows, read, r, names, values, time));
}

/// Range inversion. A read whose later bound lies before its earlier one
/// returns no rows and asks for no block from disk.
pub proof fn lemma_range_inversion(
    state: SeriesState,
    selections: Seq<Selection>,
    start: Option<i64>,
    end: Option<i64>,
)
    requires
        inverted(start, end),
    ensures
        state.rows(selections, start, end).len() == 0,
        state.requests(selections, start, end).len() == 0,
{
}

} // verus!
