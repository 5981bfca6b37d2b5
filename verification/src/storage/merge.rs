//! The timestamp merge: what it means to fuse time-sorted columns into rows.

use vstd::prelude::*;

use crate::DataValue;
use crate::storage::field::FieldEntry;

verus! {

/// The time of the entry under a column's cursor; `None` once the column is
/// used up, which stands for a time later than any other.
pub open spec fn head_time(col: Seq<FieldEntry>, cursor: int) -> Option<int> {
    if 0 <= cursor < col.len() {
        Some(col[cursor].time as int)
    } else {
        None
    }
}

/// The least head time among the first `k` columns; `None` when all of them
/// are used up.
pub open spec fn earliest(cols: Seq<Seq<FieldEntry>>, cursors: Seq<int>, k: int) -> Option<int>
    decreases k,
{
    if k <= 0 {
        None
    } else {
        let before = earliest(cols, cursors, k - 1);
        match head_time(cols[k - 1], cursors[k - 1]) {
            None => before,
            Some(t) => match before {
                None => Some(t),
                Some(b) => if t < b {
                    Some(t)
                } else {
                    Some(b)
                },
            },
        }
    }
}

/// The values of the row at time `t`: a column whose head is at `t` gives its
/// value, every other column gives `Absent`.
pub open spec fn row_values(cols: Seq<Seq<FieldEntry>>, cursors: Seq<int>, t: int) -> Seq<
    DataValue,
> {
    Seq::new(
        cols.len(),
        |i: int|
            if head_time(cols[i], cursors[i]) == Some(t) {
                cols[i][cursors[i]].value
            } else {
                DataValue::Absent
            },
    )
}

/// The cursors after the row at time `t`: each column that gave a value moves on by one.
pub open spec fn advance(cols: Seq<Seq<FieldEntry>>, cursors: Seq<int>, t: int) -> Seq<int> {
    Seq::new(
        cols.len(),
        |i: int|
            if head_time(cols[i], cursors[i]) == Some(t) {
                cursors[i] + 1
            } else {
                cursors[i]
            },
    )
}

/// How many entries of the first `k` columns lie at or after the cursors.
pub open spec fn remaining(cols: Seq<Seq<FieldEntry>>, cursors: Seq<int>, k: int) -> nat
    decreases k,
{
    if k <= 0 {
        0
    } else {
        let here = if 0 <= cursors[k - 1] < cols[k - 1].len() {
            (cols[k - 1].len() - cursors[k - 1]) as nat
        } else {
            0
        };
        remaining(cols, cursors, k - 1) + here
    }
}

/// The least head time is the head time of one of the columns, and no head is earlier.
pub proof fn lemma_earliest_is_least_head(cols: Seq<Seq<FieldEntry>>, cursors: Seq<int>, k: int)
    requires
        0 <= k <= cols.len(),
    ensures
        earliest(cols, cursors, k) matches Some(t) ==> exists|i: int|
            0 <= i < k && head_time(cols[i], cursors[i]) == Some(t),
        forall|i: int|
            0 <= i < k ==> match (#[trigger] head_time(cols[i], cursors[i])) {
                Some(h) => earliest(cols, cursors, k) matches Some(t) && t <= h,
                None => true,
            },
    decreases k,
{
    if k > 0 {
        lemma_earliest_is_least_head(cols, cursors, k - 1);
        match earliest(cols, cursors, k) {
            Some(t) => {
                if head_time(cols[k - 1], cursors[k - 1]) == Some(t) {
                } else {
                    let i = choose|i: int|
                        0 <= i < k - 1 && head_time(cols[i], cursors[i]) == Some(t);
                    assert(0 <= i < k && head_time(cols[i], cursors[i]) == Some(t));
                }
            },
            None => {},
        }
    }
}

/// Emitting a row never brings entries back, and uses up one entry of every
/// column whose head is at the row's time.
pub proof fn lemma_advance_consumes(
    cols: Seq<Seq<FieldEntry>>,
    cursors: Seq<int>,
    t: int,
    k: int,
)
    requires
        0 <= k <= cols.len(),
    ensures
        remaining(cols, advance(cols, cursors, t), k) <= remaining(cols, cursors, k),
        (exists|i: int| 0 <= i < k && head_time(cols[i], cursors[i]) == Some(t)) ==> remaining(
            cols,
            advance(cols, cursors, t),
            k,
        ) < remaining(cols, cursors, k),
    decreases k,
{
    if k > 0 {
        lemma_advance_consumes(cols, cursors, t, k - 1);
        if exists|i: int| 0 <= i < k && head_time(cols[i], cursors[i]) == Some(t) {
            let i = choose|i: int| 0 <= i < k && head_time(cols[i], cursors[i]) == Some(t);
            if i < k - 1 {
                assert(0 <= i < k - 1 && head_time(cols[i], cursors[i]) == Some(t));
            }
        }
    }
}

/// The rows that remain to be emitted from the given cursors, row-major:
/// each row is its timestamp followed by one value per column.
pub open spec fn merge_from(cols: Seq<Seq<FieldEntry>>, cursors: Seq<int>) -> Seq<DataValue>
    decreases remaining(cols, cursors, cols.len() as int),
{
    match earliest(cols, cursors, cols.len() as int) {
        None => Seq::empty(),
        Some(t) => {
            proof {
                lemma_earliest_is_least_head(cols, cursors, cols.len() as int);
                lemma_advance_consumes(cols, cursors, t, cols.len() as int);
            }
            seq![DataValue::Timestamp(t as i64)] + row_values(cols, cursors, t) + merge_from(
                cols,
                advance(cols, cursors, t),
            )
        },
    }
}

/// Cursors at the start of every one of `k` columns.
pub open spec fn at_start(k: nat) -> Seq<int> {
    Seq::new(k, |i: int| 0int)
}

/// The merge of the columns: one row per step of the sweep that repeatedly
/// takes the least time among the columns' next entries.
pub open spec fn merge_spec(cols: Seq<Seq<FieldEntry>>) -> Seq<DataValue> {
    merge_from(cols, at_start(cols.len()))
}

/// The columns as sequences of entries.
pub open spec fn columns_of(entries: Seq<Vec<FieldEntry>>) -> Seq<Seq<FieldEntry>> {
    Seq::new(entries.len(), |i: int| entries[i]@)
}

/// No column holds an entry.
pub open spec fn all_empty(cols: Seq<Seq<FieldEntry>>) -> bool {
    forall|i: int| 0 <= i < cols.len() ==> (#[trigger] cols[i]).len() == 0
}

/// Columns without entries merge into no rows.
pub proof fn lemma_merge_of_nothing(cols: Seq<Seq<FieldEntry>>)
    requires
        all_empty(cols),
    ensures
        merge_spec(cols).len() == 0,
{
    lemma_earliest_is_least_head(cols, at_start(cols.len()), cols.len() as int);
    assert(earliest(cols, at_start(cols.len()), cols.len() as int) is None) by {
        if earliest(cols, at_start(cols.len()), cols.len() as int) is Some {
            let t = earliest(cols, at_start(cols.len()), cols.len() as int)->Some_0;
            let i = choose|i: int|
                0 <= i < cols.len() && head_time(cols[i], at_start(cols.len())[i]) == Some(t);
            assert(cols[i].len() == 0);
        }
    }
}

/// The times of the rows that remain to be emitted from the given cursors.
pub open spec fn sweep(cols: Seq<Seq<FieldEntry>>, cursors: Seq<int>) -> Seq<int>
    decreases remaining(cols, cursors, cols.len() as int),
{
    match earliest(cols, cursors, cols.len() as int) {
        None => Seq::empty(),
        Some(t) => {
            proof {
                lemma_earliest_is_least_head(cols, cursors, cols.len() as int);
                lemma_advance_consumes(cols, cursors, t, cols.len() as int);
            }
            seq![t] + sweep(cols, advance(cols, cursors, t))
        },
    }
}

/// The rows of a merge are whole: whatever the columns hold, the merge has
/// one timestamp and one value per column for each of its rows.
pub proof fn lemma_merge_rows_whole(cols: Seq<Seq<FieldEntry>>, cursors: Seq<int>)
    ensures
        merge_from(cols, cursors).len() == sweep(cols, cursors).len() * (cols.len() + 1),
        merge_from(cols, cursors).len() % (cols.len() + 1) == 0,
    decreases remaining(cols, cursors, cols.len() as int),
{
    let k = cols.len() as int;
    let width = k + 1;
    match earliest(cols, cursors, k) {
        None => {
            assert(0 * width == 0) by (nonlinear_arith);
        },
        Some(t) => {
            lemma_earliest_is_least_head(cols, cursors, k);
            lemma_advance_consumes(cols, cursors, t, k);
            let next = advance(cols, cursors, t);
            lemma_merge_rows_whole(cols, next);
            let rows = sweep(cols, next).len() as int;
            assert((rows + 1) * width == rows * width + width) by (nonlinear_arith);
        },
    }
    vstd::arithmetic::div_mod::lemma_mod_multiples_basic(
        sweep(cols, cursors).len() as int,
        width,
    );
}

/// The times of a column grow from each entry to the next.
pub open spec fn strictly_sorted(col: Seq<FieldEntry>) -> bool {
    forall|a: int, b: int| 0 <= a < b < col.len() ==> col[a].time < col[b].time
}

/// The column holds an entry at time `t` at or after position `from`.
pub open spec fn has_time_from(col: Seq<FieldEntry>, from: int, t: int) -> bool {
    exists|j: int| from <= j < col.len() && 0 <= j && col[j].time == t
}

/// The value of an entry of the column at time `t`, at or after position
/// `from`; `Absent` when there is none.
pub open spec fn value_from(col: Seq<FieldEntry>, from: int, t: int) -> DataValue {
    if has_time_from(col, from, t) {
        col[choose|j: int| from <= j < col.len() && 0 <= j && col[j].time == t].value
    } else {
        DataValue::Absent
    }
}

/// The column holds an entry at time `t`.
pub open spec fn has_time(col: Seq<FieldEntry>, t: int) -> bool {
    has_time_from(col, 0, t)
}

/// The column's value at time `t`; `Absent` when it holds no entry there.
pub open spec fn value_at(col: Seq<FieldEntry>, t: int) -> DataValue {
    value_from(col, 0, t)
}

/// The times at which at least one column holds an entry.
pub open spec fn all_times(cols: Seq<Seq<FieldEntry>>) -> Set<int> {
    Set::new(|t: int| exists|i: int| 0 <= i < cols.len() && has_time(cols[i], t))
}

/// The cursors lie within their columns.
pub open spec fn cursors_within(cols: Seq<Seq<FieldEntry>>, cursors: Seq<int>) -> bool {
    &&& cursors.len() == cols.len()
    &&& forall|i: int| 0 <= i < cols.len() ==> 0 <= #[trigger] cursors[i] <= cols[i].len()
}

/// What holds of the rows still to come, from any cursors, when every column
/// is strictly sorted.
pub open spec fn rows_complete_from(cols: Seq<Seq<FieldEntry>>, cursors: Seq<int>) -> bool {
    let rows = merge_from(cols, cursors);
    let times = sweep(cols, cursors);
    let width = cols.len() + 1;
    &&& rows.len() == times.len() * width
    &&& forall|a: int, b: int| 0 <= a < b < times.len() ==> times[a] < times[b]
    &&& forall|t: int|
        times.contains(t) <==> exists|i: int|
            0 <= i < cols.len() && has_time_from(cols[i], cursors[i], t)
    &&& forall|r: int|
        0 <= r < times.len() ==> #[trigger] rows[r * width] == DataValue::Timestamp(
            times[r] as i64,
        )
    &&& forall|r: int, i: int|
        0 <= r < times.len() && 0 <= i < cols.len() ==> #[trigger] rows[r * width + 1 + i]
            == value_from(cols[i], cursors[i], times[r])
}

/// Where row `r` of `n` rows of the given width starts and ends.
pub proof fn lemma_row_offset(r: int, n: int, width: int)
    requires
        0 <= r < n,
        width >= 1,
    ensures
        0 <= r * width,
        r * width + width <= n * width,
        (r + 1) * width == r * width + width,
{
    assert(0 <= r * width && r * width + width <= n * width && (r + 1) * width == r * width
        + width) by (nonlinear_arith)
        requires
            0 <= r < n,
            width >= 1,
    ;
}

/// In a strictly sorted column the value at the time of an entry is that entry's value.
pub proof fn lemma_value_from_unique(col: Seq<FieldEntry>, from: int, j: int)
    requires
        strictly_sorted(col),
        0 <= from <= j < col.len(),
    ensures
        has_time_from(col, from, col[j].time as int),
        value_from(col, from, col[j].time as int) == col[j].value,
{
    let t = col[j].time as int;
    assert(from <= j < col.len() && 0 <= j && col[j].time == t);
    let k = choose|k: int| from <= k < col.len() && 0 <= k && col[k].time == t;
    if k < j {
        assert(col[k].time < col[j].time);
    } else if j < k {
        assert(col[j].time < col[k].time);
    }
}

proof fn lemma_rows_complete_from(cols: Seq<Seq<FieldEntry>>, cursors: Seq<int>)
    requires
        forall|i: int| 0 <= i < cols.len() ==> strictly_sorted(#[trigger] cols[i]),
        cursors_within(cols, cursors),
    ensures
        rows_complete_from(cols, cursors),
    decreases remaining(cols, cursors, cols.len() as int),
{
    let k = cols.len() as int;
    let width = k + 1;
    lemma_earliest_is_least_head(cols, cursors, k);
    match earliest(cols, cursors, k) {
        None => {
            assert(merge_from(cols, cursors) =~= Seq::<DataValue>::empty());
            assert(sweep(cols, cursors) =~= Seq::<int>::empty());
            let none = sweep(cols, cursors);
            assert forall|t: int|
                none.contains(t) <==> exists|i: int|
                    0 <= i < cols.len() && has_time_from(cols[i], cursors[i], t) by {
                if exists|i: int| 0 <= i < cols.len() && has_time_from(cols[i], cursors[i], t) {
                    let i = choose|i: int|
                        0 <= i < cols.len() && has_time_from(cols[i], cursors[i], t);
                    assert(head_time(cols[i], cursors[i]) is None);
                    assert(false);
                }
            }
            assert(0 * width == 0) by (nonlinear_arith);
        },
        Some(t) => {
            let next = advance(cols, cursors, t);
            lemma_advance_consumes(cols, cursors, t, k);
            assert(cursors_within(cols, next)) by {
                assert forall|i: int| 0 <= i < cols.len() implies 0 <= #[trigger] next[i]
                    <= cols[i].len() by {
                    assert(0 <= cursors[i] <= cols[i].len());
                }
            }
            lemma_rows_complete_from(cols, next);
            let rows = merge_from(cols, cursors);
            let times = sweep(cols, cursors);
            let rest = merge_from(cols, next);
            let later = sweep(cols, next);
            let first = seq![DataValue::Timestamp(t as i64)] + row_values(cols, cursors, t);
            assert(rows == first + rest);
            assert(times == seq![t] + later);
            assert(first.len() == width);
            assert(rows.len() == times.len() * width) by {
                assert((later.len() + 1) * width == later.len() * width + width)
                    by (nonlinear_arith);
            }
            // every entry that is still ahead after the row lies later than `t`
            assert forall|i: int, j: int|
                0 <= i < cols.len() && next[i] <= j < cols[i].len() implies t < (
                #[trigger] cols[i][j]).time by {
                assert(0 <= cursors[i] <= cols[i].len());
                if head_time(cols[i], cursors[i]) == Some(t) {
                    assert(cols[i][cursors[i]].time < cols[i][j].time);
                } else {
                    assert(head_time(cols[i], cursors[i]) is Some);
                    if cursors[i] < j {
                        assert(cols[i][cursors[i]].time < cols[i][j].time);
                    }
                }
            }
            assert forall|x: int| #[trigger]
                later.contains(x) implies t < x by {
                let i = choose|i: int| 0 <= i < cols.len() && has_time_from(cols[i], next[i], x);
                let j = choose|j: int| next[i] <= j < cols[i].len() && 0 <= j && cols[i][j].time == x;
                assert(t < cols[i][j].time);
            }
            assert forall|a: int, b: int| 0 <= a < b < times.len() implies times[a] < times[b] by {
                assert(later.contains(later[b - 1]));
                if a > 0 {
                    assert(later[a - 1] < later[b - 1]);
                }
            }
            assert forall|x: int|
                times.contains(x) <==> exists|i: int|
                    0 <= i < cols.len() && has_time_from(cols[i], cursors[i], x) by {
                if times.contains(x) {
                    let r = choose|r: int| 0 <= r < times.len() && times[r] == x;
                    if r == 0 {
                        let i = choose|i: int|
                            0 <= i < k && head_time(cols[i], cursors[i]) == Some(t);
                        assert(cursors[i] <= cursors[i] < cols[i].len() && 0 <= cursors[i]
                            && cols[i][cursors[i]].time == t);
                        assert(has_time_from(cols[i], cursors[i], x));
                    } else {
                        assert(later[r - 1] == x);
                        assert(later.contains(x));
                        let i = choose|i: int|
                            0 <= i < cols.len() && has_time_from(cols[i], next[i], x);
                        let j = choose|j: int|
                            next[i] <= j < cols[i].len() && 0 <= j && cols[i][j].time == x;
                        assert(cursors[i] <= j < cols[i].len() && 0 <= j && cols[i][j].time == x);
                        assert(has_time_from(cols[i], cursors[i], x));
                    }
                }
                if exists|i: int| 0 <= i < cols.len() && has_time_from(cols[i], cursors[i], x) {
                    let i = choose|i: int|
                        0 <= i < cols.len() && has_time_from(cols[i], cursors[i], x);
                    let j = choose|j: int|
                        cursors[i] <= j < cols[i].len() && 0 <= j && cols[i][j].time == x;
                    if x == t {
                        assert(times[0] == x);
                    } else {
                        assert(next[i] <= j) by {
                            if head_time(cols[i], cursors[i]) == Some(t) {
                                assert(j != cursors[i]);
                            }
                        }
                        assert(next[i] <= j < cols[i].len() && 0 <= j && cols[i][j].time == x);
                        assert(has_time_from(cols[i], next[i], x));
                        assert(later.contains(x));
                        let r = choose|r: int| 0 <= r < later.len() && later[r] == x;
                        assert(times[r + 1] == x);
                    }
                }
            }
            assert forall|r: int| 0 <= r < times.len() implies #[trigger] rows[r * width]
                == DataValue::Timestamp(times[r] as i64) by {
                if r == 0 {
                    assert(0 * width == 0) by (nonlinear_arith);
                } else {
                    lemma_row_offset(r - 1, later.len() as int, width);
                    assert(rows[r * width] == rest[(r - 1) * width]);
                }
            }
            assert forall|r: int, i: int|
                0 <= r < times.len() && 0 <= i < cols.len() implies #[trigger] rows[r * width + 1
                    + i] == value_from(cols[i], cursors[i], times[r]) by {
                assert(0 <= cursors[i] <= cols[i].len());
                if r == 0 {
                    assert(0 * width == 0) by (nonlinear_arith);
                    assert(rows[1 + i] == row_values(cols, cursors, t)[i]);
                    if head_time(cols[i], cursors[i]) == Some(t) {
                        lemma_value_from_unique(cols[i], cursors[i], cursors[i]);
                    } else {
                        if has_time_from(cols[i], cursors[i], t) {
                            let j = choose|j: int|
                                cursors[i] <= j < cols[i].len() && 0 <= j && cols[i][j].time == t;
                            assert(next[i] <= j < cols[i].len());
                            assert(t < cols[i][j].time);
                        }
                    }
                } else {
                    lemma_row_offset(r - 1, later.len() as int, width);
                    assert(rows[r * width + 1 + i] == rest[(r - 1) * width + 1 + i]);
                    let x = later[r - 1];
                    assert(later.contains(x));
                    assert(t < x);
                    if has_time_from(cols[i], next[i], x) {
                        let j = choose|j: int|
                            next[i] <= j < cols[i].len() && 0 <= j && cols[i][j].time == x;
                        lemma_value_from_unique(cols[i], next[i], j);
                        lemma_value_from_unique(cols[i], cursors[i], j);
                    } else {
                        if has_time_from(cols[i], cursors[i], x) {
                            let j = choose|j: int|
                                cursors[i] <= j < cols[i].len() && 0 <= j && cols[i][j].time == x;
                            assert(next[i] <= j) by {
                                if head_time(cols[i], cursors[i]) == Some(t) {
                                    assert(j != cursors[i]);
                                }
                            }
                            assert(next[i] <= j < cols[i].len() && 0 <= j && cols[i][j].time
                                == x);
                        }
                    }
                }
            }
        },
    }
}

/// Merge completeness. When every column is strictly sorted by time, the
/// merge has exactly one row for each time at which some column holds an
/// entry, the rows come in growing time, and a row holds under each column
/// that column's value at the row's time, or `Absent` where it has none.
pub proof fn lemma_merge_complete(cols: Seq<Seq<FieldEntry>>)
    requires
        forall|i: int| 0 <= i < cols.len() ==> strictly_sorted(#[trigger] cols[i]),
    ensures
        ({
            let rows = merge_spec(cols);
            let times = sweep(cols, at_start(cols.len()));
            let width = cols.len() + 1;
            &&& rows.len() == times.len() * width
            &&& all_times(cols).finite()
            &&& times.len() == all_times(cols).len()
            &&& times.to_set() == all_times(cols)
            &&& forall|a: int, b: int| 0 <= a < b < times.len() ==> times[a] < times[b]
            &&& forall|r: int|
                0 <= r < times.len() ==> #[trigger] rows[r * width] == DataValue::Timestamp(
                    times[r] as i64,
                )
            &&& forall|r: int, i: int|
                0 <= r < times.len() && 0 <= i < cols.len() ==> #[trigger] rows[r * width + 1 + i]
                    == value_at(cols[i], times[r])
        }),
{
    let start = at_start(cols.len());
    lemma_rows_complete_from(cols, start);
    let times = sweep(cols, start);
    assert(times.to_set() =~= all_times(cols)) by {
        assert forall|t: int| times.to_set().contains(t) <==> all_times(cols).contains(t) by {
            assert(times.to_set().contains(t) <==> times.contains(t));
        }
    }
    assert(times.no_duplicates()) by {
        assert forall|a: int, b: int|
            0 <= a < times.len() && 0 <= b < times.len() && a != b implies times[a] != times[b] by {
            if a < b {
                assert(times[a] < times[b]);
            } else {
                assert(times[b] < times[a]);
            }
        }
    }
    times.unique_seq_to_set();
    vstd::seq_lib::seq_to_set_is_finite(times);
}

/// Row `r` of the rows holds the given time, and the given value under column `c`.
pub open spec fn row_holds(
    rows: Seq<DataValue>,
    columns: nat,
    r: int,
    c: int,
    time: i64,
    value: DataValue,
) -> bool {
    let width = columns + 1;
    &&& 0 <= r
    &&& r * width + width <= rows.len()
    &&& rows[r * width] == DataValue::Timestamp(time)
    &&& rows[r * width + 1 + c] == value
}

proof fn lemma_emits_from(cols: Seq<Seq<FieldEntry>>, cursors: Seq<int>, c: int, j: int)
    requires
        cursors_within(cols, cursors),
        0 <= c < cols.len(),
        cursors[c] <= j < cols[c].len(),
    ensures
        exists|r: int|
            row_holds(
                merge_from(cols, cursors),
                cols.len(),
                r,
                c,
                cols[c][j].time,
                cols[c][j].value,
            ),
    decreases remaining(cols, cursors, cols.len() as int),
{
    let k = cols.len() as int;
    let width = k + 1;
    let rows = merge_from(cols, cursors);
    lemma_earliest_is_least_head(cols, cursors, k);
    assert(head_time(cols[c], cursors[c]) is Some);
    let t = earliest(cols, cursors, k)->Some_0;
    let next = advance(cols, cursors, t);
    let first = seq![DataValue::Timestamp(t as i64)] + row_values(cols, cursors, t);
    let rest = merge_from(cols, next);
    assert(rows == first + rest);
    assert(first.len() == width);
    if head_time(cols[c], cursors[c]) == Some(t) && cursors[c] == j {
        assert(0 * width == 0) by (nonlinear_arith);
        assert(rows[1 + c] == row_values(cols, cursors, t)[c]);
        assert(row_holds(rows, cols.len(), 0, c, cols[c][j].time, cols[c][j].value));
    } else {
        lemma_advance_consumes(cols, cursors, t, k);
        assert(cursors_within(cols, next)) by {
            assert forall|i: int| 0 <= i < cols.len() implies 0 <= #[trigger] next[i]
                <= cols[i].len() by {
                assert(0 <= cursors[i] <= cols[i].len());
            }
        }
        lemma_emits_from(cols, next, c, j);
        let r = choose|r: int|
            row_holds(rest, cols.len(), r, c, cols[c][j].time, cols[c][j].value);
        assert((r + 1) * width == r * width + width) by (nonlinear_arith);
        assert(0 <= r * width) by (nonlinear_arith)
            requires
                0 <= r,
                0 <= width,
        ;
        assert(rows[(r + 1) * width] == rest[r * width]);
        assert(rows[(r + 1) * width + 1 + c] == rest[r * width + 1 + c]);
        assert(row_holds(rows, cols.len(), r + 1, c, cols[c][j].time, cols[c][j].value));
    }
}

/// The merge loses nothing. Whatever the order of the columns' entries,
/// every entry of every column stands in a row of the merge: a row with the
/// entry's time that holds the entry's value under the entry's column.
pub proof fn lemma_merge_emits(cols: Seq<Seq<FieldEntry>>, c: int, j: int)
    requires
        0 <= c < cols.len(),
        0 <= j < cols[c].len(),
    ensures
        exists|r: int|
            row_holds(merge_spec(cols), cols.len(), r, c, cols[c][j].time, cols[c][j].value),
{
    let start = at_start(cols.len());
    lemma_emits_from(cols, start, c, j);
    let r = choose|r: int|
        row_holds(merge_from(cols, start), cols.len(), r, c, cols[c][j].time, cols[c][j].value);
    assert(row_holds(merge_spec(cols), cols.len(), r, c, cols[c][j].time, cols[c][j].value));
}

} // verus!
