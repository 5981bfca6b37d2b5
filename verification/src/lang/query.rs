//! The SELECT statement.

use vstd::prelude::*;
use vstd::string::StringSliceAdditionalSpecFns;

use crate::encoding::ascii_text;
use crate::lang::{
    Aggregation, ParseFailure, SelectExpression, Selection, SelectionModel, SelectModel,
    SelectQuery,
};
use crate::lang::util::{
    advance_whitespace, has_prefix, ident_at, ident_end, lemma_ident_end_bounds,
    lemma_skip_whitespace_bounds, lower_in_place, lower_text, lowered, parse_ascii,
    parse_identifier, parse_timestamp_at, skip_whitespace, timestamp_at,
};
use crate::util::new_timestamp;

verus! {

/// The aggregator whose name and opening bracket stand at `i`, and where they end.
pub open spec fn aggregator_at(s: Seq<u8>, i: int) -> Option<(Aggregation, int)> {
    if has_prefix(s, i, "last(".spec_bytes()) {
        Some((Aggregation::Last, i + "last(".spec_bytes().len()))
    } else if has_prefix(s, i, "mean(".spec_bytes()) {
        Some((Aggregation::Mean, i + "mean(".spec_bytes().len()))
    } else if has_prefix(s, i, "max(".spec_bytes()) {
        Some((Aggregation::Max, i + "max(".spec_bytes().len()))
    } else if has_prefix(s, i, "min(".spec_bytes()) {
        Some((Aggregation::Min, i + "min(".spec_bytes().len()))
    } else if has_prefix(s, i, "first(".spec_bytes()) {
        Some((Aggregation::First, i + "first(".spec_bytes().len()))
    } else {
        None
    }
}

/// The term at `i` and where it ends, or the position at which it goes wrong:
/// a field, or an aggregator, `(`, a field and `)`.
pub open spec fn selection_at(s: Seq<u8>, i: int) -> Result<(SelectionModel, int), int> {
    match aggregator_at(s, i) {
        Some((aggregator, j)) => {
            if ident_at(s, j) {
                let e = ident_end(s, j);
                if 0 <= e < s.len() && s[e] == 0x29 {
                    Ok(
                        (
                            SelectionModel {
                                aggregator: Some(aggregator),
                                field: ascii_text(s.subrange(j, e)),
                            },
                            e + 1,
                        ),
                    )
                } else {
                    Err(e)
                }
            } else {
                Err(j)
            }
        },
        None => {
            if ident_at(s, i) {
                Ok(
                    (
                        SelectionModel {
                            aggregator: None,
                            field: ascii_text(s.subrange(i, ident_end(s, i))),
                        },
                        ident_end(s, i),
                    ),
                )
            } else {
                Err(i)
            }
        },
    }
}

/// A term that parses ends after where it starts, within the statement.
pub proof fn lemma_selection_at_advances(s: Seq<u8>, i: int)
    requires
        0 <= i <= s.len(),
    ensures
        selection_at(s, i) matches Ok((_, e)) ==> i < e <= s.len(),
{
    match aggregator_at(s, i) {
        Some((_, j)) => {
            lemma_ident_end_bounds(s, j);
        },
        None => {
            lemma_ident_end_bounds(s, i);
        },
    }
}

/// The terms of a bracketed list from `i`, which lies inside the brackets, up
/// to the closing `]`, and the position after it; or the position at which
/// the list goes wrong. Whitespace and commas separate the terms.
pub open spec fn selections_from(s: Seq<u8>, i: int) -> Result<(Seq<SelectionModel>, int), int>
    decreases s.len() - i,
{
    let j = skip_whitespace(s, i);
    if !(0 <= i <= j < s.len()) {
        Err(j)
    } else if s[j] == 0x2c {
        selections_from(s, j + 1)
    } else if s[j] == 0x5d {
        Ok((Seq::empty(), j + 1))
    } else {
        match selection_at(s, j) {
            Err(p) => Err(p),
            Ok((model, k)) => {
                proof {
                    lemma_selection_at_advances(s, j);
                }
                match selections_from(s, k) {
                    Err(p) => Err(p),
                    Ok((rest, e)) => Ok((seq![model] + rest, e)),
                }
            },
        }
    }
}

/// The terms already read, put before the outcome of reading the rest.
pub open spec fn after_terms(
    read: Seq<SelectionModel>,
    rest: Result<(Seq<SelectionModel>, int), int>,
) -> Result<(Seq<SelectionModel>, int), int> {
    match rest {
        Ok((more, e)) => Ok((read + more, e)),
        Err(p) => Err(p),
    }
}

/// The optional bracketed list at `i`: its terms and the position after it.
pub open spec fn fields_at(s: Seq<u8>, i: int) -> Result<(Seq<SelectionModel>, int), int> {
    if 0 <= i < s.len() && s[i] == 0x5b {
        selections_from(s, i + 1)
    } else {
        Ok((Seq::empty(), i))
    }
}

/// The bound that the keyword `word` introduces at `i`, if the keyword
/// stands there, and the position after the clause; or the position of a
/// timestamp that does not parse.
pub open spec fn bound_at(s: Seq<u8>, i: int, word: Seq<u8>, now: i64) -> Result<
    (Option<i64>, int),
    int,
> {
    if has_prefix(s, i, word) {
        let at = skip_whitespace(s, i + word.len());
        let (time, end) = timestamp_at(s, at, now);
        if time is Some {
            Ok((time, end))
        } else {
            Err(at)
        }
    } else {
        Ok((None, i))
    }
}

/// The time range at `i`: the bounds after `after` and `before`, each
/// optional, and the position after them.
pub open spec fn time_range_at(s: Seq<u8>, i: int, now: i64) -> Result<
    (Option<i64>, Option<i64>, int),
    int,
> {
    match bound_at(s, i, "after".spec_bytes(), now) {
        Err(p) => Err(p),
        Ok((start, j)) => match bound_at(s, skip_whitespace(s, j), "before".spec_bytes(), now) {
            Err(p) => Err(p),
            Ok((end, k)) => Ok((start, end, k)),
        },
    }
}

/// What the lower-case statement `s` asks for, with `now` for the clock's
/// value, or the position at which it goes wrong: `select`, the series, an
/// optional bracketed list of terms, an optional time range, and nothing else.
pub open spec fn select_at(s: Seq<u8>, now: i64) -> Result<SelectModel, int> {
    if !has_prefix(s, 0, "select".spec_bytes()) {
        Err(0)
    } else {
        let a = skip_whitespace(s, "select".spec_bytes().len() as int);
        if !ident_at(s, a) {
            Err(a)
        } else {
            let b = ident_end(s, a);
            match fields_at(s, skip_whitespace(s, b)) {
                Err(p) => Err(p),
                Ok((selections, d)) => match time_range_at(s, skip_whitespace(s, d), now) {
                    Err(p) => Err(p),
                    Ok((start, end, f)) => {
                        let g = skip_whitespace(s, f);
                        if g == s.len() {
                            Ok(
                                SelectModel {
                                    series: ascii_text(s.subrange(a, b)),
                                    selections,
                                    start,
                                    end,
                                },
                            )
                        } else {
                            Err(g)
                        }
                    },
                },
            }
        }
    }
}

/// The models of the selections.
pub open spec fn models_of(selections: Seq<Selection>, models: Seq<SelectionModel>) -> bool {
    &&& selections.len() == models.len()
    &&& forall|i: int|
        0 <= i < selections.len() ==> (#[trigger] selections[i]).matches_model(models[i])
}

/// Reads one term at `index`: a field, or an aggregator (`last`, `mean`,
/// `max`, `min`, `first`) round a field. On success moves `index` past it;
/// otherwise leaves `index` alone and says where the term goes wrong.
pub fn parse_field_selection(s: &[u8], index: &mut usize) -> (r: Result<Selection, ParseFailure>)
    ensures
        match selection_at(s@, *old(index) as int) {
            Ok((model, end)) => r is Ok && r->Ok_0.matches_model(model) && *final(index) == end,
            Err(p) => r == Err::<Selection, ParseFailure>(ParseFailure { position: p as usize })
                && 0 <= p <= usize::MAX && *final(index) == *old(index),
        },
{
    let start = *index;
    let mut at = start;
    let aggregator = if parse_ascii("last(", s, &mut at) {
        Some(Aggregation::Last)
    } else if parse_ascii("mean(", s, &mut at) {
        Some(Aggregation::Mean)
    } else if parse_ascii("max(", s, &mut at) {
        Some(Aggregation::Max)
    } else if parse_ascii("min(", s, &mut at) {
        Some(Aggregation::Min)
    } else if parse_ascii("first(", s, &mut at) {
        Some(Aggregation::First)
    } else {
        None
    };
    let ghost name_start = at as int;
    proof {
        lemma_ident_end_bounds(s@, name_start);
    }
    let (ok, name) = parse_identifier(s, &mut at);
    if !ok {
        return Err(ParseFailure { position: at });
    }
    match aggregator {
        Some(aggregator) => {
            if at < s.len() && s[at] == 0x29 {
                *index = at + 1;
                Ok(
                    Selection::Expression(
                        Box::new(SelectExpression { expression: Selection::Field(name), aggregator }),
                    ),
                )
            } else {
                Err(ParseFailure { position: at })
            }
        },
        None => {
            *index = at;
            Ok(Selection::Field(name))
        },
    }
}

/// Reads an optional bracketed list of terms at `index` and appends the terms
/// to `fields`. On success moves `index` past the closing bracket; otherwise
/// leaves `index` and `fields` alone and says where the list goes wrong.
pub fn parse_fields(s: &[u8], index: &mut usize, fields: &mut Vec<Selection>) -> (r: Result<
    (),
    ParseFailure,
>)
    ensures
        match fields_at(s@, *old(index) as int) {
            Ok((models, end)) => {
                &&& r is Ok
                &&& *final(index) == end
                &&& final(fields)@.len() == old(fields)@.len() + models.len()
                &&& final(fields)@.take(old(fields)@.len() as int) == old(fields)@
                &&& models_of(final(fields)@.skip(old(fields)@.len() as int), models)
            },
            Err(p) => r == Err::<(), ParseFailure>(ParseFailure { position: p as usize }) && 0 <= p
                <= usize::MAX && *final(index) == *old(index) && final(fields)@ == old(fields)@,
        },
{
    let start = *index;
    if !(start < s.len() && s[start] == 0x5b) {
        assert(fields@.take(fields@.len() as int) =~= fields@);
        return Ok(());
    }
    let mut parsed: Vec<Selection> = Vec::new();
    let ghost mut models: Seq<SelectionModel> = Seq::empty();
    let mut i = start + 1;
    assert(after_terms(models, selections_from(s@, i as int)) == selections_from(s@, i as int)) by {
        match selections_from(s@, i as int) {
            Ok((more, e)) => {
                assert(models + more =~= more);
            },
            Err(_) => {},
        }
    }
    loop
        invariant_except_break
            start < i <= s@.len(),
            selections_from(s@, start + 1) == after_terms(models, selections_from(s@, i as int)),
        invariant
            start == *old(index),
            start < s@.len(),
            s@[start as int] == 0x5b,
            models_of(parsed@, models),
            *index == start,
            *fields == *old(fields),
        ensures
            start < i <= s@.len(),
            selections_from(s@, start + 1) == Ok::<(Seq<SelectionModel>, int), int>(
                (models, i as int),
            ),
        decreases s@.len() - i,
    {
        let ghost from = i as int;
        proof {
            lemma_skip_whitespace_bounds(s@, from);
        }
        advance_whitespace(s, &mut i);
        if i >= s.len() {
            return Err(ParseFailure { position: i });
        }
        if s[i] == 0x2c {
            i += 1;
        } else if s[i] == 0x5d {
            i += 1;
            assert(models + Seq::<SelectionModel>::empty() =~= models);
            break;
        } else {
            proof {
                lemma_selection_at_advances(s@, i as int);
            }
            let ghost at = i as int;
            match parse_field_selection(s, &mut i) {
                Err(failure) => {
                    return Err(failure);
                },
                Ok(selection) => {
                    proof {
                        let model = selection_at(s@, at)->Ok_0.0;
                        let grown = models.push(model);
                        assert(models_of(parsed@.push(selection), grown));
                        assert(after_terms(grown, selections_from(s@, i as int)) == after_terms(
                            models,
                            selections_from(s@, from),
                        )) by {
                            match selections_from(s@, i as int) {
                                Ok((more, e)) => {
                                    assert(grown + more =~= models + (seq![model] + more));
                                },
                                Err(_) => {},
                            }
                        }
                        models = grown;
                    }
                    parsed.push(selection);
                },
            }
        }
    }
    let ghost before = fields@;
    let ghost added = parsed@;
    fields.append(&mut parsed);
    assert(fields@.take(before.len() as int) =~= before);
    assert(fields@.skip(before.len() as int) =~= added);
    *index = i;
    Ok(())
}

/// Reads the clause that the keyword `word` introduces at `index`, if the
/// keyword stands there: the keyword, whitespace and a timestamp.
fn parse_bound(word: &str, s: &[u8], index: &mut usize, now: i64) -> (r: Result<
    Option<i64>,
    ParseFailure,
>)
    ensures
        match bound_at(s@, *old(index) as int, word.spec_bytes(), now) {
            Ok((time, end)) => r == Ok::<Option<i64>, ParseFailure>(time) && *final(index) == end,
            Err(p) => r == Err::<Option<i64>, ParseFailure>(ParseFailure { position: p as usize })
                && 0 <= p <= usize::MAX && *final(index) == *old(index),
        },
{
    let mut at = *index;
    if !parse_ascii(word, s, &mut at) {
        return Ok(None);
    }
    advance_whitespace(s, &mut at);
    match parse_timestamp_at(s, &mut at, now) {
        Some(time) => {
            *index = at;
            Ok(Some(time))
        },
        None => Err(ParseFailure { position: at }),
    }
}

/// Reads a time range at `index`, with `now` for the clock's value: `after`
/// and a timestamp, `before` and a timestamp, each optional. A bound that is
/// given replaces the query's; one that is not leaves the query's alone. On
/// failure nothing changes.
pub fn parse_time_range_at(s: &[u8], index: &mut usize, query: &mut SelectQuery, now: i64) -> (r:
    Result<(), ParseFailure>)
    ensures
        final(query).series == old(query).series,
        final(query).selections == old(query).selections,
        match time_range_at(s@, *old(index) as int, now) {
            Ok((start, end, e)) => {
                &&& r is Ok
                &&& *final(index) == e
                &&& final(query).start == if start is Some {
                    start
                } else {
                    old(query).start
                }
                &&& final(query).end == if end is Some {
                    end
                } else {
                    old(query).end
                }
            },
            Err(p) => {
                &&& r == Err::<(), ParseFailure>(ParseFailure { position: p as usize })
                &&& 0 <= p <= usize::MAX
                &&& *final(index) == *old(index)
                &&& final(query).start == old(query).start
                &&& final(query).end == old(query).end
            },
        },
{
    let mut at = *index;
    let start = match parse_bound("after", s, &mut at, now) {
        Ok(time) => time,
        Err(failure) => {
            return Err(failure);
        },
    };
    advance_whitespace(s, &mut at);
    let end = match parse_bound("before", s, &mut at, now) {
        Ok(time) => time,
        Err(failure) => {
            return Err(failure);
        },
    };
    if start.is_some() {
        query.start = start;
    }
    if end.is_some() {
        query.end = end;
    }
    *index = at;
    Ok(())
}

/// Reads a time range at `index` as `parse_time_range_at` does, asking the
/// system clock for the value of `now()`.
pub fn parse_time_range(s: &[u8], index: &mut usize, query: &mut SelectQuery) -> (r: Result<
    (),
    ParseFailure,
>)
    ensures
        final(query).series == old(query).series,
        final(query).selections == old(query).selections,
        exists|now: i64|
            match #[trigger] time_range_at(s@, *old(index) as int, now) {
                Ok((start, end, e)) => {
                    &&& r is Ok
                    &&& *final(index) == e
                    &&& final(query).start == if start is Some {
                        start
                    } else {
                        old(query).start
                    }
                    &&& final(query).end == if end is Some {
                        end
                    } else {
                        old(query).end
                    }
                },
                Err(p) => {
                    &&& r == Err::<(), ParseFailure>(ParseFailure { position: p as usize })
                    &&& *final(index) == *old(index)
                    &&& final(query).start == old(query).start
                    &&& final(query).end == old(query).end
                },
            },
{
    let now = new_timestamp();
    let r = parse_time_range_at(s, index, query, now);
    assert(match time_range_at(s@, *old(index) as int, now) {
        Ok((start, end, e)) => r is Ok,
        Err(p) => r is Err,
    });
    r
}

/// Reads a SELECT statement from its bytes in lower case, with `now` for
/// the clock's value. The statement is `select`, the series, an optional
/// bracketed list of terms, an optional time range, and nothing else; a
/// statement of another shape is refused with the position, in bytes, at
/// which it goes wrong.
pub fn read_select(input: &[u8], now: i64) -> (r: Result<SelectQuery, ParseFailure>)
    ensures
        match select_at(input@, now) {
            Ok(model) => r is Ok && r->Ok_0.matches_model(model),
            Err(p) => r == Err::<SelectQuery, ParseFailure>(ParseFailure { position: p as usize }),
        },
{
    let mut index: usize = 0;
    if !parse_ascii("select", input, &mut index) {
        return Err(ParseFailure { position: 0 });
    }
    advance_whitespace(input, &mut index);
    let (ok, series) = parse_identifier(input, &mut index);
    if !ok {
        return Err(ParseFailure { position: index });
    }
    let mut query = SelectQuery { series, selections: Vec::new(), start: None, end: None };
    advance_whitespace(input, &mut index);
    match parse_fields(input, &mut index, &mut query.selections) {
        Ok(()) => {},
        Err(failure) => {
            return Err(failure);
        },
    }
    assert(query.selections@.skip(0) =~= query.selections@);
    advance_whitespace(input, &mut index);
    match parse_time_range_at(input, &mut index, &mut query, now) {
        Ok(()) => {},
        Err(failure) => {
            return Err(failure);
        },
    }
    advance_whitespace(input, &mut index);
    if index != input.len() {
        return Err(ParseFailure { position: index });
    }
    Ok(query)
}

/// Parses a SELECT statement, with `now` for the clock's value. The
/// statement is first put into lower case, in place, so that letters count
/// without regard to case and the names that come back are in lower case;
/// then it is read as `read_select` reads it.
pub fn parse_select_at(raw_query: &mut String, now: i64) -> (r: Result<SelectQuery, ParseFailure>)
    ensures
        final(raw_query)@ == lower_text(old(raw_query)@),
        match select_at(lowered(old(raw_query)@), now) {
            Ok(model) => r is Ok && r->Ok_0.matches_model(model),
            Err(p) => r == Err::<SelectQuery, ParseFailure>(ParseFailure { position: p as usize }),
        },
{
    lower_in_place(raw_query);
    read_select(raw_query.as_str().as_bytes(), now)
}

/// Parses a SELECT statement as `parse_select_at` does, asking the system
/// clock for the value of `now()`.
pub fn parse_select(raw_query: &mut String) -> (r: Result<SelectQuery, ParseFailure>)
    ensures
        final(raw_query)@ == lower_text(old(raw_query)@),
        exists|now: i64|
            match #[trigger] select_at(lowered(old(raw_query)@), now) {
                Ok(model) => r is Ok && r->Ok_0.matches_model(model),
                Err(p) => r == Err::<SelectQuery, ParseFailure>(
                    ParseFailure { position: p as usize },
                ),
            },
{
    let now = new_timestamp();
    let r = parse_select_at(raw_query, now);
    assert(match select_at(lowered(old(raw_query)@), now) {
        Ok(model) => r is Ok,
        Err(p) => r is Err,
    });
    r
}

} // verus!
