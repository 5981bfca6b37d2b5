//! The INSERT statement.

use vstd::prelude::*;
use vstd::string::StringSliceAdditionalSpecFns;

use crate::DataValue;
use crate::encoding::ascii_text;
use crate::lang::ParseFailure;
use crate::lang::util::{
    advance_whitespace, has_prefix, ident_at, ident_end, lemma_ident_end_bounds,
    lemma_skip_whitespace_bounds, lower_in_place, lower_text, lowered, parse_ascii,
    parse_identifier, parse_timestamp_at, skip_whitespace, timestamp_at,
};
use crate::storage::series::{texts, SeriesEntry};
use crate::util::new_timestamp;

verus! {

/// A row to insert into a series.
#[derive(Debug, PartialEq)]
pub struct Insertion {
    pub series: String,
    pub entry: SeriesEntry,
}

/// What the parser says of an INSERT statement: the series, the fields with
/// their values, and the time.
pub struct InsertModel {
    pub series: Seq<char>,
    pub fields: Seq<Seq<char>>,
    pub values: Seq<DataValue>,
    pub time: i64,
}

impl Insertion {
    /// The insertion is the one that the model describes.
    pub open spec fn matches_model(&self, model: InsertModel) -> bool {
        &&& self.series@ == model.series
        &&& texts(self.entry.fields@) == model.fields
        &&& self.entry.values@ == model.values
        &&& self.entry.time == model.time
    }
}

/// What `fast_float::parse_partial` makes of a text: the bits of the 64-bit
/// float that the longest decimal number at the start of the text reads as,
/// and the number of bytes of that number; nothing where the text starts
/// with no number.
pub uninterp spec fn float_prefix(text: Seq<u8>) -> Option<(u64, usize)>;

/// `fast_float::parse_partial` for 64-bit floats: the float that the longest
/// decimal number at the start of the text reads as, and the number of
/// bytes of that number, which is positive and within the text. The float is
/// handed on as its bits, which `byteorder::BigEndian::write_f64` followed
/// by `read_u64` gives.
#[verifier::external_body]
fn parse_float_prefix(text: &[u8]) -> (r: Option<(u64, usize)>)
    ensures
        r == float_prefix(text@),
        r matches Some(found) ==> 0 < found.1 <= text@.len(),
{
    match fast_float::parse_partial(text) {
        Ok((value, read)) => {
            let mut bits = [0u8; 8];
            <byteorder::BigEndian as byteorder::ByteOrder>::write_f64(&mut bits, value);
            Some((<byteorder::BigEndian as byteorder::ByteOrder>::read_u64(&bits), read))
        },
        Err(_) => None,
    }
}

/// The value that a number at the start of the text gives, and where it
/// ends, for each outcome of reading the number.
pub open spec fn number_value(i: int, read: Option<(u64, usize)>) -> Option<(DataValue, int)> {
    match read {
        Some((bits, n)) => Some((DataValue::Float(bits), i + n)),
        None => None,
    }
}

/// The value at `i` and where it ends: `true`, `false`, or a decimal number.
pub open spec fn value_at(s: Seq<u8>, i: int) -> Option<(DataValue, int)> {
    if has_prefix(s, i, "true".spec_bytes()) {
        Some((DataValue::Bool(true), i + "true".spec_bytes().len()))
    } else if has_prefix(s, i, "false".spec_bytes()) {
        Some((DataValue::Bool(false), i + "false".spec_bytes().len()))
    } else if 0 <= i <= s.len() {
        number_value(i, float_prefix(s.subrange(i, s.len() as int)))
    } else {
        None
    }
}

/// The fields with their values from `i` on, and where they end, or the
/// position at which they go wrong: a field, `=` and a value, any number of
/// times with `,` in between. Whitespace may stand between the parts.
pub open spec fn fields_from(s: Seq<u8>, i: int) -> Result<
    (Seq<Seq<char>>, Seq<DataValue>, int),
    int,
>
    decreases s.len() - i,
{
    let a = skip_whitespace(s, i);
    if !(0 <= i && ident_at(s, a)) {
        Err(a)
    } else {
        let b = ident_end(s, a);
        let c = skip_whitespace(s, b);
        if !(a < b <= c < s.len() && s[c] == 0x3d) {
            Err(c)
        } else {
            let d = skip_whitespace(s, c + 1);
            match value_at(s, d) {
                None => Err(d),
                Some((value, e)) => {
                    let f = skip_whitespace(s, e);
                    if d < e <= f < s.len() && s[f] == 0x2c {
                        proof {
                            lemma_skip_whitespace_bounds(s, i);
                            lemma_skip_whitespace_bounds(s, c + 1);
                        }
                        match fields_from(s, f + 1) {
                            Err(p) => Err(p),
                            Ok((names, values, g)) => Ok(
                                (
                                    seq![ascii_text(s.subrange(a, b))] + names,
                                    seq![value] + values,
                                    g,
                                ),
                            ),
                        }
                    } else {
                        Ok((seq![ascii_text(s.subrange(a, b))], seq![value], f))
                    }
                },
            }
        }
    }
}

/// The fields already read, put before the outcome of reading the rest.
pub open spec fn after_fields(
    names: Seq<Seq<char>>,
    values: Seq<DataValue>,
    rest: Result<(Seq<Seq<char>>, Seq<DataValue>, int), int>,
) -> Result<(Seq<Seq<char>>, Seq<DataValue>, int), int> {
    match rest {
        Ok((more_names, more_values, e)) => Ok((names + more_names, values + more_values, e)),
        Err(p) => Err(p),
    }
}

/// What the lower-case statement `s` inserts, with `now` for the clock's
/// value, or the position at which it goes wrong: `insert`, the series, the
/// fields with their values, and a timestamp. A `,` may stand between the
/// series and the fields; without a timestamp the time is `now`.
pub open spec fn insert_at(s: Seq<u8>, now: i64) -> Result<InsertModel, int> {
    if !has_prefix(s, 0, "insert".spec_bytes()) {
        Err(0)
    } else {
        let a = skip_whitespace(s, "insert".spec_bytes().len() as int);
        if !ident_at(s, a) {
            Err(a)
        } else {
            let b = ident_end(s, a);
            let c = skip_whitespace(s, b);
            let d = if 0 <= c < s.len() && s[c] == 0x2c {
                c + 1
            } else {
                c
            };
            match fields_from(s, d) {
                Err(p) => Err(p),
                Ok((fields, values, e)) => {
                    if e == s.len() {
                        Ok(
                            InsertModel {
                                series: ascii_text(s.subrange(a, b)),
                                fields,
                                values,
                                time: now,
                            },
                        )
                    } else {
                        let (time, f) = timestamp_at(s, e, now);
                        let g = skip_whitespace(s, f);
                        match time {
                            None => Err(e),
                            Some(time) => if g == s.len() {
                                Ok(
                                    InsertModel {
                                        series: ascii_text(s.subrange(a, b)),
                                        fields,
                                        values,
                                        time,
                                    },
                                )
                            } else {
                                Err(g)
                            },
                        }
                    }
                },
            }
        }
    }
}

/// The value that the outcome of reading a number at `index` gives: a float
/// of the bits read, with `index` moved past the number, or a failure at
/// `index` where no number was read.
pub fn value_of_number(index: &mut usize, read: Option<(u64, usize)>) -> (r: Result<
    DataValue,
    ParseFailure,
>)
    requires
        read matches Some(found) ==> *old(index) + found.1 <= usize::MAX,
    ensures
        match number_value(*old(index) as int, read) {
            Some((value, end)) => r == Ok::<DataValue, ParseFailure>(value) && *final(index)
                == end,
            None => r == Err::<DataValue, ParseFailure>(ParseFailure { position: *old(index) })
                && *final(index) == *old(index),
        },
{
    match read {
        Some((bits, n)) => {
            *index = *index + n;
            Ok(DataValue::Float(bits))
        },
        None => Err(ParseFailure { position: *index }),
    }
}

/// Reads a value at `index`: `true`, `false`, or a decimal number, which
/// gives a float. On success moves `index` past it; otherwise leaves `index`
/// alone.
pub fn parse_value(s: &[u8], index: &mut usize) -> (r: Result<DataValue, ParseFailure>)
    ensures
        match value_at(s@, *old(index) as int) {
            Some((value, end)) => r == Ok::<DataValue, ParseFailure>(value) && *final(index)
                == end && *old(index) < end <= s@.len(),
            None => r == Err::<DataValue, ParseFailure>(ParseFailure { position: *old(index) })
                && *final(index) == *old(index),
        },
{
    let start = *index;
    if parse_ascii("true", s, index) {
        proof {
            reveal_strlit("true");
            vstd::string::is_ascii_spec_bytes("true");
        }
        return Ok(DataValue::Bool(true));
    }
    if parse_ascii("false", s, index) {
        proof {
            reveal_strlit("false");
            vstd::string::is_ascii_spec_bytes("false");
        }
        return Ok(DataValue::Bool(false));
    }
    if start > s.len() {
        return Err(ParseFailure { position: start });
    }
    let rest = vstd::slice::slice_subrange(s, start, s.len());
    let read = parse_float_prefix(rest);
    value_of_number(index, read)
}

/// Reads fields with their values at `index` and appends them to `entry`:
/// a field, `=` and a value, any number of times with `,` in between. On
/// success moves `index` past them and past the whitespace that follows;
/// otherwise leaves `index` and `entry` alone and says where they go wrong.
pub fn parse_fields(s: &[u8], index: &mut usize, entry: &mut SeriesEntry) -> (r: Result<
    (),
    ParseFailure,
>)
    ensures
        final(entry).time == old(entry).time,
        match fields_from(s@, *old(index) as int) {
            Ok((names, values, end)) => {
                &&& r is Ok
                &&& *final(index) == end
                &&& texts(final(entry).fields@) == texts(old(entry).fields@) + names
                &&& final(entry).values@ == old(entry).values@ + values
            },
            Err(p) => {
                &&& r == Err::<(), ParseFailure>(ParseFailure { position: p as usize })
                &&& 0 <= p <= usize::MAX
                &&& *final(index) == *old(index)
                &&& final(entry).fields@ == old(entry).fields@
                &&& final(entry).values@ == old(entry).values@
            },
        },
{
    let start = *index;
    let mut names: Vec<String> = Vec::new();
    let mut values: Vec<DataValue> = Vec::new();
    let mut i = start;
    assert(after_fields(texts(names@), values@, fields_from(s@, i as int)) == fields_from(
        s@,
        i as int,
    )) by {
        match fields_from(s@, i as int) {
            Ok((more_names, more_values, e)) => {
                assert(texts(names@) + more_names =~= more_names);
                assert(values@ + more_values =~= more_values);
            },
            Err(_) => {},
        }
    }
    loop
        invariant_except_break
            fields_from(s@, start as int) == after_fields(
                texts(names@),
                values@,
                fields_from(s@, i as int),
            ),
        invariant
            start == *old(index),
            *index == start,
            *entry == *old(entry),
        ensures
            fields_from(s@, start as int) == Ok::<(Seq<Seq<char>>, Seq<DataValue>, int), int>(
                (texts(names@), values@, i as int),
            ),
        decreases s@.len() - i,
    {
        let ghost from = i as int;
        let ghost read_names = texts(names@);
        let ghost read_values = values@;
        proof {
            lemma_skip_whitespace_bounds(s@, from);
        }
        advance_whitespace(s, &mut i);
        proof {
            lemma_ident_end_bounds(s@, i as int);
        }
        let (ok, name) = parse_identifier(s, &mut i);
        if !ok {
            return Err(ParseFailure { position: i });
        }
        proof {
            lemma_skip_whitespace_bounds(s@, i as int);
        }
        advance_whitespace(s, &mut i);
        if !(i < s.len() && s[i] == 0x3d) {
            return Err(ParseFailure { position: i });
        }
        i += 1;
        proof {
            lemma_skip_whitespace_bounds(s@, i as int);
        }
        advance_whitespace(s, &mut i);
        let value = match parse_value(s, &mut i) {
            Ok(value) => value,
            Err(failure) => {
                return Err(failure);
            },
        };
        proof {
            lemma_skip_whitespace_bounds(s@, i as int);
        }
        advance_whitespace(s, &mut i);
        names.push(name);
        values.push(value);
        proof {
            assert(texts(names@) =~= read_names + seq![name@]);
            assert(values@ =~= read_values + seq![value]);
        }
        if i < s.len() && s[i] == 0x2c {
            i += 1;
            proof {
                match fields_from(s@, i as int) {
                    Ok((more_names, more_values, e)) => {
                        assert(texts(names@) + more_names =~= read_names + (seq![name@]
                            + more_names));
                        assert(values@ + more_values =~= read_values + (seq![value]
                            + more_values));
                    },
                    Err(_) => {},
                }
            }
        } else {
            break;
        }
    }
    let ghost before_names = entry.fields@;
    let ghost before_values = entry.values@;
    let ghost added = texts(names@);
    entry.fields.append(&mut names);
    entry.values.append(&mut values);
    assert(texts(entry.fields@) =~= texts(before_names) + added);
    *index = i;
    Ok(())
}

/// Reads an INSERT statement from its bytes in lower case, with `now` for
/// the clock's value. The statement is `insert`, the series, the fields
/// with their values, and an optional timestamp, without which the time is
/// `now`; a statement of another shape is refused with the position, in
/// bytes, at which it goes wrong.
pub fn read_insert(input: &[u8], now: i64) -> (r: Result<Insertion, ParseFailure>)
    ensures
        match insert_at(input@, now) {
            Ok(model) => r is Ok && r->Ok_0.matches_model(model),
            Err(p) => r == Err::<Insertion, ParseFailure>(ParseFailure { position: p as usize }),
        },
{
    let mut index: usize = 0;
    if !parse_ascii("insert", input, &mut index) {
        return Err(ParseFailure { position: 0 });
    }
    advance_whitespace(input, &mut index);
    let (ok, series) = parse_identifier(input, &mut index);
    if !ok {
        return Err(ParseFailure { position: index });
    }
    advance_whitespace(input, &mut index);
    if index < input.len() && input[index] == 0x2c {
        index += 1;
    }
    let mut entry = SeriesEntry { fields: Vec::new(), values: Vec::new(), time: now };
    match parse_fields(input, &mut index, &mut entry) {
        Ok(()) => {},
        Err(failure) => {
            return Err(failure);
        },
    }
    assert(texts(Seq::<String>::empty()) =~= Seq::<Seq<char>>::empty());
    if index == input.len() {
        assert(texts(entry.fields@) =~= fields_from(input@, fields_start(input@))->Ok_0.0);
        assert(entry.values@ =~= fields_from(input@, fields_start(input@))->Ok_0.1);
        return Ok(Insertion { series, entry });
    }
    let at = index;
    match parse_timestamp_at(input, &mut index, now) {
        Some(time) => {
            entry.time = time;
        },
        None => {
            return Err(ParseFailure { position: at });
        },
    }
    advance_whitespace(input, &mut index);
    if index != input.len() {
        return Err(ParseFailure { position: index });
    }
    assert(texts(entry.fields@) =~= fields_from(input@, fields_start(input@))->Ok_0.0);
    assert(entry.values@ =~= fields_from(input@, fields_start(input@))->Ok_0.1);
    Ok(Insertion { series, entry })
}

/// Parses an INSERT statement, with `now` for the clock's value. The
/// statement is first put into lower case, in place, so that letters count
/// without regard to case and the names that come back are in lower case;
/// then it is read as `read_insert` reads it.
pub fn parse_insert_at(raw_query: &mut String, now: i64) -> (r: Result<Insertion, ParseFailure>)
    ensures
        final(raw_query)@ == lower_text(old(raw_query)@),
        match insert_at(lowered(old(raw_query)@), now) {
            Ok(model) => r is Ok && r->Ok_0.matches_model(model),
            Err(p) => r == Err::<Insertion, ParseFailure>(ParseFailure { position: p as usize }),
        },
{
    lower_in_place(raw_query);
    read_insert(raw_query.as_str().as_bytes(), now)
}

/// Where the fields of the lower-case statement `s` start.
pub open spec fn fields_start(s: Seq<u8>) -> int {
    let a = skip_whitespace(s, "insert".spec_bytes().len() as int);
    let c = skip_whitespace(s, ident_end(s, a));
    if 0 <= c < s.len() && s[c] == 0x2c {
        c + 1
    } else {
        c
    }
}

/// Parses an INSERT statement as `parse_insert_at` does, asking the system
/// clock for the value of `now()` and for the time of a row without a timestamp.
pub fn parse_insert(raw_query: &mut String) -> (r: Result<Insertion, ParseFailure>)
    ensures
        final(raw_query)@ == lower_text(old(raw_query)@),
        exists|now: i64|
            match #[trigger] insert_at(lowered(old(raw_query)@), now) {
                Ok(model) => r is Ok && r->Ok_0.matches_model(model),
                Err(p) => r == Err::<Insertion, ParseFailure>(ParseFailure { position: p as usize }),
            },
{
    let now = new_timestamp();
    let r = parse_insert_at(raw_query, now);
    assert(match insert_at(lowered(old(raw_query)@), now) {
        Ok(model) => r is Ok,
        Err(p) => r is Err,
    });
    r
}

} // verus!
