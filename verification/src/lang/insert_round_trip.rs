//! The statement round trip for inserts: the canonical text of an insert
//! parses back to the insert.

use vstd::prelude::*;
use vstd::string::StringSliceAdditionalSpecFns;

use crate::DataValue;
use crate::encoding::ascii_text;
use crate::lang::insert::{fields_from, float_prefix, insert_at, value_at, InsertModel};
use crate::lang::round_trip::{
    decimal, holds, is_identifier, lemma_decimal_digits, lemma_holds_parts, lemma_holds_prefix,
    lemma_reads_identifier, lemma_reads_timestamp, lemma_skip_to,
};
use crate::lang::util::{
    has_prefix, is_ident_char, is_small, is_whitespace, lemma_small_text_is_lowered, lowered,
};

verus! {

/// A value as it is written: a boolean, or a float with the decimal text
/// that stands for it.
pub enum ValueText {
    Bool(bool),
    Float { text: Seq<u8>, bits: u64 },
}

/// A field with its value as they are written in an insert.
pub struct PairText {
    pub field: Seq<u8>,
    pub value: ValueText,
}

/// The decimal text parses back exactly to the float of the given bits,
/// whatever follows it in a statement: it starts with neither a blank nor
/// the first letter of a boolean, and before the end of the statement, a
/// `,` or a blank, the reading of the number takes all of it and gives
/// those bits.
pub open spec fn parses_back(text: Seq<u8>, bits: u64) -> bool {
    &&& 0 < text.len() <= usize::MAX
    &&& text[0] != 0x74 && text[0] != 0x66 && !is_whitespace(text[0])
    &&& forall|rest: Seq<u8>|
        rest.len() == 0 || rest[0] == 0x2c || rest[0] == 0x20 ==> #[trigger] float_prefix(
            text + rest,
        ) == Some((bits, text.len() as usize))
}

/// The value can be written and read back: every boolean can, and a float
/// whose text parses back exactly.
pub open spec fn canonical_value(value: ValueText) -> bool {
    match value {
        ValueText::Bool(_) => true,
        ValueText::Float { text, bits } => parses_back(text, bits),
    }
}

/// The text of a value.
pub open spec fn value_text(value: ValueText) -> Seq<u8> {
    match value {
        ValueText::Bool(b) => bool_text(b),
        ValueText::Float { text, bits } => text,
    }
}

/// The value that the parser reads from the text of a value.
pub open spec fn value_read(value: ValueText) -> DataValue {
    match value {
        ValueText::Bool(b) => DataValue::Bool(b),
        ValueText::Float { text, bits } => DataValue::Float(bits),
    }
}

/// An insert as it is written: the bytes of the names, the fields with
/// their values, and the time, if one is given.
pub struct InsertText {
    pub series: Seq<u8>,
    pub pairs: Seq<PairText>,
    pub time: Option<i64>,
}

/// The fields with their values can be written and read back: the names
/// are identifiers and the values are canonical.
pub open spec fn canonical_pairs(pairs: Seq<PairText>) -> bool {
    forall|i: int|
        0 <= i < pairs.len() ==> is_identifier((#[trigger] pairs[i]).field) && canonical_value(
            pairs[i].value,
        )
}

/// The insert can be written and read back: its names are identifiers, it
/// has a field, its values are booleans or floats whose text parses back
/// exactly, and its time is not negative.
pub open spec fn canonical_insert(t: InsertText) -> bool {
    &&& is_identifier(t.series)
    &&& t.pairs.len() >= 1
    &&& canonical_pairs(t.pairs)
    &&& t.time matches Some(time) ==> 0 <= time
}

/// The text of a boolean.
pub open spec fn bool_text(value: bool) -> Seq<u8> {
    if value {
        "true".spec_bytes()
    } else {
        "false".spec_bytes()
    }
}

/// The canonical text of a field with its value: the field, `=` and the value.
pub open spec fn pair_text(pair: PairText) -> Seq<u8> {
    pair.field + (seq![0x3du8] + value_text(pair.value))
}

/// The canonical text of the fields with their values, with `,` in between.
pub open spec fn pairs_text(pairs: Seq<PairText>) -> Seq<u8>
    decreases pairs.len(),
{
    if pairs.len() == 0 {
        Seq::empty()
    } else if pairs.len() == 1 {
        pair_text(pairs[0])
    } else {
        pair_text(pairs[0]) + (seq![0x2cu8] + pairs_text(pairs.drop_first()))
    }
}

/// The canonical text of the time with the blank before it; nothing for an
/// insert without a time.
pub open spec fn time_text(time: Option<i64>) -> Seq<u8> {
    match time {
        None => Seq::empty(),
        Some(time) => seq![0x20u8] + decimal(time as nat),
    }
}

/// The canonical text of an insert: `insert`, a blank, the series, `,`, the
/// fields with their values, and the time in decimal digits with a blank
/// before it.
pub open spec fn insert_text(t: InsertText) -> Seq<u8> {
    "insert".spec_bytes() + (seq![0x20u8] + (t.series + (seq![0x2cu8] + (pairs_text(t.pairs)
        + time_text(t.time)))))
}

/// The names of the fields as the parser reads them.
pub open spec fn pair_names(pairs: Seq<PairText>) -> Seq<Seq<char>> {
    Seq::new(pairs.len(), |i: int| ascii_text(pairs[i].field))
}

/// The values of the fields as the parser reads them.
pub open spec fn pair_values(pairs: Seq<PairText>) -> Seq<DataValue> {
    Seq::new(pairs.len(), |i: int| value_read(pairs[i].value))
}

/// What the parser says of an insert as it is written, with `now` for the
/// time of an insert that gives none.
pub open spec fn insert_model_of(t: InsertText, now: i64) -> InsertModel {
    InsertModel {
        series: ascii_text(t.series),
        fields: pair_names(t.pairs),
        values: pair_values(t.pairs),
        time: match t.time {
            Some(time) => time,
            None => now,
        },
    }
}

/// The bytes of the words of an insert.
proof fn lemma_insert_words()
    ensures
        "insert".spec_bytes() == seq![0x69u8, 0x6e, 0x73, 0x65, 0x72, 0x74],
        "true".spec_bytes() == seq![0x74u8, 0x72, 0x75, 0x65],
        "false".spec_bytes() == seq![0x66u8, 0x61, 0x6c, 0x73, 0x65],
{
    reveal_strlit("insert");
    reveal_strlit("true");
    reveal_strlit("false");
    vstd::string::is_ascii_spec_bytes("insert");
    vstd::string::is_ascii_spec_bytes("true");
    vstd::string::is_ascii_spec_bytes("false");
    assert("insert".spec_bytes() =~= seq![0x69u8, 0x6e, 0x73, 0x65, 0x72, 0x74]);
    assert("true".spec_bytes() =~= seq![0x74u8, 0x72, 0x75, 0x65]);
    assert("false".spec_bytes() =~= seq![0x66u8, 0x61, 0x6c, 0x73, 0x65]);
}

/// A value that stands at a position, before the end of the statement, a
/// `,` or a blank, is read back.
proof fn lemma_reads_value(s: Seq<u8>, i: int, value: ValueText)
    requires
        canonical_value(value),
        holds(s, i, value_text(value)),
        ({
            let e = i + value_text(value).len();
            e == s.len() || s[e] == 0x2c || s[e] == 0x20
        }),
    ensures
        value_at(s, i) == Some((value_read(value), i + value_text(value).len())),
        !is_whitespace(s[i]),
        value_text(value).len() > 0,
{
    lemma_insert_words();
    let text = value_text(value);
    assert(s[i + 0] == text[0]);
    match value {
        ValueText::Bool(b) => {
            lemma_holds_prefix(s, i, text);
            if !b {
                if has_prefix(s, i, "true".spec_bytes()) {
                    assert(s.subrange(i, i + 4)[0] == s[i]);
                }
            }
        },
        ValueText::Float { text, bits } => {
            if has_prefix(s, i, "true".spec_bytes()) {
                assert(s.subrange(i, i + 4)[0] == s[i]);
            }
            if has_prefix(s, i, "false".spec_bytes()) {
                assert(s.subrange(i, i + 5)[0] == s[i]);
            }
            let e = i + text.len();
            let rest = s.subrange(e, s.len() as int);
            assert(s.subrange(i, s.len() as int) =~= text + rest) by {
                assert forall|j: int| 0 <= j < text.len() implies s[i + j] == text[j] by {}
            }
            assert(rest.len() == 0 || rest[0] == 0x2c || rest[0] == 0x20);
            assert(float_prefix(text + rest) == Some((bits, text.len() as usize)));
        },
    }
}

/// What follows the fields of an insert: the end of the text, or a blank and a digit.
pub open spec fn fields_end(s: Seq<u8>, e: int) -> bool {
    e == s.len() || (0 <= e && e + 1 < s.len() && s[e] == 0x20 && 0x30 <= s[e + 1] <= 0x39)
}

/// The fields with their values that stand at a position are read back.
proof fn lemma_reads_pairs(s: Seq<u8>, i: int, pairs: Seq<PairText>)
    requires
        pairs.len() >= 1,
        canonical_pairs(pairs),
        holds(s, i, pairs_text(pairs)),
        fields_end(s, i + pairs_text(pairs).len()),
    ensures
        fields_from(s, i) == Ok::<(Seq<Seq<char>>, Seq<DataValue>, int), int>(
            (
                pair_names(pairs),
                pair_values(pairs),
                if i + pairs_text(pairs).len() == s.len() {
                    s.len() as int
                } else {
                    i + pairs_text(pairs).len() + 1
                },
            ),
        ),
    decreases pairs.len(),
{
    lemma_insert_words();
    let pair = pairs[0];
    let name = pair.field;
    let value = value_text(pair.value);
    let b = i + name.len();
    let d = b + 1;
    let e = d + value.len();
    assert(is_identifier(name) && canonical_value(pair.value));
    if pairs.len() == 1 {
        lemma_holds_parts(s, i, name, seq![0x3du8] + value);
    } else {
        lemma_holds_parts(s, i, pair_text(pair), seq![0x2cu8] + pairs_text(pairs.drop_first()));
        lemma_holds_parts(s, i, name, seq![0x3du8] + value);
    }
    lemma_holds_parts(s, b, seq![0x3du8], value);
    assert(s[b + 0] == seq![0x3du8][0]);
    assert(s[i + 0] == name[0]);
    lemma_skip_to(s, i, i);
    lemma_reads_identifier(s, i, name);
    lemma_skip_to(s, b, b);
    if pairs.len() == 1 {
        lemma_reads_value(s, d, pair.value);
        lemma_skip_to(s, d, d);
        if e == s.len() {
            lemma_skip_to(s, e, e);
        } else {
            lemma_skip_to(s, e, e + 1);
        }
        assert(seq![ascii_text(name)] =~= pair_names(pairs));
        assert(seq![value_read(pair.value)] =~= pair_values(pairs));
    } else {
        let rest = pairs.drop_first();
        lemma_holds_parts(s, e, seq![0x2cu8], pairs_text(rest));
        assert(s[e + 0] == seq![0x2cu8][0]);
        lemma_reads_value(s, d, pair.value);
        lemma_skip_to(s, d, d);
        lemma_skip_to(s, e, e);
        assert(canonical_pairs(rest)) by {
            assert forall|k: int| 0 <= k < rest.len() implies is_identifier(
                (#[trigger] rest[k]).field,
            ) && canonical_value(rest[k].value) by {
                assert(rest[k] == pairs[k + 1]);
            }
        }
        lemma_reads_pairs(s, e + 1, rest);
        assert(seq![ascii_text(name)] + pair_names(rest) =~= pair_names(pairs));
        assert(seq![value_read(pair.value)] + pair_values(rest) =~= pair_values(pairs));
    }
}

/// Where the parts of the canonical text of an insert stand.
proof fn lemma_insert_layout(t: InsertText)
    requires
        canonical_insert(t),
    ensures
        ({
            let s = insert_text(t);
            let b = 7 + t.series.len() as int;
            let e = b + 1 + pairs_text(t.pairs).len() as int;
            &&& holds(s, 0, "insert".spec_bytes())
            &&& "insert".spec_bytes().len() == 6
            &&& s[6] == 0x20
            &&& holds(s, 7, t.series)
            &&& s[b] == 0x2c
            &&& holds(s, b + 1, pairs_text(t.pairs))
            &&& holds(s, e, time_text(t.time))
            &&& e + time_text(t.time).len() == s.len()
            &&& fields_end(s, e)
        }),
{
    lemma_insert_words();
    let s = insert_text(t);
    let b = 7 + t.series.len() as int;
    let pairs = pairs_text(t.pairs);
    let time = time_text(t.time);
    let after_comma = pairs + time;
    let after_series = seq![0x2cu8] + after_comma;
    let after_blank = t.series + after_series;
    let after_keyword = seq![0x20u8] + after_blank;
    assert(holds(s, 0, "insert".spec_bytes() + after_keyword));
    lemma_holds_parts(s, 0, "insert".spec_bytes(), after_keyword);
    lemma_holds_parts(s, 6, seq![0x20u8], after_blank);
    lemma_holds_parts(s, 7, t.series, after_series);
    lemma_holds_parts(s, b, seq![0x2cu8], after_comma);
    lemma_holds_parts(s, b + 1, pairs, time);
    assert(s[6int + 0] == seq![0x20u8][0]);
    assert(s[b + 0] == seq![0x2cu8][0]);
    let e = b + 1 + pairs.len() as int;
    match t.time {
        Some(stamp) => {
            lemma_holds_parts(s, e, seq![0x20u8], decimal(stamp as nat));
            lemma_decimal_digits(stamp as nat);
            assert(s[e + 0] == seq![0x20u8][0]);
            assert(s[e + 1 + 0] == decimal(stamp as nat)[0]);
        },
        None => {},
    }
}

/// Statement round trip for inserts. The canonical text of an insert whose
/// names are identifiers, whose values are booleans or floats written so
/// that they parse back exactly, and whose time is not negative parses
/// back to that insert: the series, every field with its value in the
/// statement's order, and the time; without a time in the text the time
/// read is the clock's.
pub proof fn lemma_insert_round_trip(t: InsertText, now: i64)
    requires
        canonical_insert(t),
    ensures
        insert_at(insert_text(t), now) == Ok::<InsertModel, int>(insert_model_of(t, now)),
{
    let s = insert_text(t);
    let b = 7 + t.series.len() as int;
    let e = b + 1 + pairs_text(t.pairs).len() as int;
    lemma_insert_layout(t);
    lemma_holds_prefix(s, 0, "insert".spec_bytes());
    assert(s[7int + 0] == t.series[0]);
    lemma_skip_to(s, 6, 7);
    lemma_reads_identifier(s, 7, t.series);
    lemma_skip_to(s, b, b);
    lemma_reads_pairs(s, b + 1, t.pairs);
    match t.time {
        Some(stamp) => {
            lemma_holds_parts(s, e, seq![0x20u8], decimal(stamp as nat));
            lemma_reads_timestamp(s, e + 1, stamp, now);
            lemma_skip_to(s, s.len() as int, s.len() as int);
        },
        None => {},
    }
}

/// The text of the value holds no capitals: that of a boolean holds none,
/// and that of a float may, as `1E5` does.
pub open spec fn small_value(value: ValueText) -> bool {
    match value {
        ValueText::Bool(_) => true,
        ValueText::Float { text, bits } => is_small(text),
    }
}

/// The values are written without capitals.
pub open spec fn small_values(pairs: Seq<PairText>) -> bool {
    forall|i: int| 0 <= i < pairs.len() ==> small_value((#[trigger] pairs[i]).value)
}

/// The canonical text of the fields with their values holds no capitals.
proof fn lemma_pairs_small(pairs: Seq<PairText>)
    requires
        canonical_pairs(pairs),
        small_values(pairs),
    ensures
        is_small(pairs_text(pairs)),
    decreases pairs.len(),
{
    lemma_insert_words();
    if pairs.len() > 0 {
        let pair = pairs[0];
        assert(is_identifier(pair.field) && small_value(pair.value));
        assert(is_small(pair.field)) by {
            assert forall|i: int| 0 <= i < pair.field.len() implies (#[trigger] pair.field[i])
                < 128 && !(0x41 <= pair.field[i] <= 0x5a) by {
                assert(is_ident_char(pair.field[i]));
            }
        }
        assert(is_small(value_text(pair.value)));
        assert(is_small(seq![0x3du8] + value_text(pair.value)));
        assert(is_small(pair_text(pair)));
        if pairs.len() > 1 {
            let rest = pairs.drop_first();
            assert(canonical_pairs(rest) && small_values(rest)) by {
                assert forall|k: int| 0 <= k < rest.len() implies is_identifier(
                    (#[trigger] rest[k]).field,
                ) && canonical_value(rest[k].value) && small_value(rest[k].value) by {
                    assert(rest[k] == pairs[k + 1]);
                }
            }
            lemma_pairs_small(rest);
        }
    }
}

/// Statement round trip for inserts, through the lowering of the parser:
/// the canonical text of an insert whose values are written without
/// capitals holds none, so the parser scans it as it is written and reads
/// the insert back from it.
pub proof fn lemma_insert_statement_round_trip(t: InsertText, now: i64)
    requires
        canonical_insert(t),
        small_values(t.pairs),
    ensures
        is_small(insert_text(t)),
        insert_at(lowered(ascii_text(insert_text(t))), now) == Ok::<InsertModel, int>(
            insert_model_of(t, now),
        ),
{
    lemma_insert_words();
    lemma_pairs_small(t.pairs);
    assert(is_small(t.series)) by {
        assert forall|i: int| 0 <= i < t.series.len() implies (#[trigger] t.series[i]) < 128 && !(
        0x41 <= t.series[i] <= 0x5a) by {
            assert(is_ident_char(t.series[i]));
        }
    }
    assert(is_small(time_text(t.time))) by {
        match t.time {
            Some(stamp) => {
                lemma_decimal_digits(stamp as nat);
                assert(is_small(decimal(stamp as nat)));
            },
            None => {},
        }
    }
    assert(is_small("insert".spec_bytes()));
    assert(is_small(insert_text(t)));
    lemma_small_text_is_lowered(insert_text(t));
    lemma_insert_round_trip(t, now);
}

} // verus!
