//! The statement round trip: the canonical text of a query parses back to the query.

use vstd::prelude::*;
use vstd::string::StringSliceAdditionalSpecFns;

use crate::encoding::{ascii_text, is_ascii_bytes, lemma_ascii_text};
use crate::lang::{Aggregation, Selection, SelectionModel, SelectModel, SelectQuery};
use crate::lang::query::{
    aggregator_at, bound_at, fields_at, select_at, selection_at, selections_from, time_range_at,
};
use crate::lang::util::{
    digits_end, digits_value, has_prefix, ident_at, ident_end, is_digit, is_ident_char,
    is_ident_start, is_small, is_whitespace, lemma_small_text_is_lowered, lowered,
    skip_whitespace, timestamp_at,
};

verus! {

/// The bytes are an identifier: a letter `a` to `z`, then letters `a` to
/// `z`, digits, `_` and `-`.
pub open spec fn is_identifier(name: Seq<u8>) -> bool {
    &&& name.len() > 0
    &&& is_ident_start(name[0])
    &&& forall|i: int| 0 <= i < name.len() ==> is_ident_char(#[trigger] name[i])
}

/// The decimal digits of a number, the most significant first.
pub open spec fn decimal(n: nat) -> Seq<u8>
    decreases n,
{
    if n < 10 {
        seq![(0x30 + n) as u8]
    } else {
        decimal(n / 10).push((0x30 + n % 10) as u8)
    }
}

/// The bytes hold `x` at position `i`.
pub open spec fn holds(s: Seq<u8>, i: int, x: Seq<u8>) -> bool {
    &&& 0 <= i
    &&& i + x.len() <= s.len()
    &&& forall|j: int| 0 <= j < x.len() ==> s[i + j] == #[trigger] x[j]
}

/// The position is the end of the text or holds the given byte.
pub open spec fn ends_or(s: Seq<u8>, i: int, b: u8) -> bool {
    i == s.len() || (0 <= i < s.len() && s[i] == b)
}

pub proof fn lemma_holds_parts(s: Seq<u8>, i: int, x: Seq<u8>, y: Seq<u8>)
    requires
        holds(s, i, x + y),
    ensures
        holds(s, i, x),
        holds(s, i + x.len(), y),
{
    assert forall|j: int| 0 <= j < x.len() implies s[i + j] == #[trigger] x[j] by {
        assert((x + y)[j] == x[j]);
    }
    assert forall|j: int| 0 <= j < y.len() implies s[i + x.len() + j] == #[trigger] y[j] by {
        assert((x + y)[x.len() + j] == y[j]);
    }
}

pub proof fn lemma_holds_prefix(s: Seq<u8>, i: int, x: Seq<u8>)
    requires
        holds(s, i, x),
    ensures
        has_prefix(s, i, x),
{
    assert(s.subrange(i, i + x.len()) =~= x);
}

/// The bytes of the keywords.
pub proof fn lemma_keywords()
    ensures
        "select".spec_bytes() == seq![0x73u8, 0x65, 0x6c, 0x65, 0x63, 0x74],
        "after".spec_bytes() == seq![0x61u8, 0x66, 0x74, 0x65, 0x72],
        "before".spec_bytes() == seq![0x62u8, 0x65, 0x66, 0x6f, 0x72, 0x65],
        "now()".spec_bytes() == seq![0x6eu8, 0x6f, 0x77, 0x28, 0x29],
        "last(".spec_bytes() == seq![0x6cu8, 0x61, 0x73, 0x74, 0x28],
        "mean(".spec_bytes() == seq![0x6du8, 0x65, 0x61, 0x6e, 0x28],
        "max(".spec_bytes() == seq![0x6du8, 0x61, 0x78, 0x28],
        "min(".spec_bytes() == seq![0x6du8, 0x69, 0x6e, 0x28],
        "first(".spec_bytes() == seq![0x66u8, 0x69, 0x72, 0x73, 0x74, 0x28],
{
    reveal_strlit("select");
    reveal_strlit("after");
    reveal_strlit("before");
    reveal_strlit("now()");
    reveal_strlit("last(");
    reveal_strlit("mean(");
    reveal_strlit("max(");
    reveal_strlit("min(");
    reveal_strlit("first(");
    vstd::string::is_ascii_spec_bytes("select");
    vstd::string::is_ascii_spec_bytes("after");
    vstd::string::is_ascii_spec_bytes("before");
    vstd::string::is_ascii_spec_bytes("now()");
    vstd::string::is_ascii_spec_bytes("last(");
    vstd::string::is_ascii_spec_bytes("mean(");
    vstd::string::is_ascii_spec_bytes("max(");
    vstd::string::is_ascii_spec_bytes("min(");
    vstd::string::is_ascii_spec_bytes("first(");
    assert("select".spec_bytes() =~= seq![0x73u8, 0x65, 0x6c, 0x65, 0x63, 0x74]);
    assert("after".spec_bytes() =~= seq![0x61u8, 0x66, 0x74, 0x65, 0x72]);
    assert("before".spec_bytes() =~= seq![0x62u8, 0x65, 0x66, 0x6f, 0x72, 0x65]);
    assert("now()".spec_bytes() =~= seq![0x6eu8, 0x6f, 0x77, 0x28, 0x29]);
    assert("last(".spec_bytes() =~= seq![0x6cu8, 0x61, 0x73, 0x74, 0x28]);
    assert("mean(".spec_bytes() =~= seq![0x6du8, 0x65, 0x61, 0x6e, 0x28]);
    assert("max(".spec_bytes() =~= seq![0x6du8, 0x61, 0x78, 0x28]);
    assert("min(".spec_bytes() =~= seq![0x6du8, 0x69, 0x6e, 0x28]);
    assert("first(".spec_bytes() =~= seq![0x66u8, 0x69, 0x72, 0x73, 0x74, 0x28]);
}

/// Whitespace is skipped up to a position that holds none.
pub proof fn lemma_skip_to(s: Seq<u8>, i: int, j: int)
    requires
        0 <= i <= j <= s.len(),
        forall|k: int| i <= k < j ==> is_whitespace(#[trigger] s[k]),
        j == s.len() || !is_whitespace(s[j]),
    ensures
        skip_whitespace(s, i) == j,
    decreases j - i,
{
    if i < j {
        assert(is_whitespace(s[i]));
        lemma_skip_to(s, i + 1, j);
    }
}

/// An identifier is read up to the first byte that cannot continue it.
pub proof fn lemma_ident_to(s: Seq<u8>, i: int, j: int)
    requires
        0 <= i <= j <= s.len(),
        forall|k: int| i <= k < j ==> is_ident_char(#[trigger] s[k]),
        j == s.len() || !is_ident_char(s[j]),
    ensures
        ident_end(s, i) == j,
    decreases j - i,
{
    if i < j {
        assert(is_ident_char(s[i]));
        lemma_ident_to(s, i + 1, j);
    }
}

/// The name that stands at a position is read back as an identifier.
pub proof fn lemma_reads_identifier(s: Seq<u8>, i: int, name: Seq<u8>)
    requires
        is_identifier(name),
        holds(s, i, name),
        i + name.len() == s.len() || !is_ident_char(s[i + name.len()]),
    ensures
        ident_at(s, i),
        ident_end(s, i) == i + name.len(),
        s.subrange(i, i + name.len()) == name,
{
    assert(s[i + 0] == name[0]);
    assert forall|k: int| i <= k < i + name.len() implies is_ident_char(#[trigger] s[k]) by {
        assert(s[i + (k - i)] == name[k - i]);
    }
    lemma_ident_to(s, i, i + name.len());
    assert(s.subrange(i, i + name.len()) =~= name);
}

/// The decimal digits of a number are digits.
pub proof fn lemma_decimal_digits(n: nat)
    ensures
        decimal(n).len() > 0,
        forall|k: int| 0 <= k < decimal(n).len() ==> is_digit(#[trigger] decimal(n)[k]),
    decreases n,
{
    if n >= 10 {
        lemma_decimal_digits(n / 10);
    }
}

/// Digits are read up to the first byte that is none.
pub proof fn lemma_digits_to(s: Seq<u8>, i: int, j: int)
    requires
        0 <= i <= j <= s.len(),
        forall|k: int| i <= k < j ==> is_digit(#[trigger] s[k]),
        j == s.len() || !is_digit(s[j]),
    ensures
        digits_end(s, i) == j,
    decreases j - i,
{
    if i < j {
        assert(is_digit(s[i]));
        lemma_digits_to(s, i + 1, j);
    }
}

/// The decimal digits of a number spell the number.
pub proof fn lemma_decimal_value(s: Seq<u8>, i: int, n: nat)
    requires
        holds(s, i, decimal(n)),
    ensures
        digits_value(s, i, i + decimal(n).len()) == n,
    decreases n,
{
    let d = decimal(n);
    if n < 10 {
        assert(s[i + 0] == d[0]);
        assert(digits_value(s, i, i) == 0);
        assert(digits_value(s, i, i + 1) == digits_value(s, i, i) * 10 + (s[i] - 0x30) as nat);
    } else {
        let front = decimal(n / 10);
        assert(d =~= front + seq![(0x30 + n % 10) as u8]);
        lemma_holds_parts(s, i, front, seq![(0x30 + n % 10) as u8]);
        lemma_decimal_value(s, i, n / 10);
        assert(s[i + front.len() + 0] == seq![(0x30 + n % 10) as u8][0]);
        assert(s[i + d.len() - 1] == (0x30 + n % 10) as u8);
    }
}

/// The decimal digits of a time that stand at a position are read back as the time.
pub proof fn lemma_reads_timestamp(s: Seq<u8>, i: int, t: i64, now: i64)
    requires
        0 <= t,
        holds(s, i, decimal(t as nat)),
        i + decimal(t as nat).len() == s.len() || !is_digit(s[i + decimal(t as nat).len()]),
    ensures
        timestamp_at(s, i, now) == (Some(t), i + decimal(t as nat).len()),
{
    let d = decimal(t as nat);
    lemma_keywords();
    lemma_decimal_digits(t as nat);
    assert(s[i + 0] == d[0]);
    assert(!has_prefix(s, i, "now()".spec_bytes())) by {
        if has_prefix(s, i, "now()".spec_bytes()) {
            assert(s.subrange(i, i + 5)[0] == 0x6e);
            assert(is_digit(d[0]));
        }
    }
    assert forall|k: int| i <= k < i + d.len() implies is_digit(#[trigger] s[k]) by {
        assert(s[i + (k - i)] == d[k - i]);
    }
    lemma_digits_to(s, i, i + d.len());
    lemma_decimal_value(s, i, t as nat);
}

/// One term of a query as it is written: the aggregator round it, if any,
/// and the bytes of the field's name.
pub struct SelectionText {
    pub aggregator: Option<Aggregation>,
    pub field: Seq<u8>,
}

/// A query as it is written: the bytes of the names, the terms and the bounds.
pub struct SelectText {
    pub series: Seq<u8>,
    pub selections: Seq<SelectionText>,
    pub start: Option<i64>,
    pub end: Option<i64>,
}

/// The query can be written and read back: its names are identifiers and
/// its bounds are not negative.
pub open spec fn canonical(t: SelectText) -> bool {
    &&& is_identifier(t.series)
    &&& forall|i: int| 0 <= i < t.selections.len() ==> is_identifier((#[trigger] t.selections[i]).field)
    &&& t.start matches Some(time) ==> 0 <= time
    &&& t.end matches Some(time) ==> 0 <= time
}

/// What the parser says of a term as it is written.
pub open spec fn selection_model(m: SelectionText) -> SelectionModel {
    SelectionModel { aggregator: m.aggregator, field: ascii_text(m.field) }
}

/// What the parser says of the terms as they are written.
pub open spec fn selection_models(sels: Seq<SelectionText>) -> Seq<SelectionModel> {
    Seq::new(sels.len(), |i: int| selection_model(sels[i]))
}

/// What the parser says of a query as it is written.
pub open spec fn model_of(t: SelectText) -> SelectModel {
    SelectModel {
        series: ascii_text(t.series),
        selections: selection_models(t.selections),
        start: t.start,
        end: t.end,
    }
}

/// The name of an aggregator with its opening bracket.
pub open spec fn aggregator_word(aggregator: Aggregation) -> Seq<u8> {
    match aggregator {
        Aggregation::Last => "last(".spec_bytes(),
        Aggregation::Mean => "mean(".spec_bytes(),
        Aggregation::Max => "max(".spec_bytes(),
        Aggregation::Min => "min(".spec_bytes(),
        Aggregation::First => "first(".spec_bytes(),
    }
}

/// The canonical text of a term: the field, or the aggregator, `(`, the field and `)`.
pub open spec fn selection_text(m: SelectionText) -> Seq<u8> {
    match m.aggregator {
        None => m.field,
        Some(aggregator) => aggregator_word(aggregator) + m.field + seq![0x29u8],
    }
}

/// The canonical text of the terms up to the closing bracket: the terms with
/// `,` in between, then `]`.
pub open spec fn items_text(sels: Seq<SelectionText>) -> Seq<u8>
    decreases sels.len(),
{
    if sels.len() == 0 {
        seq![0x5du8]
    } else if sels.len() == 1 {
        selection_text(sels[0]) + seq![0x5du8]
    } else {
        selection_text(sels[0]) + seq![0x2cu8] + items_text(sels.drop_first())
    }
}

/// The canonical text of the list of terms: nothing for no terms, else `[`,
/// the terms and `]`.
pub open spec fn fields_text(sels: Seq<SelectionText>) -> Seq<u8> {
    if sels.len() == 0 {
        Seq::empty()
    } else {
        seq![0x5bu8] + items_text(sels)
    }
}

/// A word of letters and an opening bracket does not stand where a name
/// stands that ends before `,` or `]`.
proof fn lemma_no_aggregator(s: Seq<u8>, i: int, name: Seq<u8>, word: Seq<u8>)
    requires
        is_identifier(name),
        holds(s, i, name),
        i + name.len() < s.len(),
        s[i + name.len()] == 0x2c || s[i + name.len()] == 0x5d,
        word.len() >= 1,
        word[word.len() - 1] == 0x28,
        forall|k: int| 0 <= k < word.len() - 1 ==> is_ident_start(#[trigger] word[k]),
    ensures
        !has_prefix(s, i, word),
{
    if has_prefix(s, i, word) {
        let n = name.len() as int;
        let last = word.len() - 1;
        let part = s.subrange(i, i + word.len());
        assert(part[last] == s[i + last]);
        if last < n {
            assert(s[i + last] == name[last]);
            assert(is_ident_char(name[last]));
        } else if last > n {
            assert(part[n] == s[i + n]);
            assert(is_ident_start(word[n]));
        }
    }
}

/// A term that stands in a list is read back.
proof fn lemma_reads_selection(s: Seq<u8>, i: int, m: SelectionText)
    requires
        is_identifier(m.field),
        holds(s, i, selection_text(m)),
        i + selection_text(m).len() < s.len(),
        s[i + selection_text(m).len()] == 0x2c || s[i + selection_text(m).len()] == 0x5d,
    ensures
        selection_at(s, i) == Ok::<(SelectionModel, int), int>(
            (selection_model(m), i + selection_text(m).len()),
        ),
        !is_whitespace(s[i]),
        s[i] != 0x2c,
        s[i] != 0x5d,
{
    lemma_keywords();
    let n = m.field.len() as int;
    match m.aggregator {
        None => {
            lemma_no_aggregator(s, i, m.field, "last(".spec_bytes());
            lemma_no_aggregator(s, i, m.field, "mean(".spec_bytes());
            lemma_no_aggregator(s, i, m.field, "max(".spec_bytes());
            lemma_no_aggregator(s, i, m.field, "min(".spec_bytes());
            lemma_no_aggregator(s, i, m.field, "first(".spec_bytes());
            lemma_reads_identifier(s, i, m.field);
            assert(s[i + 0] == m.field[0]);
        },
        Some(aggregator) => {
            let word = aggregator_word(aggregator);
            let rest = m.field + seq![0x29u8];
            assert(selection_text(m) =~= word + rest);
            lemma_holds_parts(s, i, word, rest);
            lemma_holds_parts(s, i + word.len(), m.field, seq![0x29u8]);
            lemma_holds_prefix(s, i, word);
            let j = i + word.len();
            assert(s[j + n + 0] == seq![0x29u8][0]);
            lemma_reads_identifier(s, j, m.field);
            assert(s[i + 0] == word[0]);
            assert(s[i + 1] == word[1]);
            assert(forall|w: Seq<u8>| has_prefix(s, i, w) && w.len() >= 2 ==> s.subrange(
                i,
                i + w.len(),
            )[0] == s[i] && #[trigger] s.subrange(i, i + w.len())[1] == s[i + 1]);
            assert(aggregator_at(s, i) == Some((aggregator, j)));
        },
    }
}

/// The terms of a list that stand at a position are read back.
proof fn lemma_reads_items(s: Seq<u8>, i: int, sels: Seq<SelectionText>)
    requires
        sels.len() >= 1,
        forall|k: int| 0 <= k < sels.len() ==> is_identifier((#[trigger] sels[k]).field),
        holds(s, i, items_text(sels)),
    ensures
        selections_from(s, i) == Ok::<(Seq<SelectionModel>, int), int>(
            (selection_models(sels), i + items_text(sels).len()),
        ),
    decreases sels.len(),
{
    let first = selection_text(sels[0]);
    let end = i + first.len();
    assert(is_identifier(sels[0].field));
    if sels.len() == 1 {
        lemma_holds_parts(s, i, first, seq![0x5du8]);
        assert(s[end + 0] == seq![0x5du8][0]);
        lemma_reads_selection(s, i, sels[0]);
        lemma_skip_to(s, i, i);
        lemma_skip_to(s, end, end);
        assert(selections_from(s, end) == Ok::<(Seq<SelectionModel>, int), int>(
            (Seq::empty(), end + 1),
        ));
        assert(seq![selection_model(sels[0])] + Seq::<SelectionModel>::empty()
            =~= selection_models(sels));
    } else {
        let rest = sels.drop_first();
        assert(items_text(sels) =~= first + (seq![0x2cu8] + items_text(rest)));
        lemma_holds_parts(s, i, first, seq![0x2cu8] + items_text(rest));
        lemma_holds_parts(s, end, seq![0x2cu8], items_text(rest));
        assert(s[end + 0] == seq![0x2cu8][0]);
        lemma_reads_selection(s, i, sels[0]);
        lemma_skip_to(s, i, i);
        lemma_skip_to(s, end, end);
        assert forall|k: int| 0 <= k < rest.len() implies is_identifier((#[trigger] rest[k]).field) by {
            assert(rest[k] == sels[k + 1]);
        }
        lemma_reads_items(s, end + 1, rest);
        assert(selections_from(s, end) == selections_from(s, end + 1));
        assert(seq![selection_model(sels[0])] + selection_models(rest) =~= selection_models(
            sels,
        ));
    }
}

/// A bound that stands at a position is read back.
proof fn lemma_reads_bound(s: Seq<u8>, i: int, word: Seq<u8>, time: i64, now: i64)
    requires
        0 <= time,
        holds(s, i, word + seq![0x20u8] + decimal(time as nat)),
        ends_or(s, i + word.len() + 1 + decimal(time as nat).len(), 0x20),
    ensures
        bound_at(s, i, word, now) == Ok::<(Option<i64>, int), int>(
            (Some(time), i + word.len() + 1 + decimal(time as nat).len()),
        ),
{
    let digits = decimal(time as nat);
    assert(word + seq![0x20u8] + digits =~= word + (seq![0x20u8] + digits));
    lemma_holds_parts(s, i, word, seq![0x20u8] + digits);
    lemma_holds_parts(s, i + word.len(), seq![0x20u8], digits);
    lemma_holds_prefix(s, i, word);
    let blank = i + word.len();
    assert(s[blank + 0] == seq![0x20u8][0]);
    lemma_decimal_digits(time as nat);
    assert(s[blank + 1 + 0] == digits[0]);
    lemma_skip_to(s, blank, blank + 1);
    lemma_reads_timestamp(s, blank + 1, time, now);
}

/// No bound is read where its keyword does not stand.
proof fn lemma_reads_no_bound(s: Seq<u8>, i: int, word: Seq<u8>, now: i64)
    requires
        word.len() > 0,
        i == s.len() || (0 <= i < s.len() && s[i] != word[0]),
    ensures
        bound_at(s, i, word, now) == Ok::<(Option<i64>, int), int>((None, i)),
{
    if has_prefix(s, i, word) {
        assert(s.subrange(i, i + word.len())[0] == s[i]);
    }
}

/// The canonical text of the bounds without the blank before them.
pub open spec fn range_text(start: Option<i64>, end: Option<i64>) -> Seq<u8> {
    match (start, end) {
        (None, None) => Seq::empty(),
        (Some(a), None) => "after".spec_bytes() + seq![0x20u8] + decimal(a as nat),
        (None, Some(b)) => "before".spec_bytes() + seq![0x20u8] + decimal(b as nat),
        (Some(a), Some(b)) => "after".spec_bytes() + seq![0x20u8] + decimal(a as nat)
            + seq![0x20u8] + ("before".spec_bytes() + seq![0x20u8] + decimal(b as nat)),
    }
}

/// The bounds that end a text are read back.
proof fn lemma_reads_range(s: Seq<u8>, e: int, start: Option<i64>, end: Option<i64>, now: i64)
    requires
        start matches Some(time) ==> 0 <= time,
        end matches Some(time) ==> 0 <= time,
        holds(s, e, range_text(start, end)),
        e + range_text(start, end).len() == s.len(),
    ensures
        time_range_at(s, e, now) == Ok::<(Option<i64>, Option<i64>, int), int>(
            (start, end, s.len() as int),
        ),
{
    lemma_keywords();
    let after = "after".spec_bytes();
    let before = "before".spec_bytes();
    match (start, end) {
        (None, None) => {
            lemma_reads_no_bound(s, e, after, now);
            lemma_skip_to(s, e, e);
            lemma_reads_no_bound(s, e, before, now);
        },
        (Some(a), None) => {
            lemma_reads_bound(s, e, after, a, now);
            lemma_skip_to(s, s.len() as int, s.len() as int);
            lemma_reads_no_bound(s, s.len() as int, before, now);
        },
        (None, Some(b)) => {
            let text = before + seq![0x20u8] + decimal(b as nat);
            assert(text[0] == 0x62);
            assert(s[e + 0] == text[0]);
            lemma_reads_no_bound(s, e, after, now);
            lemma_skip_to(s, e, e);
            lemma_reads_bound(s, e, before, b, now);
        },
        (Some(a), Some(b)) => {
            let first = after + seq![0x20u8] + decimal(a as nat);
            let second = before + seq![0x20u8] + decimal(b as nat);
            assert(range_text(start, end) =~= first + (seq![0x20u8] + second));
            lemma_holds_parts(s, e, first, seq![0x20u8] + second);
            let blank = e + first.len();
            lemma_holds_parts(s, blank, seq![0x20u8], second);
            assert(s[blank + 0] == seq![0x20u8][0]);
            lemma_reads_bound(s, e, after, a, now);
            assert(second[0] == 0x62);
            assert(s[blank + 1 + 0] == second[0]);
            lemma_skip_to(s, blank, blank + 1);
            lemma_reads_bound(s, blank + 1, before, b, now);
        },
    }
}

/// The canonical text of the bounds with the blank before them; nothing
/// for a query without bounds.
pub open spec fn tail_text(start: Option<i64>, end: Option<i64>) -> Seq<u8> {
    if start is None && end is None {
        Seq::empty()
    } else {
        seq![0x20u8] + range_text(start, end)
    }
}

/// The canonical text of a query: `select`, a blank, the series, the list of
/// terms, and the bounds, each as its keyword, a blank and the time in
/// decimal digits, with a blank before it.
pub open spec fn select_text(t: SelectText) -> Seq<u8> {
    "select".spec_bytes() + (seq![0x20u8] + (t.series + (fields_text(t.selections) + tail_text(
        t.start,
        t.end,
    ))))
}

/// Where the bounds of the canonical text of a query start: after the list
/// of terms and the blank that follows it, if bounds follow.
pub open spec fn range_start(t: SelectText) -> int {
    let d = 7 + t.series.len() as int + fields_text(t.selections).len() as int;
    if t.start is None && t.end is None {
        d
    } else {
        d + 1
    }
}

/// Where the parts of the canonical text of a query stand.
proof fn lemma_select_layout(t: SelectText)
    requires
        canonical(t),
    ensures
        ({
            let s = select_text(t);
            let b = 7 + t.series.len() as int;
            let d = b + fields_text(t.selections).len() as int;
            let e = range_start(t);
            &&& holds(s, 0, "select".spec_bytes())
            &&& "select".spec_bytes().len() == 6
            &&& s[6] == 0x20
            &&& holds(s, 7, t.series)
            &&& holds(s, b, fields_text(t.selections))
            &&& holds(s, e, range_text(t.start, t.end))
            &&& e + range_text(t.start, t.end).len() == s.len()
            &&& d < e ==> s[d] == 0x20
            &&& e < s.len() ==> s[e] == 0x61 || s[e] == 0x62
        }),
{
    lemma_keywords();
    let s = select_text(t);
    let keyword = "select".spec_bytes();
    let fields = fields_text(t.selections);
    let tail = tail_text(t.start, t.end);
    let range = range_text(t.start, t.end);
    let b = 7 + t.series.len() as int;
    let d = b + fields.len() as int;
    let after_series = fields + tail;
    let after_blank = t.series + after_series;
    let after_keyword = seq![0x20u8] + after_blank;
    assert(holds(s, 0, keyword + after_keyword));
    lemma_holds_parts(s, 0, keyword, after_keyword);
    lemma_holds_parts(s, 6, seq![0x20u8], after_blank);
    lemma_holds_parts(s, 7, t.series, after_series);
    lemma_holds_parts(s, b, fields, tail);
    assert(s[6int + 0] == seq![0x20u8][0]);
    if tail.len() > 0 {
        lemma_holds_parts(s, d, seq![0x20u8], range);
        assert(s[d + 0] == seq![0x20u8][0]);
        lemma_range_starts(t.start, t.end);
        assert(s[d + 1 + 0] == range[0]);
    }
}

/// The canonical text of bounds starts with the first letter of a keyword.
proof fn lemma_range_starts(start: Option<i64>, end: Option<i64>)
    requires
        start is Some || end is Some,
    ensures
        range_text(start, end).len() > 0,
        range_text(start, end)[0] == 0x61 || range_text(start, end)[0] == 0x62,
{
    lemma_keywords();
}

/// The series and the terms of the canonical text of a query are read back.
proof fn lemma_select_head(t: SelectText)
    requires
        canonical(t),
    ensures
        ({
            let s = select_text(t);
            let b = 7 + t.series.len() as int;
            &&& has_prefix(s, 0, "select".spec_bytes())
            &&& skip_whitespace(s, 6) == 7
            &&& ident_at(s, 7)
            &&& ident_end(s, 7) == b
            &&& s.subrange(7, b) == t.series
            &&& fields_at(s, skip_whitespace(s, b)) matches Ok((models, end)) && models
                == selection_models(t.selections) && skip_whitespace(s, end) == range_start(t)
        }),
{
    let s = select_text(t);
    let b = 7 + t.series.len() as int;
    let d = b + fields_text(t.selections).len() as int;
    let e = range_start(t);
    lemma_select_layout(t);
    lemma_holds_prefix(s, 0, "select".spec_bytes());
    assert(s[7int + 0] == t.series[0]);
    lemma_skip_to(s, 6, 7);
    if t.selections.len() == 0 {
        lemma_reads_identifier(s, 7, t.series);
        lemma_skip_to(s, b, e);
        assert(fields_at(s, e) == Ok::<(Seq<SelectionModel>, int), int>((Seq::empty(), e)));
        lemma_skip_to(s, e, e);
        assert(selection_models(t.selections) =~= Seq::<SelectionModel>::empty());
    } else {
        let items = items_text(t.selections);
        lemma_holds_parts(s, b, seq![0x5bu8], items);
        assert(s[b + 0] == seq![0x5bu8][0]);
        lemma_reads_identifier(s, 7, t.series);
        lemma_skip_to(s, b, b);
        lemma_reads_items(s, b + 1, t.selections);
        lemma_skip_to(s, d, e);
    }
}

/// Statement round trip for queries. The canonical text of a query whose
/// names are identifiers and whose bounds are not negative parses back to
/// that query: no name and no bound is lost.
pub proof fn lemma_select_round_trip(t: SelectText, now: i64)
    requires
        canonical(t),
    ensures
        select_at(select_text(t), now) == Ok::<SelectModel, int>(model_of(t)),
{
    let s = select_text(t);
    lemma_select_layout(t);
    lemma_select_head(t);
    lemma_reads_range(s, range_start(t), t.start, t.end, now);
    lemma_skip_to(s, s.len() as int, s.len() as int);
}

/// The canonical text of the terms holds no capitals.
proof fn lemma_items_small(sels: Seq<SelectionText>)
    requires
        forall|i: int| 0 <= i < sels.len() ==> is_identifier((#[trigger] sels[i]).field),
    ensures
        is_small(items_text(sels)),
    decreases sels.len(),
{
    lemma_keywords();
    if sels.len() > 0 {
        let m = sels[0];
        assert(is_identifier(m.field));
        assert(is_small(m.field)) by {
            assert forall|i: int| 0 <= i < m.field.len() implies (#[trigger] m.field[i]) < 128 && !(
            0x41 <= m.field[i] <= 0x5a) by {
                assert(is_ident_char(m.field[i]));
            }
        }
        assert(is_small(selection_text(m))) by {
            match m.aggregator {
                None => {},
                Some(aggregator) => {
                    assert(is_small(aggregator_word(aggregator)));
                },
            }
        }
        if sels.len() > 1 {
            let rest = sels.drop_first();
            assert forall|i: int| 0 <= i < rest.len() implies is_identifier(
                (#[trigger] rest[i]).field,
            ) by {
                assert(rest[i] == sels[i + 1]);
            }
            lemma_items_small(rest);
        }
    }
}

/// The canonical text of the bounds holds no capitals.
proof fn lemma_tail_small(start: Option<i64>, end: Option<i64>)
    requires
        start matches Some(time) ==> 0 <= time,
        end matches Some(time) ==> 0 <= time,
    ensures
        is_small(tail_text(start, end)),
{
    lemma_keywords();
    match start {
        Some(a) => {
            lemma_decimal_digits(a as nat);
            assert(is_small(decimal(a as nat)));
        },
        None => {},
    }
    match end {
        Some(b) => {
            lemma_decimal_digits(b as nat);
            assert(is_small(decimal(b as nat)));
        },
        None => {},
    }
    assert(is_small("after".spec_bytes()));
    assert(is_small("before".spec_bytes()));
    assert(is_small(range_text(start, end)));
}

/// Statement round trip for queries, through the lowering of the parser:
/// the canonical text of a query holds no capitals, so the parser scans it
/// as it is written and reads the query back from it.
pub proof fn lemma_select_statement_round_trip(t: SelectText, now: i64)
    requires
        canonical(t),
    ensures
        is_small(select_text(t)),
        select_at(lowered(ascii_text(select_text(t))), now) == Ok::<SelectModel, int>(
            model_of(t),
        ),
{
    lemma_keywords();
    lemma_items_small(t.selections);
    lemma_tail_small(t.start, t.end);
    assert(is_small(t.series)) by {
        assert forall|i: int| 0 <= i < t.series.len() implies (#[trigger] t.series[i]) < 128 && !(
        0x41 <= t.series[i] <= 0x5a) by {
            assert(is_ident_char(t.series[i]));
        }
    }
    assert(is_small("select".spec_bytes()));
    assert(is_small(fields_text(t.selections)));
    let rest = fields_text(t.selections) + tail_text(t.start, t.end);
    assert(is_small(rest));
    assert(is_small(t.series + rest));
    assert(is_small(seq![0x20u8] + (t.series + rest)));
    lemma_small_text_is_lowered(select_text(t));
    lemma_select_round_trip(t, now);
}

/// A term as it is written, for a term that is a field or an aggregator
/// round a field.
pub open spec fn selection_as_text(selection: Selection) -> Option<SelectionText> {
    match selection {
        Selection::Field(name) => Some(
            SelectionText { aggregator: None, field: vstd::utf8::encode_utf8(name@) },
        ),
        Selection::Expression(inner) => match inner.expression {
            Selection::Field(name) => Some(
                SelectionText {
                    aggregator: Some(inner.aggregator),
                    field: vstd::utf8::encode_utf8(name@),
                },
            ),
            Selection::Expression(_) => None,
        },
    }
}

/// A query as it is written, with every term that can be written.
pub open spec fn query_as_text(query: SelectQuery) -> SelectText {
    SelectText {
        series: vstd::utf8::encode_utf8(query.series@),
        selections: Seq::new(
            query.selections@.len(),
            |i: int|
                match selection_as_text(query.selections@[i]) {
                    Some(text) => text,
                    None => SelectionText { aggregator: None, field: Seq::empty() },
                },
        ),
        start: query.start,
        end: query.end,
    }
}

/// The query has a canonical text: each of its terms is a field or an
/// aggregator round a field, its names are identifiers and its bounds are
/// not negative.
pub open spec fn writable(query: SelectQuery) -> bool {
    &&& forall|i: int|
        0 <= i < query.selections@.len() ==> selection_as_text(#[trigger] query.selections@[i])
            is Some
    &&& canonical(query_as_text(query))
}

/// A name that is an identifier is the text of its bytes.
proof fn lemma_identifier_text(name: Seq<char>)
    requires
        is_identifier(vstd::utf8::encode_utf8(name)),
    ensures
        ascii_text(vstd::utf8::encode_utf8(name)) == name,
{
    let bytes = vstd::utf8::encode_utf8(name);
    assert(is_ascii_bytes(bytes)) by {
        assert forall|i: int| 0 <= i < bytes.len() implies #[trigger] bytes[i] < 128 by {
            assert(is_ident_char(bytes[i]));
        }
    }
    lemma_ascii_text(bytes);
    vstd::utf8::encode_utf8_decode_utf8(name);
}

/// Statement round trip for queries, from a query to its text and back. The
/// canonical text of a query that has one parses back to the same query:
/// the series, every term and both bounds.
pub proof fn lemma_query_text_round_trip(query: SelectQuery, now: i64)
    requires
        writable(query),
    ensures
        select_at(select_text(query_as_text(query)), now) matches Ok(model)
            && query.matches_model(model),
{
    let t = query_as_text(query);
    lemma_select_round_trip(t, now);
    lemma_identifier_text(query.series@);
    assert forall|i: int| 0 <= i < query.selections@.len() implies (
    #[trigger] query.selections@[i]).matches_model(model_of(t).selections[i]) by {
        assert(selection_as_text(query.selections@[i]) is Some);
        assert(is_identifier(t.selections[i].field));
        match query.selections@[i] {
            Selection::Field(name) => {
                lemma_identifier_text(name@);
            },
            Selection::Expression(inner) => {
                match inner.expression {
                    Selection::Field(name) => {
                        lemma_identifier_text(name@);
                    },
                    Selection::Expression(_) => {},
                }
            },
        }
    }
}

/// Whether the bytes are an identifier.
pub fn is_identifier_bytes(name: &[u8]) -> (r: bool)
    ensures
        r == is_identifier(name@),
{
    if name.len() == 0 || name[0] < 0x61 || name[0] > 0x7a {
        return false;
    }
    let mut i: usize = 0;
    while i < name.len()
        invariant
            i <= name@.len(),
            forall|j: int| 0 <= j < i ==> is_ident_char(#[trigger] name@[j]),
        decreases name.len() - i,
    {
        let b = name[i];
        if !((0x61 <= b && b <= 0x7a) || (0x30 <= b && b <= 0x39) || b == 0x5f || b == 0x2d) {
            return false;
        }
        i += 1;
    }
    true
}

/// Appends the decimal digits of `n`.
pub fn push_decimal(out: &mut Vec<u8>, n: u64)
    ensures
        final(out)@ == old(out)@ + decimal(n as nat),
    decreases n,
{
    if n >= 10 {
        push_decimal(out, n / 10);
    }
    out.push(0x30 + (n % 10) as u8);
    assert(out@ =~= old(out)@ + decimal(n as nat));
}

/// Appends the bytes.
fn push_all(out: &mut Vec<u8>, bytes: &[u8])
    ensures
        final(out)@ == old(out)@ + bytes@,
{
    let mut i: usize = 0;
    while i < bytes.len()
        invariant
            i <= bytes@.len(),
            out@ == old(out)@ + bytes@.take(i as int),
        decreases bytes.len() - i,
    {
        out.push(bytes[i]);
        assert(out@ =~= old(out)@ + bytes@.take(i as int + 1));
        i += 1;
    }
    assert(bytes@.take(bytes@.len() as int) =~= bytes@);
}

/// The canonical text of a bound's keyword, a blank and the time.
fn push_bound(out: &mut Vec<u8>, word: &str, time: i64)
    requires
        0 <= time,
    ensures
        final(out)@ == old(out)@ + (word.spec_bytes() + seq![0x20u8] + decimal(time as nat)),
{
    push_all(out, word.as_bytes());
    out.push(0x20);
    push_decimal(out, time as u64);
    assert(out@ =~= old(out)@ + (word.spec_bytes() + seq![0x20u8] + decimal(time as nat)));
}

/// The canonical text of a term, if it has one.
fn selection_statement(selection: &Selection) -> (r: Option<Vec<u8>>)
    ensures
        match r {
            Some(text) => selection_as_text(*selection) matches Some(t) && is_identifier(t.field)
                && text@ == selection_text(t),
            None => !(selection_as_text(*selection) matches Some(t) && is_identifier(t.field)),
        },
{
    let mut text: Vec<u8> = Vec::new();
    match selection {
        Selection::Field(name) => {
            if !is_identifier_bytes(name.as_str().as_bytes()) {
                return None;
            }
            push_all(&mut text, name.as_str().as_bytes());
            Some(text)
        },
        Selection::Expression(inner) => match &inner.expression {
            Selection::Field(name) => {
                if !is_identifier_bytes(name.as_str().as_bytes()) {
                    return None;
                }
                let word = match inner.aggregator {
                    Aggregation::Last => "last(",
                    Aggregation::Mean => "mean(",
                    Aggregation::Max => "max(",
                    Aggregation::Min => "min(",
                    Aggregation::First => "first(",
                };
                push_all(&mut text, word.as_bytes());
                push_all(&mut text, name.as_str().as_bytes());
                text.push(0x29);
                assert(text@ =~= aggregator_word(inner.aggregator) + vstd::utf8::encode_utf8(
                    name@,
                ) + seq![0x29u8]);
                Some(text)
            },
            Selection::Expression(_) => None,
        },
    }
}

/// The canonical text of the terms from `from` on and the closing bracket.
fn items_statement(selections: &Vec<Selection>, from: usize) -> (r: Option<Vec<u8>>)
    requires
        from <= selections@.len(),
    ensures
        ({
            let texts = query_terms(selections@).skip(from as int);
            let fine = forall|i: int|
                from <= i < selections@.len() ==> selection_as_text(#[trigger] selections@[i])
                    is Some && is_identifier(query_terms(selections@)[i].field);
            match r {
                Some(text) => fine && text@ == items_text(texts),
                None => !fine,
            }
        }),
    decreases selections@.len() - from,
{
    let ghost texts = query_terms(selections@).skip(from as int);
    if from == selections.len() {
        let mut text: Vec<u8> = Vec::new();
        text.push(0x5d);
        return Some(text);
    }
    let first = match selection_statement(&selections[from]) {
        Some(first) => first,
        None => {
            return None;
        },
    };
    let rest = match items_statement(selections, from + 1) {
        Some(rest) => rest,
        None => {
            return None;
        },
    };
    let mut text = first;
    proof {
        assert(texts[0] == query_terms(selections@)[from as int]);
        assert(texts.drop_first() =~= query_terms(selections@).skip(from + 1));
    }
    if from + 1 < selections.len() {
        text.push(0x2c);
    }
    push_all(&mut text, rest.as_slice());
    proof {
        if from + 1 == selections@.len() {
            assert(texts.len() == 1);
            assert(rest@ =~= seq![0x5du8]);
        }
        assert(text@ =~= items_text(texts));
    }
    Some(text)
}

/// The terms of a query as they are written.
pub open spec fn query_terms(selections: Seq<Selection>) -> Seq<SelectionText> {
    Seq::new(
        selections.len(),
        |i: int|
            match selection_as_text(selections[i]) {
                Some(text) => text,
                None => SelectionText { aggregator: None, field: Seq::empty() },
            },
    )
}

/// The canonical text of a query, for a query that has one: `select`, the
/// series, the terms in brackets, and the bounds after `after` and `before`.
pub fn select_statement(query: &SelectQuery) -> (r: Option<Vec<u8>>)
    ensures
        match r {
            Some(text) => writable(*query) && text@ == select_text(query_as_text(*query)),
            None => !writable(*query),
        },
{
    let ghost t = query_as_text(*query);
    assert(t.selections =~= query_terms(query.selections@));
    if !is_identifier_bytes(query.series.as_str().as_bytes()) {
        return None;
    }
    match query.start {
        Some(time) => {
            if time < 0 {
                return None;
            }
        },
        None => {},
    }
    match query.end {
        Some(time) => {
            if time < 0 {
                return None;
            }
        },
        None => {},
    }
    let items = match items_statement(&query.selections, 0) {
        Some(items) => items,
        None => {
            return None;
        },
    };
    assert(query_terms(query.selections@).skip(0) =~= t.selections);
    let mut fields: Vec<u8> = Vec::new();
    if query.selections.len() > 0 {
        fields.push(0x5b);
        push_all(&mut fields, items.as_slice());
    }
    assert(fields@ =~= fields_text(t.selections));
    let mut range: Vec<u8> = Vec::new();
    match (query.start, query.end) {
        (None, None) => {},
        (Some(a), None) => {
            push_bound(&mut range, "after", a);
        },
        (None, Some(b)) => {
            push_bound(&mut range, "before", b);
        },
        (Some(a), Some(b)) => {
            push_bound(&mut range, "after", a);
            range.push(0x20);
            push_bound(&mut range, "before", b);
        },
    }
    assert(range@ =~= range_text(t.start, t.end));
    let mut tail: Vec<u8> = Vec::new();
    if query.start.is_some() || query.end.is_some() {
        tail.push(0x20);
        push_all(&mut tail, range.as_slice());
    }
    assert(tail@ =~= tail_text(t.start, t.end));
    let mut text: Vec<u8> = Vec::new();
    push_all(&mut text, "select".as_bytes());
    text.push(0x20);
    push_all(&mut text, query.series.as_str().as_bytes());
    push_all(&mut text, fields.as_slice());
    push_all(&mut text, tail.as_slice());
    assert(text@ =~= select_text(t));
    Some(text)
}

} // verus!
