use rtdb::lang::util::{
    advance_whitespace, parse_ascii, parse_identifier, parse_timestamp, parse_timestamp_at,
};
use rtdb::util::{arg_min_all2, new_timestamp, timestamp_nanos};

#[test]
fn compile() {}

#[test]
fn advances_whitespace() {
    let mut index = 0;

    advance_whitespace(b"a test", &mut index);
    assert_eq!(index, 0);

    advance_whitespace(b"   test", &mut index);
    assert_eq!(index, 3);

    advance_whitespace(b"   \ttest", &mut index);
    assert_eq!(index, 4);

    advance_whitespace(b"    \ntest", &mut index);
    assert_eq!(index, 5);

    advance_whitespace(b"   test", &mut index);
    assert_eq!(index, 5);

    advance_whitespace(b"      ", &mut index);
    assert_eq!(index, 6);
}

#[test]
fn whitespace_is_the_five_ascii_blanks() {
    let mut index = 0;
    advance_whitespace(b" \t\n\x0c\rx", &mut index);
    assert_eq!(index, 5);

    // a vertical tab is no whitespace
    let mut index = 0;
    advance_whitespace(b"\x0bx", &mut index);
    assert_eq!(index, 0);

    // an index past the end stays where it is
    let mut index = 9;
    advance_whitespace(b"  ", &mut index);
    assert_eq!(index, 9);
}

#[test]
fn parses_ascii() {
    let mut index = 0;

    assert_eq!(parse_ascii("test", b"a test", &mut index), false);
    assert_eq!(index, 0);

    assert_eq!(parse_ascii("a", b"a test", &mut index), true);
    assert_eq!(index, 1);

    assert_eq!(parse_ascii(" test ", b"a test", &mut index), false);
    assert_eq!(index, 1);
}

#[test]
fn parses_ascii_at_the_end() {
    let mut index = 2;
    assert_eq!(parse_ascii("test", b"a test", &mut index), true);
    assert_eq!(index, 6);

    // nothing is left, and nothing is read past the end
    assert_eq!(parse_ascii("t", b"a test", &mut index), false);
    assert_eq!(index, 6);
    let mut index = 7;
    assert_eq!(parse_ascii("t", b"a test", &mut index), false);
    assert_eq!(index, 7);
}

#[test]
fn parses_timestamps() {
    let mut index = 0;
    assert_eq!(parse_timestamp(b"", &mut index), None);

    let mut index = 0;
    assert_eq!(parse_timestamp(b"1665877689000000", &mut index).unwrap(), 1665877689000000i64);

    let mut index = 0;
    assert!(parse_timestamp(b"now()", &mut index).unwrap() > new_timestamp() - 1_000_000);
}

#[test]
fn timestamp_takes_the_clock_for_now() {
    let mut index = 1;
    assert_eq!(parse_timestamp_at(b" now() ", &mut index, 42), Some(42));
    assert_eq!(index, 6);
}

#[test]
fn timestamp_stops_at_the_first_other_byte() {
    let mut index = 2;
    assert_eq!(parse_timestamp_at(b"t=120 x", &mut index, 0), Some(120));
    assert_eq!(index, 5);
}

#[test]
fn timestamp_must_fit_63_bits() {
    let mut index = 0;
    assert_eq!(
        parse_timestamp_at(b"9223372036854775807", &mut index, 0),
        Some(9223372036854775807)
    );
    assert_eq!(index, 19);

    let mut index = 0;
    assert_eq!(parse_timestamp_at(b"9223372036854775808", &mut index, 0), None);
    assert_eq!(index, 0);

    let mut index = 0;
    assert_eq!(parse_timestamp_at(b"99999999999999999999999", &mut index, 0), None);
    assert_eq!(index, 0);

    let mut index = 0;
    assert_eq!(parse_timestamp_at(b"-5", &mut index, 0), None);
    assert_eq!(index, 0);
}

#[test]
fn util_parses_identifier() {
    let mut index = 0;

    let (parsed, ident) = parse_identifier(b"test_series,value1=1", &mut index);
    assert_eq!(parsed, true);
    assert_eq!(ident, "test_series");
    assert_eq!(index, 11);

    index += 1; // step past comma
    let (parsed, ident) = parse_identifier(b"test_series,value1=1", &mut index);
    assert_eq!(parsed, true);
    assert_eq!(ident, "value1");
    assert_eq!(index, 18);

    let (parsed, _ident) = parse_identifier(b"test_series,value1=1 12345", &mut index);
    assert_eq!(parsed, false);
    assert_eq!(index, 18);

    let mut index = 0;
    let (parsed, _ident) = parse_identifier(b"1identifiers_cannot_start_with_number", &mut index);
    assert_eq!(parsed, false);
    assert_eq!(index, 0);

    let mut index = 0;
    let (parsed, ident) = parse_identifier(b"name-with_ch4rs", &mut index);
    assert_eq!(parsed, true);
    assert_eq!(ident, "name-with_ch4rs");
    assert_eq!(index, 15);
}

#[test]
fn identifier_past_the_end_is_none() {
    let mut index = 3;
    let (parsed, ident) = parse_identifier(b"abc", &mut index);
    assert_eq!(parsed, false);
    assert_eq!(ident, "");
    assert_eq!(index, 3);
}

#[test]
fn identifier_stops_at_a_capital() {
    let mut index = 0;
    let (parsed, ident) = parse_identifier(b"abCd", &mut index);
    assert_eq!(parsed, true);
    assert_eq!(ident, "ab");
    assert_eq!(index, 2);
}

#[test]
fn test_arg_min_all2() {
    assert_eq!(arg_min_all2(&vec![1, 1, 1]), (1, vec![0, 1, 2]));
    assert_eq!(arg_min_all2(&vec![2, 1, 3]), (1, vec![1]));
    assert_eq!(arg_min_all2(&vec![1, 1, 3]), (1, vec![0, 1]));
}

#[test]
fn arg_min_of_one_value_and_of_negatives() {
    assert_eq!(arg_min_all2(&vec![7]), (7, vec![0]));
    assert_eq!(arg_min_all2(&vec![3, -4, 9, -4, i64::MIN]), (i64::MIN, vec![4]));
}

#[test]
fn the_clock_does_not_run_backwards_by_much() {
    let before = new_timestamp();
    let after = timestamp_nanos();
    assert!(after >= before - 1_000_000_000);
    // later than the first of January 2020
    assert!(before > 1_577_836_800_000_000_000);
}
