use rtdb::lang::query::read_select;
use rtdb::lang::ParseFailure;

fn parse_select_at(statement: &str, now: i64) -> Result<SelectQuery, ParseFailure> {
    let mut input = String::from(statement);
    rtdb::lang::query::parse_select_at(&mut input, now)
}
use rtdb::lang::round_trip::{is_identifier_bytes, push_decimal, select_statement};
use rtdb::lang::{Aggregation, SelectExpression, SelectQuery, Selection};
use rtdb::storage::data_parser::DataParser;
use rtdb::wire_protocol::query::estimate_mem;
use rtdb::wire_protocol::{DataType, FieldDescription};

fn field(name: &str) -> Selection {
    Selection::Field(String::from(name))
}

fn aggregate(name: &str, aggregator: Aggregation) -> Selection {
    Selection::Expression(Box::new(SelectExpression { expression: field(name), aggregator }))
}

fn query(
    series: &str,
    selections: Vec<Selection>,
    start: Option<i64>,
    end: Option<i64>,
) -> SelectQuery {
    SelectQuery { series: String::from(series), selections, start, end }
}

fn text_of(query: &SelectQuery) -> String {
    String::from_utf8(select_statement(query).unwrap()).unwrap()
}

#[test]
fn a_query_is_written_in_its_canonical_form() {
    assert_eq!(text_of(&query("test_series", vec![], None, None)), "select test_series");
    assert_eq!(
        text_of(&query(
            "test_series",
            vec![
                aggregate("v1", Aggregation::Min),
                field("v2"),
                aggregate("v3", Aggregation::First),
                aggregate("v4", Aggregation::Last),
                aggregate("v5", Aggregation::Max),
                aggregate("v6", Aggregation::Mean),
            ],
            Some(1663226470079106890),
            Some(1663226470079106895)
        )),
        "select test_series[min(v1),v2,first(v3),last(v4),max(v5),mean(v6)] after 1663226470079106890 before 1663226470079106895"
    );
    assert_eq!(text_of(&query("s", vec![field("a")], None, Some(0))), "select s[a] before 0");
    assert_eq!(text_of(&query("s", vec![], Some(10), None)), "select s after 10");
}

#[test]
fn a_written_query_parses_back_to_itself() {
    let queries = vec![
        query("test_series", vec![], None, None),
        query("s", vec![field("last"), field("min-max_1")], None, None),
        query("a-b_c9", vec![aggregate("v", Aggregation::Mean)], Some(0), Some(i64::MAX)),
        query("s", vec![field("x"), aggregate("x", Aggregation::Last)], None, Some(12)),
        query("s", vec![], Some(7), None),
    ];
    for q in queries {
        let bytes = select_statement(&q).unwrap();
        assert_eq!(read_select(&bytes, -1).as_ref(), Ok(&q));
        let text = text_of(&q);
        assert_eq!(parse_select_at(&text, -1), Ok(q));
    }
}

#[test]
fn a_parsed_statement_survives_writing_and_parsing() {
    let statements = [
        "SELECT test_series",
        "SELECT test_series[value1, value2]",
        "SELECT test_series[ value1 ,  mean(value2) ] ",
        "SELECT test_series[min(v1), max(v2), mean(v3)] AFTER 1663226470079106890 BEFORE 1663226470079106895",
        "select  s   before   5",
    ];
    for statement in statements {
        let parsed = parse_select_at(statement, 3).unwrap();
        let written = text_of(&parsed);
        assert_eq!(parse_select_at(&written, 3), Ok(parsed));
    }
}

#[test]
fn a_query_that_cannot_be_read_back_is_not_written() {
    // a name that is no identifier
    assert_eq!(select_statement(&query("Series", vec![], None, None)), None);
    assert_eq!(select_statement(&query("", vec![], None, None)), None);
    assert_eq!(select_statement(&query("s", vec![field("1a")], None, None)), None);
    assert_eq!(select_statement(&query("s", vec![field("a b")], None, None)), None);
    // a bound before the epoch
    assert_eq!(select_statement(&query("s", vec![], Some(-1), None)), None);
    assert_eq!(select_statement(&query("s", vec![], None, Some(-1))), None);
    // an aggregate of an aggregate
    let nested = Selection::Expression(Box::new(SelectExpression {
        expression: aggregate("a", Aggregation::Min),
        aggregator: Aggregation::Max,
    }));
    assert_eq!(select_statement(&query("s", vec![nested], None, None)), None);
}

#[test]
fn identifiers_and_decimals() {
    assert!(is_identifier_bytes(b"a"));
    assert!(is_identifier_bytes(b"name-with_ch4rs"));
    assert!(!is_identifier_bytes(b""));
    assert!(!is_identifier_bytes(b"_a"));
    assert!(!is_identifier_bytes(b"9a"));
    assert!(!is_identifier_bytes(b"aB"));
    assert!(!is_identifier_bytes(b"a,"));

    let mut out = vec![b'x'];
    push_decimal(&mut out, 0);
    push_decimal(&mut out, 907);
    push_decimal(&mut out, u64::MAX);
    assert_eq!(out, b"x090718446744073709551615".to_vec());
}

#[test]
fn data_parser_takes_the_pieces_that_a_comma_ends() {
    let mut parser = DataParser::new();
    assert_eq!(
        parser.parse("1.5,22,-3,"),
        vec![b"1.5".to_vec(), b"22".to_vec(), b"-3".to_vec()]
    );
    // what follows the last comma is left out
    assert_eq!(parser.parse("1,2,3"), vec![b"1".to_vec(), b"2".to_vec()]);
    assert_eq!(parser.parse(",,a,"), vec![vec![], vec![], b"a".to_vec()]);
    assert_eq!(parser.parse(""), Vec::<Vec<u8>>::new());
    assert_eq!(parser.parse("abc"), Vec::<Vec<u8>>::new());
}

#[test]
fn memory_estimate_is_the_stated_sum() {
    let fields = vec![
        FieldDescription { name: String::from("field1"), data_type: DataType::Float },
        FieldDescription { name: String::from("up"), data_type: DataType::Bool },
        FieldDescription { name: String::from("seen"), data_type: DataType::Timestamp },
    ];
    // 32 + 6 + 16 rows, 32 + 2 + 9 rows, 32 + 4 + 16 rows
    assert_eq!(estimate_mem(&fields, 0), 38 + 34 + 36);
    assert_eq!(estimate_mem(&fields, 10), 38 + 160 + 34 + 90 + 36 + 160);
    assert_eq!(estimate_mem(&vec![], 1000), 0);
    assert_eq!(estimate_mem(&fields, usize::MAX), usize::MAX);
    assert_eq!(estimate_mem(&fields, usize::MAX / 16), usize::MAX);
}
