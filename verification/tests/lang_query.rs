use rtdb::lang::insert::Insertion;
use rtdb::lang::query::{
    parse_field_selection, parse_fields, parse_time_range, parse_time_range_at, read_select,
};
use rtdb::lang::{
    Action, Aggregation, ParseFailure, SelectExpression, SelectQuery, Selection,
};

fn parse_select(statement: &str) -> Result<SelectQuery, ParseFailure> {
    let mut input = String::from(statement);
    rtdb::lang::query::parse_select(&mut input)
}

fn parse_select_at(statement: &str, now: i64) -> Result<SelectQuery, ParseFailure> {
    let mut input = String::from(statement);
    rtdb::lang::query::parse_select_at(&mut input, now)
}

fn parse_statement(statement: &str) -> Result<Action, ParseFailure> {
    let mut input = String::from(statement);
    rtdb::lang::parse_statement(&mut input)
}

fn parse_statement_at(statement: &str, now: i64) -> Result<Action, ParseFailure> {
    let mut input = String::from(statement);
    rtdb::lang::parse_statement_at(&mut input, now)
}

fn field(name: &str) -> Selection {
    Selection::Field(String::from(name))
}

fn aggregate(name: &str, aggregator: Aggregation) -> Selection {
    Selection::Expression(Box::new(SelectExpression { expression: field(name), aggregator }))
}

fn query(
    series: &str,
    selections: Vec<Selection>,
    start: Option<i64>,
    end: Option<i64>,
) -> SelectQuery {
    SelectQuery { series: String::from(series), selections, start, end }
}

#[test]
fn query_time_range() {
    let input = "after 1663226470079106890".as_bytes();
    let mut query = query("test_series", vec![], None, None);
    let mut index = 0;

    parse_time_range(input, &mut index, &mut query).unwrap();
    assert_eq!(query.start, Some(1663226470079106890));
    assert_eq!(query.end, None);
    assert_eq!(index, 25);
}

#[test]
fn time_range() {
    let input = "after 1663226470079106890".as_bytes();
    let mut query = query("test_series", vec![], None, None);
    let mut index = 0;

    parse_time_range(input, &mut index, &mut query).unwrap()
}

#[test]
fn time_range_keeps_a_bound_that_is_not_given() {
    let mut q = query("s", vec![], Some(1), Some(2));
    let mut index = 0;
    parse_time_range_at(b"before 9", &mut index, &mut q, 0).unwrap();
    assert_eq!(q.start, Some(1));
    assert_eq!(q.end, Some(9));
    assert_eq!(index, 8);

    let mut q = query("s", vec![], Some(1), Some(2));
    let mut index = 0;
    parse_time_range_at(b"", &mut index, &mut q, 0).unwrap();
    assert_eq!(q.start, Some(1));
    assert_eq!(q.end, Some(2));
    assert_eq!(index, 0);
}

#[test]
fn time_range_without_a_timestamp_fails_and_changes_nothing() {
    let mut q = query("s", vec![], Some(1), None);
    let mut index = 0;
    assert_eq!(
        parse_time_range_at(b"after 5 before x", &mut index, &mut q, 0),
        Err(ParseFailure { position: 15 })
    );
    assert_eq!(q.start, Some(1));
    assert_eq!(q.end, None);
    assert_eq!(index, 0);
}

#[test]
fn select_query_simple() {
    let mut input = String::from("SELECT test_series");
    let query1 = rtdb::lang::query::parse_select(&mut input).unwrap();
    assert_eq!(query1, query("test_series", vec![], None, None));

    let mut input = String::from("SELECT test_series[value1, value2]");
    let query2 = rtdb::lang::query::parse_select(&mut input).unwrap();
    assert_eq!(query2, query("test_series", vec![field("value1"), field("value2")], None, None));
}

#[test]
fn the_statement_is_lowered_in_place() {
    let mut input = String::from("SELECT Test_Series[Value1]");
    let parsed = rtdb::lang::query::parse_select(&mut input).unwrap();
    assert_eq!(input, "select test_series[value1]");
    assert_eq!(parsed, query("test_series", vec![field("value1")], None, None));

    // a statement that is refused is lowered all the same, and only ASCII letters are
    let mut input = String::from("SELECT \u{c9}T\u{c9}");
    assert_eq!(
        rtdb::lang::query::parse_select_at(&mut input, 0),
        Err(ParseFailure { position: 7 })
    );
    assert_eq!(input, "select \u{c9}t\u{c9}");

    let mut input = String::from("INSERT Cpu,Load=TRUE 5");
    let insertion: Insertion = rtdb::lang::insert::parse_insert(&mut input).unwrap();
    assert_eq!(input, "insert cpu,load=true 5");
    assert_eq!(insertion.series, "cpu");

    let mut input = String::from("Select S After NOW()");
    let action = rtdb::lang::parse_statement_at(&mut input, 3).unwrap();
    assert_eq!(input, "select s after now()");
    assert_eq!(action, Action::Select(query("s", vec![], Some(3), None)));

    let mut input = String::from("DROP It");
    assert_eq!(rtdb::lang::parse_statement(&mut input), Err(ParseFailure { position: 0 }));
    assert_eq!(input, "drop it");
}

#[test]
fn bytes_in_lower_case_are_read_as_they_are() {
    assert_eq!(
        read_select(b"select s[a] after 5", 0),
        Ok(query("s", vec![field("a")], Some(5), None))
    );
    // capitals are no part of the language once the statement is lowered
    assert_eq!(read_select(b"SELECT s", 0), Err(ParseFailure { position: 0 }));
    assert_eq!(read_select(b"select S", 0), Err(ParseFailure { position: 7 }));
}

#[test]
fn select_query_timestamps() {
    let parsed = parse_select("SELECT test_series AFTER 1663226470079106890").unwrap();
    assert_eq!(parsed, query("test_series", vec![], Some(1663226470079106890), None));

    let parsed =
        parse_select("SELECT test_series[value1, value2] AFTER 1663226470079106890").unwrap();
    assert_eq!(
        parsed,
        query(
            "test_series",
            vec![field("value1"), field("value2")],
            Some(1663226470079106890),
            None
        )
    );

    let parsed =
        parse_select("SELECT test_series[value1, value2] BEFORE 1663226470079106895").unwrap();
    assert_eq!(
        parsed,
        query(
            "test_series",
            vec![field("value1"), field("value2")],
            None,
            Some(1663226470079106895)
        )
    );

    let parsed = parse_select(
        "SELECT test_series[value1, value2] AFTER 1663226470079106890 BEFORE 1663226470079106895",
    )
    .unwrap();
    assert_eq!(
        parsed,
        query(
            "test_series",
            vec![field("value1"), field("value2")],
            Some(1663226470079106890),
            Some(1663226470079106895)
        )
    );
}

#[test]
fn select_query() {
    let parsed = parse_select("SELECT test_series").unwrap();
    assert_eq!(parsed, query("test_series", vec![], None, None));

    let parsed = parse_select("SELECT test_series[value1, value2]").unwrap();
    assert_eq!(parsed, query("test_series", vec![field("value1"), field("value2")], None, None));

    let parsed =
        parse_select("SELECT test_series[value1, value2] AFTER 1663226470079106890").unwrap();
    assert_eq!(
        parsed,
        query(
            "test_series",
            vec![field("value1"), field("value2")],
            Some(1663226470079106890),
            None
        )
    );

    let parsed =
        parse_select("SELECT test_series[value1, value2] BEFORE 1663226470079106895").unwrap();
    assert_eq!(
        parsed,
        query(
            "test_series",
            vec![field("value1"), field("value2")],
            None,
            Some(1663226470079106895)
        )
    );

    let parsed = parse_select(
        "SELECT test_series[value1, value2] AFTER 1663226470079106890 BEFORE 1663226470079106895",
    )
    .unwrap();
    assert_eq!(
        parsed,
        query(
            "test_series",
            vec![field("value1"), field("value2")],
            Some(1663226470079106890),
            Some(1663226470079106895)
        )
    );
}

#[test]
fn select_query_aggregator() {
    let parsed = parse_select("SELECT test_series").unwrap();
    assert_eq!(parsed, query("test_series", vec![], None, None));

    let parsed = parse_select("SELECT test_series[last(value1), value2]").unwrap();
    assert_eq!(
        parsed,
        query(
            "test_series",
            vec![aggregate("value1", Aggregation::Last), field("value2")],
            None,
            None
        )
    );

    let parsed = parse_select("SELECT test_series[ value1 ,  mean(value2) ] ").unwrap();
    assert_eq!(
        parsed,
        query(
            "test_series",
            vec![field("value1"), aggregate("value2", Aggregation::Mean)],
            None,
            None
        )
    );

    let parsed =
        parse_select("SELECT test_series[min(value1), max(value2), mean(value3)]").unwrap();
    assert_eq!(
        parsed,
        query(
            "test_series",
            vec![
                aggregate("value1", Aggregation::Min),
                aggregate("value2", Aggregation::Max),
                aggregate("value3", Aggregation::Mean),
            ],
            None,
            None
        )
    );
}

#[test]
fn select_with_aggregators_and_range() {
    let parsed = parse_select(
        "SELECT test_series[min(v1), max(v2), mean(v3)] AFTER 1663226470079106890 BEFORE 1663226470079106895",
    )
    .unwrap();
    assert_eq!(
        parsed,
        query(
            "test_series",
            vec![
                aggregate("v1", Aggregation::Min),
                aggregate("v2", Aggregation::Max),
                aggregate("v3", Aggregation::Mean),
            ],
            Some(1663226470079106890),
            Some(1663226470079106895)
        )
    );
}

#[test]
fn select_knows_first_and_a_field_named_like_an_aggregator() {
    let parsed = parse_select("select s[first(a), last, min]").unwrap();
    assert_eq!(
        parsed,
        query(
            "s",
            vec![aggregate("a", Aggregation::First), field("last"), field("min")],
            None,
            None
        )
    );
}

#[test]
fn select_resolves_now_to_the_clock() {
    let parsed = parse_select_at("select s after now() before NOW()", 77).unwrap();
    assert_eq!(parsed, query("s", vec![], Some(77), Some(77)));
}

#[test]
fn select_failures_name_the_position() {
    // no keyword
    assert_eq!(parse_select("SELEKT s"), Err(ParseFailure { position: 0 }));
    // no series
    assert_eq!(parse_select("select "), Err(ParseFailure { position: 7 }));
    assert_eq!(parse_select("select 1s"), Err(ParseFailure { position: 7 }));
    // an unknown aggregator
    assert_eq!(parse_select("select s[median(v1)]"), Err(ParseFailure { position: 15 }));
    // brackets that do not match
    assert_eq!(parse_select("select s[v1, v2"), Err(ParseFailure { position: 15 }));
    assert_eq!(parse_select("select s[mean(v1]"), Err(ParseFailure { position: 16 }));
    assert_eq!(parse_select("select s[mean()]"), Err(ParseFailure { position: 14 }));
    // a bound without a timestamp
    assert_eq!(parse_select("select s after soon"), Err(ParseFailure { position: 15 }));
    // something left over
    assert_eq!(parse_select("select s before 5 after 3"), Err(ParseFailure { position: 18 }));
}

#[test]
fn field_selection_moves_only_on_success() {
    let mut index = 2;
    let selection = parse_field_selection(b"[ max(load) ]", &mut index).unwrap();
    assert_eq!(selection, aggregate("load", Aggregation::Max));
    assert_eq!(index, 11);

    let mut index = 2;
    assert_eq!(
        parse_field_selection(b"[ max(load ]", &mut index),
        Err(ParseFailure { position: 10 })
    );
    assert_eq!(index, 2);
}

#[test]
fn fields_without_a_bracket_are_none() {
    let mut index = 0;
    let mut fields = vec![field("kept")];
    parse_fields(b"after 5", &mut index, &mut fields).unwrap();
    assert_eq!(fields, vec![field("kept")]);
    assert_eq!(index, 0);
}

#[test]
fn fields_are_appended_and_commas_may_repeat() {
    let mut index = 0;
    let mut fields = vec![field("kept")];
    parse_fields(b"[,a ,, b,]x", &mut index, &mut fields).unwrap();
    assert_eq!(fields, vec![field("kept"), field("a"), field("b")]);
    assert_eq!(index, 10);

    let mut index = 0;
    let mut fields = vec![field("kept")];
    assert_eq!(
        parse_fields(b"[a, ?]", &mut index, &mut fields),
        Err(ParseFailure { position: 4 })
    );
    assert_eq!(fields, vec![field("kept")]);
    assert_eq!(index, 0);
}

#[test]
fn statement_is_told_by_its_first_word() {
    let action = parse_statement("SELECT test_series").unwrap();
    assert_eq!(action, Action::Select(query("test_series", vec![], None, None)));

    match parse_statement_at("INSERT test_series,up=true", 5).unwrap() {
        Action::Insert(insertion) => {
            assert_eq!(insertion.series, "test_series");
            assert_eq!(insertion.entry.time, 5);
        }
        Action::Select(_) => panic!("an insert was read as a select"),
    }

    assert_eq!(parse_statement("DELETE test_series"), Err(ParseFailure { position: 0 }));
    assert_eq!(parse_statement(""), Err(ParseFailure { position: 0 }));
}
