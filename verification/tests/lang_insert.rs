use rtdb::lang::insert::{parse_fields, parse_value, read_insert, value_of_number, Insertion};
use rtdb::lang::ParseFailure;

fn parse_insert(statement: &str) -> Result<Insertion, ParseFailure> {
    let mut input = String::from(statement);
    rtdb::lang::insert::parse_insert(&mut input)
}

fn parse_insert_at(statement: &str, now: i64) -> Result<Insertion, ParseFailure> {
    let mut input = String::from(statement);
    rtdb::lang::insert::parse_insert_at(&mut input, now)
}
use rtdb::storage::series::SeriesEntry;
use rtdb::DataValue;

fn float(x: f64) -> DataValue {
    DataValue::Float(x.to_bits())
}

fn empty_entry() -> SeriesEntry {
    SeriesEntry { fields: vec![], values: vec![], time: 0 }
}

#[test]
fn insert_bytes_in_lower_case_are_read_as_they_are() {
    let insertion = read_insert(b"insert s,a=true 4", 0).unwrap();
    assert_eq!(insertion.series, "s");
    assert_eq!(insertion.entry.values, vec![DataValue::Bool(true)]);
    assert_eq!(insertion.entry.time, 4);
    assert_eq!(read_insert(b"INSERT s,a=true 4", 0), Err(ParseFailure { position: 0 }));
}

#[test]
fn parses_insert() {
    let mut query = String::from("INSERT test_series,field1=1.0");
    let entry = rtdb::lang::insert::parse_insert(&mut query);
    assert!(entry.is_ok());

    let insertion = parse_insert("INSERT test_series,field1=1.0").unwrap();
    assert_eq!(insertion.series, "test_series");
    assert_eq!(insertion.entry.fields, vec![String::from("field1")]);
    assert_eq!(insertion.entry.values, vec![float(1.0)]);

    let insertion =
        parse_insert("INSERT test_series,value1=0.5,value2=1 1663644227213092171").unwrap();
    assert_eq!(insertion.series, "test_series");
    assert_eq!(insertion.entry.fields, vec![String::from("value1"), String::from("value2")]);
    assert_eq!(insertion.entry.values, vec![float(0.5), float(1.0)]);
    assert_eq!(insertion.entry.time, 1663644227213092171);
}

#[test]
fn parses_fields() {
    let mut index = 0;
    let mut entry = empty_entry();
    parse_fields(b"field1=1", &mut index, &mut entry).unwrap();
    assert_eq!(entry.fields[0], String::from("field1"));
    assert_eq!(entry.values[0], float(1.0));
    assert_eq!(entry.time, 0);

    let mut index = 0;
    let mut entry = empty_entry();
    parse_fields(b"field1=1.0", &mut index, &mut entry).unwrap();
    assert_eq!(entry.fields[0], String::from("field1"));
    assert_eq!(entry.values[0], float(1.0));
    assert_eq!(entry.time, 0);

    let mut index = 0;
    let mut entry = empty_entry();
    parse_fields(b"field1=1.0,field2=3.01", &mut index, &mut entry).unwrap();
    assert_eq!(entry.fields, vec![String::from("field1"), String::from("field2")]);
    assert_eq!(entry.values, vec![float(1.0), float(3.01)]);
    assert_eq!(entry.time, 0);

    let mut index = 0;
    let mut entry = empty_entry();
    parse_fields(b"field1=1.0, field2=true", &mut index, &mut entry).unwrap();
    assert_eq!(entry.fields, vec![String::from("field1"), String::from("field2")]);
    assert_eq!(entry.values, vec![float(1.0), DataValue::Bool(true)]);
    assert_eq!(entry.time, 0);
}

#[test]
fn insert_with_explicit_timestamp() {
    let insertion =
        parse_insert("INSERT test_series,value1=0.5,value2=true 1663644227213092171").unwrap();
    assert_eq!(insertion.series, "test_series");
    assert_eq!(insertion.entry.fields, vec![String::from("value1"), String::from("value2")]);
    assert_eq!(insertion.entry.values, vec![float(0.5), DataValue::Bool(true)]);
    assert_eq!(insertion.entry.time, 1663644227213092171);
}

#[test]
fn insert_without_timestamp_takes_the_clock() {
    let insertion = parse_insert_at("insert s,a=false", 1234).unwrap();
    assert_eq!(insertion.entry.values, vec![DataValue::Bool(false)]);
    assert_eq!(insertion.entry.time, 1234);

    let insertion = parse_insert_at("insert s,a=false now()", 99).unwrap();
    assert_eq!(insertion.entry.time, 99);
}

#[test]
fn insert_takes_a_blank_for_the_first_comma() {
    let insertion =
        parse_insert_at("INSERT test_series field1=123.0,field2=-321.0,field3=true", 7).unwrap();
    assert_eq!(
        insertion.entry.fields,
        vec![String::from("field1"), String::from("field2"), String::from("field3")]
    );
    assert_eq!(insertion.entry.values, vec![float(123.0), float(-321.0), DataValue::Bool(true)]);
    assert_eq!(insertion.entry.time, 7);
}

#[test]
fn insert_is_read_without_regard_to_case() {
    let insertion = parse_insert_at("Insert CPU,Load=2.5E1,Up=TRUE 10", 0).unwrap();
    assert_eq!(insertion.series, "cpu");
    assert_eq!(insertion.entry.fields, vec![String::from("load"), String::from("up")]);
    assert_eq!(insertion.entry.values, vec![float(25.0), DataValue::Bool(true)]);
    assert_eq!(insertion.entry.time, 10);
}

#[test]
fn insert_failures_name_the_position() {
    assert_eq!(parse_insert("INSERX s,a=1"), Err(ParseFailure { position: 0 }));
    assert_eq!(parse_insert("insert ,a=1"), Err(ParseFailure { position: 7 }));
    // no field at all
    assert_eq!(parse_insert("insert s"), Err(ParseFailure { position: 8 }));
    // no equals sign
    assert_eq!(parse_insert("insert s,a 1"), Err(ParseFailure { position: 11 }));
    // a value that is neither a boolean nor a number
    assert_eq!(parse_insert("insert s,a=yes"), Err(ParseFailure { position: 11 }));
    // a field is missing after the comma
    assert_eq!(parse_insert("insert s,a=1,"), Err(ParseFailure { position: 13 }));
    // a timestamp that is none
    assert_eq!(parse_insert("insert s,a=1 later"), Err(ParseFailure { position: 13 }));
    // something left over
    assert_eq!(parse_insert("insert s,a=1 12 13"), Err(ParseFailure { position: 16 }));
}

#[test]
fn value_is_a_boolean_or_the_longest_number() {
    let mut index = 2;
    assert_eq!(parse_value(b"a=true,", &mut index), Ok(DataValue::Bool(true)));
    assert_eq!(index, 6);

    let mut index = 2;
    assert_eq!(parse_value(b"a=false", &mut index), Ok(DataValue::Bool(false)));
    assert_eq!(index, 7);

    let mut index = 2;
    assert_eq!(parse_value(b"a=1.23e-02foo", &mut index), Ok(float(0.0123)));
    assert_eq!(index, 10);

    let mut index = 2;
    assert_eq!(parse_value(b"a=-7,b", &mut index), Ok(float(-7.0)));
    assert_eq!(index, 4);

    let mut index = 2;
    assert_eq!(parse_value(b"a=,", &mut index), Err(ParseFailure { position: 2 }));
    assert_eq!(index, 2);

    let mut index = 3;
    assert_eq!(parse_value(b"a=1", &mut index), Err(ParseFailure { position: 3 }));
    assert_eq!(index, 3);
}

#[test]
fn number_outcome_decides_value_and_index() {
    let mut index = 4;
    assert_eq!(value_of_number(&mut index, Some((0.5f64.to_bits(), 3))), Ok(float(0.5)));
    assert_eq!(index, 7);

    let mut index = 4;
    assert_eq!(value_of_number(&mut index, None), Err(ParseFailure { position: 4 }));
    assert_eq!(index, 4);
}

#[test]
fn fields_fail_without_changing_anything() {
    let mut index = 1;
    let mut entry = SeriesEntry {
        fields: vec![String::from("kept")],
        values: vec![DataValue::Bool(true)],
        time: 3,
    };
    assert_eq!(
        parse_fields(b" a=1, b=", &mut index, &mut entry),
        Err(ParseFailure { position: 8 })
    );
    assert_eq!(index, 1);
    assert_eq!(entry.fields, vec![String::from("kept")]);
    assert_eq!(entry.values, vec![DataValue::Bool(true)]);
    assert_eq!(entry.time, 3);
}
