use rtdb::execution::{ExecutionEngine, ExecutionResult, InsertionResult};
use rtdb::lang::insert::Insertion;
use rtdb::lang::{Action, ParseFailure, SelectQuery};

fn parse_statement(statement: &str) -> Result<Action, ParseFailure> {
    let mut input = String::from(statement);
    rtdb::lang::parse_statement(&mut input)
}

fn parse_statement_at(statement: &str, now: i64) -> Result<Action, ParseFailure> {
    let mut input = String::from(statement);
    rtdb::lang::parse_statement_at(&mut input, now)
}
use rtdb::storage::field_block::{BLOCK_SIZE, ENTRIES_PER_BLOCK};
use rtdb::storage::series::{SeriesEntry, SeriesStorage};
use rtdb::encoding::same_text;
use rtdb::users::{hash_sha256, AuthenticationError, AuthenticationMethod, User};
use rtdb::wire_protocol::{frame_response, parse_result, ClientExecutionResult};
use rtdb::{DataValue, RecordCollection};

fn float(x: f64) -> DataValue {
    DataValue::Float(x.to_bits())
}

#[test]
fn creates_users() {
    User::create("andres", None);
    User::create("brendan", Some("mysecurepassword"));
}

#[test]
fn created_users_keep_the_digest_of_their_password() {
    let user = User::create("andres", None);
    assert_eq!(user.name, "andres");
    assert_eq!(user.auth_method, AuthenticationMethod::Open);

    let user = User::create("brendan", Some("mysecurepassword"));
    assert_eq!(user.name, "brendan");
    assert_eq!(user.auth_method, AuthenticationMethod::Password(hash_sha256("mysecurepassword")));
}

#[test]
fn authenticates_users() {
    let user = User::authenticate(Some(User::create("andres", None)), None).unwrap();
    assert_eq!(user.name, "andres");
    assert_eq!(user.auth_method, AuthenticationMethod::Open);

    let user = User::authenticate(Some(User::create("brendan", Some("mysecurepassword"))), None);
    assert!(user.is_err());

    let user = User::authenticate(
        Some(User::create("brendan", Some("mysecurepassword"))),
        Some(&hash_sha256("mysecurepassword")),
    )
    .unwrap();
    assert_eq!(user.name, "brendan");
    assert_eq!(user.auth_method, AuthenticationMethod::Password(hash_sha256("mysecurepassword")));
}

#[test]
fn users_are_turned_away_for_a_reason() {
    assert_eq!(User::authenticate(None, None), Err(AuthenticationError::UnknownUser));
    assert_eq!(User::authenticate(None, Some("x")), Err(AuthenticationError::UnknownUser));
    let brendan = || Some(User::create("brendan", Some("mysecurepassword")));
    assert_eq!(User::authenticate(brendan(), None), Err(AuthenticationError::MissingPassword));
    assert_eq!(
        User::authenticate(brendan(), Some("mysecurepassword")),
        Err(AuthenticationError::WrongPassword)
    );
    // a user without a password is let in whatever is given
    assert!(User::authenticate(Some(User::create("andres", None)), Some("x")).is_ok());
}

#[test]
fn digest_is_sha256_in_lower_case_hex() {
    assert_eq!(
        hash_sha256("abc"),
        "ba7816bf8f01cfea414140de5dae2223b00361a396177a9cb410ff61f20015ad"
    );
    assert_eq!(
        hash_sha256(""),
        "e3b0c44298fc1c149afbf4c8996fb92427ae41e4649b934ca495991b7852b855"
    );
    assert!(same_text("abc", "abc"));
    assert!(!same_text("abc", "abd"));
    assert!(!same_text("abc", "ab"));
    assert!(same_text("", ""));
}

#[test]
fn parse_then_execute_a_simple_select() {
    let action = parse_statement("SELECT test_series").unwrap();
    assert_eq!(
        action,
        Action::Select(SelectQuery {
            series: String::from("test_series"),
            selections: vec![],
            start: None,
            end: None,
        })
    );
    let mut engine = ExecutionEngine::new();
    assert!(!engine.is_loaded("test_series"));
    let (result, writes) = engine.execute(action);
    assert!(writes.is_empty());
    match result {
        ExecutionResult::Query(result) => {
            assert_eq!(result.count, 0);
            assert_eq!(result.records, RecordCollection::empty());
        }
        ExecutionResult::Insert(_) => panic!("a select gave an insert's result"),
    }
    // the first touch made the series
    assert!(engine.is_loaded("test_series"));
    assert_eq!(engine.find("test_series"), Some(0));
}

#[test]
fn an_insert_is_visible_to_a_later_select() {
    let mut engine = ExecutionEngine::new();
    let insert = parse_statement_at("INSERT cpu,load=0.5,up=true 100", 0).unwrap();
    let (result, writes) = engine.execute(insert);
    assert_eq!(result, ExecutionResult::Insert(InsertionResult { success: true }));
    assert!(writes.is_empty());
    let (_, _) = engine.execute(parse_statement_at("INSERT cpu,load=0.75 200", 0).unwrap());
    let (_, _) = engine.execute(parse_statement_at("INSERT mem,used=9 150", 0).unwrap());

    let (result, _) = engine.execute(parse_statement("SELECT cpu[up, load] AFTER 100").unwrap());
    match result {
        ExecutionResult::Query(result) => {
            assert_eq!(result.count, 2);
            assert_eq!(
                result.records.elements,
                vec![
                    DataValue::Timestamp(100),
                    DataValue::Bool(true),
                    float(0.5),
                    DataValue::Timestamp(200),
                    DataValue::Absent,
                    float(0.75),
                ]
            );
        }
        ExecutionResult::Insert(_) => panic!("a select gave an insert's result"),
    }
    assert_eq!(engine.find("cpu"), Some(0));
    assert_eq!(engine.find("mem"), Some(1));
    assert_eq!(engine.series_storages.len(), 2);
}

#[test]
fn an_insert_with_uneven_fields_and_values_fails() {
    let mut engine = ExecutionEngine::new();
    let insertion = Insertion {
        series: String::from("cpu"),
        entry: SeriesEntry { fields: vec![String::from("a")], values: vec![], time: 1 },
    };
    let (result, writes) = engine.execute(Action::Insert(insertion));
    assert_eq!(result, ExecutionResult::Insert(InsertionResult { success: false }));
    assert!(writes.is_empty());
    assert!(!engine.is_loaded("cpu"));
}

#[test]
fn full_blocks_come_back_to_be_written() {
    let mut engine = ExecutionEngine::new();
    let mut written = vec![];
    for i in 0..ENTRIES_PER_BLOCK as i64 + 1 {
        let insertion = Insertion {
            series: String::from("cpu"),
            entry: SeriesEntry { fields: vec![String::from("load")], values: vec![float(1.0)], time: i },
        };
        let (_, writes) = engine.execute(Action::Insert(insertion));
        written.extend(writes);
    }
    assert_eq!(written.len(), 1);
    assert_eq!(written[0].field, "load");
    assert_eq!(written[0].data.len(), BLOCK_SIZE);
    assert_eq!(written[0].summary.len(), 17);
}

#[test]
fn an_attached_series_is_kept_and_not_replaced() {
    let mut engine = ExecutionEngine::new();
    let mut stored = SeriesStorage::new("cpu");
    stored.insert(SeriesEntry { fields: vec![String::from("load")], values: vec![float(2.0)], time: 5 });
    engine.attach(stored);
    engine.attach(SeriesStorage::new("cpu"));
    assert_eq!(engine.series_storages.len(), 1);
    let query = SelectQuery { series: String::from("cpu"), selections: vec![], start: None, end: None };
    assert_eq!(engine.missing_blocks(&query), vec![]);
    let (result, _) = engine.execute(Action::Select(query));
    match result {
        ExecutionResult::Query(result) => {
            assert_eq!(result.records.elements, vec![DataValue::Timestamp(5), float(2.0)]);
        }
        ExecutionResult::Insert(_) => panic!("a select gave an insert's result"),
    }
    // a block for a series that is not kept changes nothing
    engine.supply_block("mem", 0, 0, &[]);
    engine.supply_block("cpu", 0, 0, &[]);
    assert_eq!(engine.series_storages.len(), 1);
}

#[test]
fn a_statement_goes_from_text_to_frame_and_back() {
    let mut engine = ExecutionEngine::new();
    let (_, _) = engine.execute(parse_statement_at("insert s,v=1.5 42", 0).unwrap());
    let (result, _) = engine.execute(parse_statement("select s").unwrap());
    let frame = frame_response(&result).unwrap();
    let length = u64::from_be_bytes([
        frame[0], frame[1], frame[2], frame[3], frame[4], frame[5], frame[6], frame[7],
    ]);
    assert_eq!(length as usize, frame.len() - 8);
    match parse_result(&frame[8..]).unwrap() {
        ClientExecutionResult::Query(query) => {
            assert_eq!(query.count, 1);
            assert_eq!(query.records.fields[0].name, "v");
            assert_eq!(query.records.rows[0].time, 42);
            assert_eq!(query.records.rows[0].elements, vec![float(1.5)]);
        }
        ClientExecutionResult::Insert(_) => panic!("a query was read as an insert"),
    }
}

#[test]
fn a_store_whose_index_misses_a_field_is_not_well_formed() {
    let mut good = SeriesStorage::new("cpu");
    good.insert(SeriesEntry { fields: vec![String::from("load")], values: vec![float(1.0)], time: 1 });
    assert!(good.is_well_formed());

    let bad = SeriesStorage {
        series_name: String::from("cpu"),
        field_storages: vec![rtdb::storage::field::FieldStorage::new(
            "load",
            rtdb::wire_protocol::DataType::Float,
        )],
        index: fnv::FnvHashMap::default(),
    };
    assert!(!bad.is_well_formed());

    let mut wrong = fnv::FnvHashMap::default();
    wrong.insert(String::from("load"), 1usize);
    let bad = SeriesStorage {
        series_name: String::from("cpu"),
        field_storages: vec![rtdb::storage::field::FieldStorage::new(
            "load",
            rtdb::wire_protocol::DataType::Float,
        )],
        index: wrong,
    };
    assert!(!bad.is_well_formed());

    let mut engine = ExecutionEngine::new();
    assert!(engine.is_well_formed());
    engine.attach(good);
    assert!(engine.is_well_formed());
    let broken = ExecutionEngine {
        series_storages: vec![SeriesStorage::new("cpu")],
        index: fnv::FnvHashMap::default(),
    };
    assert!(!broken.is_well_formed());
}

#[test]
fn an_index_that_knows_more_than_the_fields_is_checked_on_use() {
    let mut index = fnv::FnvHashMap::default();
    index.insert(String::from("load"), 0usize);
    index.insert(String::from("gone"), 0usize);
    index.insert(String::from("far"), 7usize);
    let store = SeriesStorage {
        series_name: String::from("cpu"),
        field_storages: vec![rtdb::storage::field::FieldStorage::new(
            "load",
            rtdb::wire_protocol::DataType::Float,
        )],
        index,
    };
    assert!(store.is_well_formed());
    assert_eq!(store.find("load"), Some(0));
    assert_eq!(store.find("gone"), None);
    assert_eq!(store.find("far"), None);
}
