use rtdb::execution::{ClientQueryResult, ExecutionResult, InsertionResult, QueryResult};
use rtdb::wire_protocol::insert::{build_insert_result, parse_insert_result};
use rtdb::storage::field::FieldEntry;
use rtdb::storage::series::merge_records;
use rtdb::wire_protocol::query::{
    build_query_result, fields_fit, fits_frame, parse_data_row, parse_field_description,
    parse_field_descriptions, parse_query_result, push_element, write_field_descriptions,
    ByteReader, ABSENT_BOOL, ABSENT_FLOAT, ABSENT_TIMESTAMP,
};
use rtdb::wire_protocol::{
    build_response, frame_response, parse_result, push_str, ClientExecutionResult, DataType,
    FieldDescription, WireError,
};
use rtdb::{ClientRecordCollection, DataRow, DataValue, RecordCollection};

fn float(x: f64) -> DataValue {
    DataValue::Float(x.to_bits())
}

fn two_floats() -> Vec<FieldDescription> {
    vec![
        FieldDescription { name: String::from("field1"), data_type: DataType::Float },
        FieldDescription { name: String::from("field2"), data_type: DataType::Float },
    ]
}

fn one_row() -> QueryResult {
    QueryResult {
        count: 1,
        records: RecordCollection {
            fields: two_floats(),
            elements: vec![DataValue::Timestamp(12345678912345), float(123.0), float(123.01)],
        },
    }
}

#[test]
fn builds_insert_result() {
    let mut buf = vec![];
    build_insert_result(&InsertionResult { success: false }, &mut buf);
    assert_eq!(buf, vec![2, 0]);
}

#[test]
fn insert_result_round_trip() {
    let mut buf = vec![9];
    build_response(&ExecutionResult::Insert(InsertionResult { success: true }), &mut buf).unwrap();
    assert_eq!(buf, vec![9, 2, 1]);
    assert_eq!(
        parse_result(&buf[1..]),
        Ok(ClientExecutionResult::Insert(InsertionResult { success: true }))
    );
    assert_eq!(
        parse_result(&[2, 0]),
        Ok(ClientExecutionResult::Insert(InsertionResult { success: false }))
    );
    // only 1 is success
    assert_eq!(
        parse_result(&[2, 7]),
        Ok(ClientExecutionResult::Insert(InsertionResult { success: false }))
    );
    let mut reader = ByteReader::new(&[1]);
    assert_eq!(parse_insert_result(&mut reader), Ok(InsertionResult { success: true }));
    assert_eq!(reader.position, 1);
    assert_eq!(parse_insert_result(&mut reader), Err(WireError::Truncated));
}

/// Serialize a query result and parse it back.
#[test]
fn query_response() {
    let result = one_row();

    let mut buf = vec![];
    build_query_result(&result, &mut buf).unwrap();

    let result = parse_result(&buf).unwrap();
    match result {
        ClientExecutionResult::Query(result) => {
            assert_eq!(result.count, 1);
            assert_eq!(
                result.records,
                ClientRecordCollection {
                    fields: two_floats(),
                    rows: vec![DataRow {
                        time: 12345678912345,
                        elements: vec![float(123.0), float(123.01)],
                    }],
                }
            );
        }
        _ => assert!(false),
    }
}

#[test]
fn query_response_has_the_stated_bytes() {
    let mut buf = vec![];
    build_response(&ExecutionResult::Query(one_row()), &mut buf).unwrap();
    let mut expected = vec![1u8, 2];
    for name in ["field1", "field2"] {
        expected.push(0);
        expected.extend_from_slice(&[0, 6]);
        expected.extend_from_slice(name.as_bytes());
    }
    expected.extend_from_slice(&[0, 0, 0, 1]);
    expected.extend_from_slice(&12345678912345i64.to_be_bytes());
    expected.extend_from_slice(&123.0f64.to_be_bytes());
    expected.extend_from_slice(&123.01f64.to_be_bytes());
    assert_eq!(buf, expected);

    let frame = frame_response(&ExecutionResult::Query(one_row())).unwrap();
    assert_eq!(&frame[..8], &(expected.len() as u64).to_be_bytes());
    assert_eq!(&frame[8..], &expected[..]);
    assert_eq!(
        frame_response(&ExecutionResult::Insert(InsertionResult { success: true })),
        Ok(vec![0, 0, 0, 0, 0, 0, 0, 2, 2, 1])
    );
}

#[test]
fn field_descs() {
    let mut buffer = vec![];
    write_field_descriptions(&mut buffer, &two_floats()).unwrap();

    let mut cursor = ByteReader::new(&buffer);
    let fields = parse_field_descriptions(&mut cursor).unwrap();
    assert_eq!(fields.len(), 2);
    assert_eq!(
        fields[0],
        FieldDescription { data_type: DataType::Float, name: String::from("field1") }
    );
    assert_eq!(
        fields[1],
        FieldDescription { data_type: DataType::Float, name: String::from("field2") }
    );
    assert_eq!(cursor.position, buffer.len());
}

#[test]
fn every_type_and_an_absent_boolean_round_trip() {
    let result = QueryResult {
        count: 2,
        records: RecordCollection {
            fields: vec![
                FieldDescription { name: String::from("up"), data_type: DataType::Bool },
                FieldDescription { name: String::from("seen"), data_type: DataType::Timestamp },
                FieldDescription { name: String::from("\u{e9}t\u{e9}"), data_type: DataType::Float },
            ],
            elements: vec![
                DataValue::Timestamp(-1),
                DataValue::Bool(true),
                DataValue::Timestamp(i64::MIN + 1),
                float(-0.0),
                DataValue::Timestamp(i64::MAX),
                DataValue::Absent,
                DataValue::Timestamp(77),
                float(f64::INFINITY),
            ],
        },
    };
    let mut buf = vec![];
    build_query_result(&result, &mut buf).unwrap();
    // the rows: 8 + 1 + 8 + 8 bytes each; the absent boolean is 0xFF
    let rows = &buf[buf.len() - 50..];
    assert_eq!(rows[8], 1);
    assert_eq!(rows[25 + 8], 0xFF);

    let parsed = parse_result(&buf).unwrap();
    let expected = ClientExecutionResult::Query(ClientQueryResult {
        count: 2,
        records: ClientRecordCollection {
            fields: result.records.fields.clone(),
            rows: result.records.rows(),
        },
    });
    assert_eq!(parsed, expected);
    match parsed {
        ClientExecutionResult::Query(query) => {
            assert_eq!(query.records.rows[1].elements[0], DataValue::Absent);
            assert_eq!(query.records.rows[0].time, -1);
        }
        _ => panic!("a query was read as an insert"),
    }
}

#[test]
fn an_empty_result_round_trips() {
    let result = QueryResult { count: 0, records: RecordCollection::empty() };
    let mut buf = vec![];
    build_query_result(&result, &mut buf).unwrap();
    assert_eq!(buf, vec![1, 0, 0, 0, 0, 0]);
    assert_eq!(
        parse_result(&buf),
        Ok(ClientExecutionResult::Query(ClientQueryResult {
            count: 0,
            records: ClientRecordCollection { fields: vec![], rows: vec![] },
        }))
    );
}

#[test]
fn an_absent_value_takes_the_width_of_its_column() {
    let result = QueryResult {
        count: 1,
        records: RecordCollection {
            fields: vec![
                FieldDescription { name: String::from("b"), data_type: DataType::Bool },
                FieldDescription { name: String::from("f"), data_type: DataType::Float },
                FieldDescription { name: String::from("t"), data_type: DataType::Timestamp },
            ],
            elements: vec![
                DataValue::Timestamp(1),
                DataValue::Absent,
                DataValue::Absent,
                DataValue::Absent,
            ],
        },
    };
    let mut buf = vec![];
    build_query_result(&result, &mut buf).unwrap();
    // three descriptions of four bytes each, then one row of 8 + 1 + 8 + 8 bytes
    assert_eq!(buf.len(), 2 + 3 * 4 + 4 + 25);
    let row = &buf[buf.len() - 25..];
    assert_eq!(&row[..8], &1i64.to_be_bytes());
    assert_eq!(row[8], 0xFF);
    assert_eq!(&row[9..17], &[0xFF; 8]);
    assert_eq!(&row[17..], &[0x80, 0, 0, 0, 0, 0, 0, 0]);
    assert_eq!(ABSENT_BOOL, 0xFF);
    assert_eq!(ABSENT_FLOAT, u64::MAX);
    assert_eq!(ABSENT_TIMESTAMP, i64::MIN);

    match parse_result(&buf).unwrap() {
        ClientExecutionResult::Query(query) => {
            assert_eq!(query.count, 1);
            assert_eq!(
                query.records.rows,
                vec![DataRow {
                    time: 1,
                    elements: vec![DataValue::Absent, DataValue::Absent, DataValue::Absent],
                }]
            );
        }
        ClientExecutionResult::Insert(_) => panic!("a query was read as an insert"),
    }
}

#[test]
fn misaligned_columns_round_trip() {
    let entries = vec![
        vec![
            FieldEntry { time: 1, value: float(1.0) },
            FieldEntry { time: 2, value: float(2.0) },
            FieldEntry { time: 3, value: float(5.0) },
        ],
        vec![FieldEntry { time: 2, value: float(3.0) }, FieldEntry { time: 4, value: float(4.0) }],
    ];
    let records = merge_records(&entries, two_floats());
    let rows = records.rows();
    let result = QueryResult { count: records.len(), records };
    let mut buf = vec![];
    build_query_result(&result, &mut buf).unwrap();
    assert_eq!(buf.len(), 2 + 2 * 9 + 4 + 4 * 24);
    match parse_result(&buf).unwrap() {
        ClientExecutionResult::Query(query) => {
            assert_eq!(query.count, 4);
            assert_eq!(query.records.rows, rows);
            assert_eq!(query.records.rows[0].elements, vec![float(1.0), DataValue::Absent]);
            assert_eq!(query.records.rows[3].elements, vec![DataValue::Absent, float(4.0)]);
        }
        ClientExecutionResult::Insert(_) => panic!("a query was read as an insert"),
    }
}

#[test]
fn a_value_of_another_type_than_its_column_is_written_as_absent() {
    let result = QueryResult {
        count: 2,
        records: RecordCollection {
            fields: vec![
                FieldDescription { name: String::from("b"), data_type: DataType::Bool },
                FieldDescription { name: String::from("f"), data_type: DataType::Float },
                FieldDescription { name: String::from("t"), data_type: DataType::Timestamp },
            ],
            elements: vec![
                DataValue::Bool(true),
                float(1.0),
                DataValue::Timestamp(5),
                DataValue::Bool(false),
                DataValue::Timestamp(9),
                DataValue::Bool(true),
                float(ABSENT_FLOAT_VALUE()),
                DataValue::Timestamp(ABSENT_TIMESTAMP),
            ],
        },
    };
    let mut buf = vec![];
    build_query_result(&result, &mut buf).unwrap();
    match parse_result(&buf).unwrap() {
        ClientExecutionResult::Query(query) => {
            assert_eq!(
                query.records.rows,
                vec![
                    // a row whose first value is no timestamp reads back at time 0
                    DataRow { time: 0, elements: vec![DataValue::Absent; 3] },
                    DataRow {
                        time: 9,
                        elements: vec![DataValue::Bool(true), DataValue::Absent, DataValue::Absent],
                    },
                ]
            );
        }
        ClientExecutionResult::Insert(_) => panic!("a query was read as an insert"),
    }
}

#[allow(non_snake_case)]
fn ABSENT_FLOAT_VALUE() -> f64 {
    f64::from_bits(ABSENT_FLOAT)
}

#[test]
fn a_result_that_does_not_fit_a_frame_is_refused() {
    // a count that is not the number of rows
    let mut miscounted = one_row();
    miscounted.count = 2;
    let mut buf = vec![7];
    assert_eq!(build_query_result(&miscounted, &mut buf), Err(WireError::Unwritable));
    assert_eq!(buf, vec![7]);
    assert!(!fits_frame(&miscounted));
    assert_eq!(
        frame_response(&ExecutionResult::Query(miscounted)),
        Err(WireError::Unwritable)
    );

    // a row that is not whole
    let mut ragged = one_row();
    ragged.records.elements.pop();
    assert_eq!(build_query_result(&ragged, &mut buf), Err(WireError::Unwritable));

    // more than 255 fields
    let many = QueryResult {
        count: 0,
        records: RecordCollection {
            fields: (0..256)
                .map(|i| FieldDescription { name: format!("f{}", i), data_type: DataType::Bool })
                .collect(),
            elements: vec![],
        },
    };
    assert!(!fields_fit(&many.records.fields));
    assert_eq!(
        build_response(&ExecutionResult::Query(many), &mut buf),
        Err(WireError::Unwritable)
    );
    assert_eq!(buf, vec![7]);

    // 255 fields fit
    let most = QueryResult {
        count: 0,
        records: RecordCollection {
            fields: (0..255)
                .map(|i| FieldDescription { name: format!("f{}", i), data_type: DataType::Bool })
                .collect(),
            elements: vec![],
        },
    };
    assert!(fits_frame(&most));
    let mut out = vec![];
    build_query_result(&most, &mut out).unwrap();
    assert_eq!(&out[..2], &[1, 255]);

    // a name of more than 65535 bytes
    let long = vec![FieldDescription { name: "x".repeat(65536), data_type: DataType::Bool }];
    assert_eq!(write_field_descriptions(&mut buf, &long), Err(WireError::Unwritable));
    assert_eq!(push_str(&mut buf, &"x".repeat(65536)), Err(WireError::Unwritable));
    assert_eq!(buf, vec![7]);
    let longest = vec![FieldDescription { name: "x".repeat(65535), data_type: DataType::Bool }];
    assert!(fields_fit(&longest));
}

#[test]
fn one_element_in_each_column() {
    let mut out = vec![];
    push_element(&mut out, DataValue::Timestamp(258), None);
    push_element(&mut out, float(1.0), None);
    push_element(&mut out, DataValue::Bool(true), Some(DataType::Bool));
    push_element(&mut out, DataValue::Bool(false), Some(DataType::Bool));
    push_element(&mut out, float(1.5), Some(DataType::Float));
    push_element(&mut out, DataValue::Timestamp(-2), Some(DataType::Timestamp));
    let mut expected = 258i64.to_be_bytes().to_vec();
    expected.extend_from_slice(&[0; 8]);
    expected.extend_from_slice(&[1, 0]);
    expected.extend_from_slice(&1.5f64.to_be_bytes());
    expected.extend_from_slice(&(-2i64).to_be_bytes());
    assert_eq!(out, expected);
}

#[test]
fn wire_failures() {
    assert_eq!(parse_result(&[]), Err(WireError::Truncated));
    assert_eq!(parse_result(&[0]), Err(WireError::UnknownKind));
    assert_eq!(parse_result(&[3, 1]), Err(WireError::UnknownKind));
    assert_eq!(parse_result(&[2]), Err(WireError::Truncated));
    assert_eq!(parse_result(&[1]), Err(WireError::Truncated));
    // a field whose tag names no type
    assert_eq!(parse_result(&[1, 1, 3, 0, 1, b'a', 0, 0, 0, 0]), Err(WireError::UnknownType));
    // a name that is cut short, and one that is no UTF-8
    assert_eq!(parse_result(&[1, 1, 0, 0, 2, b'a']), Err(WireError::Truncated));
    assert_eq!(parse_result(&[1, 1, 0, 0, 1, 0xC0, 0, 0, 0, 0]), Err(WireError::InvalidText));
    // fewer fields than counted, no row count, fewer rows than counted
    assert_eq!(parse_result(&[1, 2, 0, 0, 1, b'a']), Err(WireError::Truncated));
    assert_eq!(parse_result(&[1, 0, 0, 0, 0]), Err(WireError::Truncated));
    assert_eq!(parse_result(&[1, 0, 0, 0, 0, 1, 0, 0, 0, 0]), Err(WireError::Truncated));
    let mut buf = vec![];
    build_query_result(&one_row(), &mut buf).unwrap();
    assert_eq!(parse_result(&buf[..buf.len() - 1]), Err(WireError::Truncated));
    // bytes after the response are left alone
    buf.push(0);
    assert!(parse_result(&buf).is_ok());
}

#[test]
fn reader_reads_big_endian_and_stops_at_the_end() {
    let bytes = [1u8, 2, 3, 4, 5, 6, 7, 8, 9, 0x80, 0, 0, 0, 0, 0, 0, 1];
    let mut reader = ByteReader::new(&bytes);
    assert_eq!(reader.read_u8(), Some(1));
    assert_eq!(reader.read_u16(), Some(0x0203));
    assert_eq!(reader.read_u32(), Some(0x04050607));
    assert_eq!(reader.position, 7);
    assert_eq!(reader.read_bytes(2), Some(&bytes[7..9]));
    assert_eq!(reader.read_i64(), Some(i64::MIN + 1));
    assert_eq!(reader.position, 17);
    assert_eq!(reader.read_u8(), None);
    assert_eq!(reader.read_bytes(0), Some(&bytes[17..]));

    let mut reader = ByteReader::new(&bytes);
    assert_eq!(reader.read_u64(), Some(0x0102030405060708));
    assert_eq!(reader.read_u64(), Some(0x0980000000000000));
    assert_eq!(reader.read_u64(), None);
    assert_eq!(reader.read_i64(), None);
    assert_eq!(reader.read_u32(), None);
    assert_eq!(reader.read_u16(), None);
    assert_eq!(reader.position, 16);
    assert_eq!(reader.read_u8(), Some(1));

    let mut reader = ByteReader { buffer: &bytes, position: 40 };
    assert_eq!(reader.read_u8(), None);
    assert_eq!(reader.position, 40);
}

#[test]
fn one_description_and_one_row() {
    let bytes = [2u8, 0, 2, b'o', b'k', 9];
    let mut reader = ByteReader::new(&bytes);
    assert_eq!(parse_field_description(&mut reader), Ok((DataType::Timestamp, String::from("ok"))));
    assert_eq!(reader.position, 5);

    let fields = vec![
        FieldDescription { name: String::from("b"), data_type: DataType::Bool },
        FieldDescription { name: String::from("t"), data_type: DataType::Timestamp },
    ];
    let mut bytes = 5i64.to_be_bytes().to_vec();
    bytes.push(0);
    bytes.extend_from_slice(&(-2i64).to_be_bytes());
    let mut reader = ByteReader::new(&bytes);
    assert_eq!(
        parse_data_row(&mut reader, &fields),
        Ok(DataRow { time: 5, elements: vec![DataValue::Bool(false), DataValue::Timestamp(-2)] })
    );
    assert_eq!(reader.position, 17);
    let mut reader = ByteReader::new(&bytes[..16]);
    assert_eq!(parse_data_row(&mut reader, &fields), Err(WireError::Truncated));

    let mut reader = ByteReader::new(&[0, 0, 0, 0, 0]);
    assert_eq!(
        parse_query_result(&mut reader),
        Ok(ClientQueryResult {
            count: 0,
            records: ClientRecordCollection { fields: vec![], rows: vec![] },
        })
    );
}

#[test]
fn text_is_prefixed_by_its_length_in_bytes() {
    let mut out = vec![7];
    push_str(&mut out, "h\u{e9}").unwrap();
    assert_eq!(out, vec![7, 0, 3, b'h', 0xC3, 0xA9]);
    let mut out = vec![];
    push_str(&mut out, "").unwrap();
    assert_eq!(out, vec![0, 0]);
    let long = "x".repeat(300);
    let mut out = vec![];
    push_str(&mut out, &long).unwrap();
    assert_eq!(&out[..2], &[1, 44]);
    assert_eq!(out.len(), 302);
}

#[test]
fn data_type_tags() {
    assert_eq!(DataType::Float.to_tag(), 0);
    assert_eq!(DataType::Bool.to_tag(), 1);
    assert_eq!(DataType::Timestamp.to_tag(), 2);
    assert_eq!(DataType::try_from(0), Ok(DataType::Float));
    assert_eq!(DataType::try_from(1), Ok(DataType::Bool));
    assert_eq!(DataType::try_from(2), Ok(DataType::Timestamp));
    assert_eq!(DataType::try_from(3), Err(()));
    assert_eq!(DataType::try_from(255), Err(()));
}

#[test]
fn values_have_a_canonical_encoding() {
    assert_eq!(DataValue::Absent.to_be_bytes(), Vec::<u8>::new());
    assert_eq!(DataValue::Bool(true).to_be_bytes(), vec![1]);
    assert_eq!(DataValue::Bool(false).to_be_bytes(), vec![0]);
    assert_eq!(DataValue::Timestamp(258).to_be_bytes(), vec![0, 0, 0, 0, 0, 0, 1, 2]);
    assert_eq!(DataValue::Timestamp(-2).to_be_bytes(), (-2i64).to_be_bytes().to_vec());
    assert_eq!(float(1.5).to_be_bytes(), 1.5f64.to_be_bytes().to_vec());
}

#[test]
fn record_collection_counts_rows() {
    let records = one_row().records;
    assert_eq!(records.len(), 1);
    assert_eq!(RecordCollection::empty().len(), 0);
    assert_eq!(
        records.rows(),
        vec![DataRow { time: 12345678912345, elements: vec![float(123.0), float(123.01)] }]
    );
    let ragged = RecordCollection {
        fields: two_floats(),
        elements: vec![DataValue::Bool(true), float(1.0), float(2.0), DataValue::Timestamp(3)],
    };
    assert_eq!(ragged.len(), 1);
    assert_eq!(ragged.rows(), vec![DataRow { time: 0, elements: vec![float(1.0), float(2.0)] }]);
    assert_eq!(DataRow::with_capacity(4), DataRow { time: 0, elements: vec![] });
}

#[test]
fn request_round_trip() {
    let frame = rtdb::wire_protocol::build_request("SELECT test_series").unwrap();
    let mut expected = vec![0u8, 18];
    expected.extend_from_slice(b"SELECT test_series");
    assert_eq!(frame, expected);
    assert_eq!(rtdb::wire_protocol::parse_request(&frame), Ok(String::from("SELECT test_series")));

    assert_eq!(rtdb::wire_protocol::build_request(""), Some(vec![0, 0]));
    assert_eq!(rtdb::wire_protocol::parse_request(&[0, 0, 9]), Ok(String::new()));
    let longest = "x".repeat(65535);
    let frame = rtdb::wire_protocol::build_request(&longest).unwrap();
    assert_eq!(&frame[..2], &[0xFF, 0xFF]);
    assert_eq!(rtdb::wire_protocol::parse_request(&frame), Ok(longest));
    assert_eq!(rtdb::wire_protocol::build_request(&"x".repeat(65536)), None);
}

#[test]
fn request_failures() {
    assert_eq!(rtdb::wire_protocol::parse_request(&[]), Err(WireError::Truncated));
    assert_eq!(rtdb::wire_protocol::parse_request(&[0]), Err(WireError::Truncated));
    assert_eq!(rtdb::wire_protocol::parse_request(&[0, 3, b'a', b'b']), Err(WireError::Truncated));
    assert_eq!(rtdb::wire_protocol::parse_request(&[0, 2, 0xFF, b'b']), Err(WireError::InvalidText));
}

#[test]
fn frame_length_is_the_first_eight_bytes() {
    assert_eq!(rtdb::wire_protocol::frame_length(&[0, 0, 0, 0, 0, 0, 1, 2, 9]), Some(258));
    assert_eq!(rtdb::wire_protocol::frame_length(&[0xFF; 8]), Some(u64::MAX));
    assert_eq!(rtdb::wire_protocol::frame_length(&[0; 7]), None);
}

#[test]
fn a_boolean_makes_a_value() {
    assert_eq!(DataValue::from(true), DataValue::Bool(true));
    assert_eq!(DataValue::from(false), DataValue::Bool(false));
}
