use rtdb::storage::field::{overlaps, FieldEntry, FieldStorage};
use rtdb::storage::field_block::{FieldStorageBlock, BLOCK_SIZE, ENTRIES_PER_BLOCK};
use rtdb::storage::field_index::FieldStorageBlockSummary;
use rtdb::wire_protocol::DataType;
use rtdb::DataValue;

fn entry(time: i64, x: f64) -> FieldEntry {
    FieldEntry { time, value: DataValue::Float(x.to_bits()) }
}

/// A store that took `count` entries at the times 0, 10, 20, ..., with the
/// bytes that it asked to have written.
fn filled(count: usize) -> (FieldStorage, Vec<u8>, Vec<u8>) {
    let mut store = FieldStorage::new("field1", DataType::Float);
    let mut data = vec![];
    let mut index = vec![];
    for i in 0..count {
        if let Some(flushed) = store.insert(entry(10 * i as i64, i as f64)) {
            data.extend_from_slice(&flushed.data);
            index.extend_from_slice(&flushed.summary);
        }
    }
    (store, data, index)
}

#[test]
fn field_it_inserts() {
    let (store, data, index) = filled(ENTRIES_PER_BLOCK * 10 + 1);
    assert!(store.is_well_formed());
    assert_eq!(data.len(), 10 * BLOCK_SIZE);
    assert_eq!(index.len(), 10 * 17);
    assert_eq!(store.block_summaries.len(), 10);
    assert_eq!(store.curr_block.entries.len(), 1);
}

#[test]
fn field_it_reads() {
    let (store, _, _) = filled(ENTRIES_PER_BLOCK * 10 + 1);
    let records = store.read(None, None);
    assert_eq!(records.len(), ENTRIES_PER_BLOCK * 10 + 1);
    for (i, record) in records.iter().enumerate() {
        assert_eq!(*record, entry(10 * i as i64, i as f64));
    }
}

#[test]
fn block_roll_over() {
    let (store, data, index) = filled(ENTRIES_PER_BLOCK + 1);
    assert_eq!(data.len(), BLOCK_SIZE);
    assert_eq!(index.len(), 17);
    assert_eq!(
        FieldStorageBlockSummary::load_all(&index),
        vec![FieldStorageBlockSummary {
            start_timestamp: 0,
            latest_timestamp: 990,
            data_type: DataType::Float,
        }]
    );
    assert_eq!(store.block_summaries, FieldStorageBlockSummary::load_all(&index));
    let block = FieldStorageBlock::decode(&data, DataType::Float).unwrap();
    assert_eq!(block.entries.len(), ENTRIES_PER_BLOCK);
    assert_eq!(block.entries[99], entry(990, 99.0));

    let records = store.read(None, None);
    assert_eq!(records.len(), ENTRIES_PER_BLOCK + 1);
    for (i, record) in records.iter().enumerate() {
        assert_eq!(*record, entry(10 * i as i64, i as f64));
    }
}

#[test]
fn a_full_block_is_flushed_by_the_next_insert_only() {
    let (mut store, data, _) = filled(ENTRIES_PER_BLOCK);
    assert!(data.is_empty());
    assert!(store.block_summaries.is_empty());
    assert_eq!(store.curr_block.entries.len(), ENTRIES_PER_BLOCK);
    let flushed = store.insert(entry(5000, 0.0)).unwrap();
    assert_eq!(flushed.data.len(), BLOCK_SIZE);
    assert_eq!(flushed.summary.len(), 17);
    assert_eq!(store.curr_block.entries, vec![entry(5000, 0.0)]);
    assert!(store.insert(entry(5001, 0.0)).is_none());
}

#[test]
fn read_is_inclusive_on_both_ends_and_spans_blocks() {
    let (store, _, _) = filled(ENTRIES_PER_BLOCK * 2 + 5);
    let records = store.read(Some(980), Some(1010));
    assert_eq!(
        records,
        vec![entry(980, 98.0), entry(990, 99.0), entry(1000, 100.0), entry(1010, 101.0)]
    );
    assert_eq!(store.read(Some(2040), None), vec![entry(2040, 204.0)]);
    assert_eq!(store.read(None, Some(0)), vec![entry(0, 0.0)]);
    assert_eq!(store.read(Some(3000), None), vec![]);
    assert_eq!(store.read(Some(11), Some(19)), vec![]);
    assert_eq!(store.read(Some(20), Some(10)), vec![]);
}

#[test]
fn a_loaded_store_asks_for_the_blocks_it_needs() {
    let (_, data, index) = filled(ENTRIES_PER_BLOCK * 3 + 2);
    assert_eq!(index.len(), 3 * 17);

    let mut store = FieldStorage::load("field1", &index);
    assert!(store.is_well_formed());
    assert_eq!(store.name, "field1");
    assert_eq!(store.data_type, DataType::Float);
    assert_eq!(store.block_summaries.len(), 3);
    assert!(store.curr_block.entries.is_empty());

    // nothing is in memory: every block is missing, and a read finds nothing
    assert_eq!(store.missing_blocks(None, None), vec![0, 1, 2]);
    assert_eq!(store.read(None, None), vec![]);
    // only the blocks whose span overlaps the bounds are asked for
    assert_eq!(store.missing_blocks(Some(995), Some(1000)), vec![1]);
    assert_eq!(store.missing_blocks(Some(990), Some(1000)), vec![0, 1]);
    assert_eq!(store.missing_blocks(Some(5000), None), vec![]);
    assert_eq!(store.missing_blocks(None, Some(-1)), vec![]);

    store.supply_block(1, &data[BLOCK_SIZE..2 * BLOCK_SIZE]);
    assert_eq!(store.missing_blocks(None, None), vec![0, 2]);
    let records = store.read(Some(1500), Some(1520));
    assert_eq!(records, vec![entry(1500, 150.0), entry(1510, 151.0), entry(1520, 152.0)]);

    // a block that does not decode counts as empty and is not asked for again
    store.supply_block(0, &data[..100]);
    assert_eq!(store.missing_blocks(None, None), vec![2]);
    // an ordinal past the blocks changes nothing
    store.supply_block(3, &data[..BLOCK_SIZE]);
    assert_eq!(store.block_manager.blocks.len(), 3);

    store.supply_block(2, &data[2 * BLOCK_SIZE..]);
    assert_eq!(store.read(None, None).len(), 2 * ENTRIES_PER_BLOCK);
    assert!(store.is_well_formed());
}

#[test]
fn a_reopened_store_keeps_its_type_and_reads_its_blocks() {
    let mut store = FieldStorage::new("up", DataType::Bool);
    let mut data = vec![];
    let mut index = vec![];
    for i in 0..ENTRIES_PER_BLOCK + 1 {
        let item = FieldEntry { time: i as i64, value: DataValue::Bool(i % 2 == 0) };
        if let Some(flushed) = store.insert(item) {
            data = flushed.data;
            index = flushed.summary;
        }
    }
    assert_eq!(index[16], 1);
    let mut reopened = FieldStorage::load("up", &index);
    assert_eq!(reopened.data_type, DataType::Bool);
    reopened.supply_block(0, &data);
    let records = reopened.read(None, None);
    assert_eq!(records.len(), ENTRIES_PER_BLOCK);
    assert_eq!(records[0], FieldEntry { time: 0, value: DataValue::Bool(true) });
    assert_eq!(records[99], FieldEntry { time: 99, value: DataValue::Bool(false) });

    let mut times = FieldStorage::new("seen", DataType::Timestamp);
    let mut data = vec![];
    let mut index = vec![];
    for i in 0..ENTRIES_PER_BLOCK + 1 {
        let item = FieldEntry { time: i as i64, value: DataValue::Timestamp(-(i as i64)) };
        if let Some(flushed) = times.insert(item) {
            data = flushed.data;
            index = flushed.summary;
        }
    }
    let mut reopened = FieldStorage::load("seen", &index);
    assert_eq!(reopened.data_type, DataType::Timestamp);
    reopened.supply_block(0, &data);
    assert_eq!(reopened.read(Some(7), Some(7)), vec![FieldEntry { time: 7, value: DataValue::Timestamp(-7) }]);
}

#[test]
fn a_block_of_another_type_is_dropped() {
    let (_, data, _) = filled(ENTRIES_PER_BLOCK + 1);
    // the index says that the field holds booleans, the block holds floats
    let mut index = vec![];
    FieldStorageBlockSummary { start_timestamp: 0, latest_timestamp: 990, data_type: DataType::Bool }
        .write(&mut index);
    let mut reopened = FieldStorage::load("up", &index);
    reopened.supply_block(0, &data);
    assert_eq!(reopened.read(None, None), vec![]);
    assert_eq!(reopened.missing_blocks(None, None), Vec::<usize>::new());
}

#[test]
fn a_store_that_holds_nothing_takes_the_type_of_its_first_value() {
    let mut store = FieldStorage::load("up", &[]);
    assert_eq!(store.data_type, DataType::Float);
    store.insert(FieldEntry { time: 1, value: DataValue::Absent });
    assert_eq!(store.data_type, DataType::Float);

    let mut store = FieldStorage::new("up", DataType::Float);
    store.insert(FieldEntry { time: 1, value: DataValue::Bool(true) });
    assert_eq!(store.data_type, DataType::Bool);
    // later values leave the type alone
    store.insert(FieldEntry { time: 2, value: DataValue::Timestamp(5) });
    assert_eq!(store.data_type, DataType::Bool);

    let mut store = FieldStorage::new("seen", DataType::Bool);
    store.insert(FieldEntry { time: 1, value: DataValue::Timestamp(5) });
    assert_eq!(store.data_type, DataType::Timestamp);
}

#[test]
fn inserts_out_of_order_are_kept_in_arrival_order() {
    let mut store = FieldStorage::new("f", DataType::Float);
    store.insert(entry(30, 1.0));
    store.insert(entry(10, 2.0));
    store.insert(entry(20, 3.0));
    assert_eq!(store.read(None, None), vec![entry(30, 1.0), entry(10, 2.0), entry(20, 3.0)]);
    assert_eq!(store.read(Some(15), None), vec![entry(30, 1.0), entry(20, 3.0)]);
}

#[test]
fn summaries_are_monotone_for_inserts_in_time_order() {
    let (store, _, _) = filled(ENTRIES_PER_BLOCK * 5 + 1);
    let summaries = &store.block_summaries;
    assert_eq!(summaries.len(), 5);
    for i in 0..summaries.len() - 1 {
        assert!(summaries[i].start_timestamp <= summaries[i].latest_timestamp);
        assert!(summaries[i].latest_timestamp <= summaries[i + 1].start_timestamp);
    }
    assert_eq!(
        summaries[4],
        FieldStorageBlockSummary {
            start_timestamp: 4000,
            latest_timestamp: 4990,
            data_type: DataType::Float,
        }
    );
}

#[test]
fn overlap_is_inclusive() {
    let summary = FieldStorageBlockSummary {
        start_timestamp: 10,
        latest_timestamp: 20,
        data_type: DataType::Float,
    };
    assert!(overlaps(&summary, None, None));
    assert!(overlaps(&summary, Some(20), None));
    assert!(!overlaps(&summary, Some(21), None));
    assert!(overlaps(&summary, None, Some(10)));
    assert!(!overlaps(&summary, None, Some(9)));
    assert!(overlaps(&summary, Some(12), Some(13)));
    assert!(overlaps(&summary, Some(0), Some(100)));
}
