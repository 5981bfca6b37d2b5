use rtdb::storage::block_bool::{
    deserialize_1, deserialize_bools, deserialize_floats, serialize_bools, serialize_floats,
};
use rtdb::storage::block_manager::BlockManager;
use rtdb::storage::block_storage::StorageBlock;
use rtdb::storage::field::FieldEntry;
use rtdb::storage::field_block::{
    BlockError, FieldStorageBlock, BLOCK_SIZE, ENTRIES_PER_BLOCK, ENTRY_SIZE,
};
use rtdb::storage::field_index::{FieldStorageBlockSummary, SUMMARY_BLOCK_SIZE};
use rtdb::wire_protocol::DataType;
use rtdb::DataValue;

fn float(x: f64) -> DataValue {
    DataValue::Float(x.to_bits())
}

fn entry(time: i64, x: f64) -> FieldEntry {
    FieldEntry { time, value: float(x) }
}

fn block_of(entries: Vec<FieldEntry>) -> FieldStorageBlock {
    FieldStorageBlock { entries }
}

#[test]
fn full_loop() {
    let vals = vec![
        Some(true),
        Some(false),
        Some(false),
        None,
        Some(false),
        Some(true),
        Some(false),
        Some(true),
    ];
    let serialized = serialize_bools(&vals);
    let deserialized = deserialize_bools(&serialized);

    assert_eq!(deserialized, vals);
}

#[test]
fn bools_pack_two_bits_each_first_entry_highest() {
    let vals = vec![Some(true), Some(false), None, Some(true)];
    assert_eq!(serialize_bools(&vals), vec![0b1110_0011]);
    assert_eq!(serialize_bools(&vec![]), Vec::<u8>::new());
    assert_eq!(serialize_bools(&vec![Some(false)]), vec![0b1000_0000]);
}

#[test]
fn bools_fill_the_last_byte_with_absent_entries() {
    let vals = vec![Some(true), Some(true), Some(true), Some(true), Some(false)];
    let serialized = serialize_bools(&vals);
    assert_eq!(serialized, vec![0xFF, 0b1000_0000]);
    assert_eq!(
        deserialize_1(&serialized),
        vec![Some(true), Some(true), Some(true), Some(true), Some(false), None, None, None]
    );
}

#[test]
fn bools_unpack_the_spare_pattern_as_absent() {
    // 01 is no entry's pattern
    assert_eq!(deserialize_1(&[0b0111_1001]), vec![None, Some(true), Some(false), None]);
    assert_eq!(deserialize_bools(&[0b0111_1001]), deserialize_1(&[0b0111_1001]));
    assert_eq!(deserialize_bools(&[0xFF]), vec![Some(true); 4]);
}

#[test]
fn floats_pack_into_nine_bytes_each() {
    let vals = vec![Some(1.5f64.to_bits()), None];
    let serialized = serialize_floats(&vals);
    let mut expected = vec![1u8];
    expected.extend_from_slice(&1.5f64.to_le_bytes());
    expected.extend_from_slice(&[0u8; 9]);
    assert_eq!(serialized, expected);
    assert_eq!(deserialize_floats(&serialized), vals);
    // a partial record at the end is left out
    assert_eq!(deserialize_floats(&serialized[..17]), vec![Some(1.5f64.to_bits())]);
}

#[test]
fn storage_block_goes_by_the_type() {
    let bools = StorageBlock::Bool(vec![Some(true), None, Some(false), Some(false)]);
    let packed = bools.serialize();
    assert_eq!(packed, vec![0b1100_1010]);
    assert_eq!(StorageBlock::deserialize_from(&packed, DataType::Bool), Ok(bools));

    let floats = StorageBlock::Float64(vec![Some(2.0f64.to_bits())]);
    let packed = floats.serialize();
    assert_eq!(packed.len(), 9);
    assert_eq!(StorageBlock::deserialize_from(&packed, DataType::Float), Ok(floats));

    assert_eq!(
        StorageBlock::deserialize_from(&packed, DataType::Timestamp),
        Err(BlockError::TypeMismatch)
    );
}

#[test]
fn block_sizes_fit_together() {
    assert_eq!(BLOCK_SIZE, 2408);
    assert_eq!(ENTRIES_PER_BLOCK, (BLOCK_SIZE - 8) / ENTRY_SIZE);
    assert_eq!(ENTRIES_PER_BLOCK, 100);
    assert_eq!(SUMMARY_BLOCK_SIZE, 17);
}

#[test]
fn block_reads_within_inclusive_bounds() {
    let block = block_of(vec![entry(10, 1.0), entry(20, 2.0), entry(20, 3.0), entry(30, 4.0)]);
    assert_eq!(block.read(None, None), block.entries);
    assert_eq!(block.read(Some(20), None), vec![entry(20, 2.0), entry(20, 3.0), entry(30, 4.0)]);
    assert_eq!(block.read(None, Some(20)), vec![entry(10, 1.0), entry(20, 2.0), entry(20, 3.0)]);
    assert_eq!(block.read(Some(11), Some(29)), vec![entry(20, 2.0), entry(20, 3.0)]);
    assert_eq!(block.read(Some(30), Some(30)), vec![entry(30, 4.0)]);
    assert_eq!(block.read(Some(31), None), vec![]);
    assert_eq!(block.read(None, Some(9)), vec![]);
    assert_eq!(block.read(Some(25), Some(15)), vec![]);
}

#[test]
fn block_has_space_up_to_its_bound() {
    let mut block = FieldStorageBlock::new();
    for i in 0..ENTRIES_PER_BLOCK {
        assert!(block.has_space());
        block.insert(entry(i as i64, 0.0));
    }
    assert!(!block.has_space());
    assert_eq!(block.entries.len(), ENTRIES_PER_BLOCK);
}

#[test]
fn block_on_disk_has_the_stated_layout() {
    let block = block_of(vec![
        FieldEntry { time: 258, value: DataValue::Bool(true) },
        FieldEntry { time: -1, value: float(0.5) },
    ]);
    let mut out = vec![0xAA];
    block.write_data(&mut out);
    assert_eq!(out.len(), 1 + BLOCK_SIZE);
    assert_eq!(out[0], 0xAA);
    let bytes = &out[1..];
    assert_eq!(&bytes[..8], &2u64.to_le_bytes());
    // the first record: time, tag, value, seven zero bytes
    assert_eq!(&bytes[8..16], &258i64.to_le_bytes());
    assert_eq!(bytes[16], 2);
    assert_eq!(&bytes[17..25], &1u64.to_le_bytes());
    assert_eq!(&bytes[25..32], &[0u8; 7]);
    // the second record
    assert_eq!(&bytes[32..40], &(-1i64).to_le_bytes());
    assert_eq!(bytes[40], 3);
    assert_eq!(&bytes[41..49], &0.5f64.to_le_bytes());
    assert!(bytes[49..].iter().all(|b| *b == 0));
}

#[test]
fn block_round_trip() {
    let mut block = FieldStorageBlock::new();
    for i in 0..ENTRIES_PER_BLOCK {
        block.insert(entry(1_663_000_000_000_000_000 + i as i64, i as f64 * 0.25));
    }
    let mut bytes = vec![];
    block.write_data(&mut bytes);
    assert_eq!(bytes.len(), BLOCK_SIZE);
    assert_eq!(FieldStorageBlock::decode(&bytes, DataType::Float), Ok(block));

    let mixed = block_of(vec![
        FieldEntry { time: i64::MIN, value: DataValue::Bool(false) },
        FieldEntry { time: 0, value: DataValue::Absent },
        FieldEntry { time: i64::MAX, value: DataValue::Bool(true) },
    ]);
    let mut bytes = vec![];
    mixed.write_data(&mut bytes);
    assert_eq!(FieldStorageBlock::decode(&bytes, DataType::Bool), Ok(mixed));

    let times = block_of(vec![FieldEntry { time: 5, value: DataValue::Timestamp(-9) }]);
    let mut bytes = vec![];
    times.write_data(&mut bytes);
    assert_eq!(FieldStorageBlock::decode(&bytes, DataType::Timestamp), Ok(times));

    let empty = FieldStorageBlock::new();
    let mut bytes = vec![];
    empty.write_data(&mut bytes);
    assert_eq!(bytes, vec![0u8; BLOCK_SIZE]);
    assert_eq!(FieldStorageBlock::decode(&bytes, DataType::Float), Ok(empty));
}

#[test]
fn block_decode_failures() {
    let block = block_of(vec![entry(1, 1.0)]);
    let mut bytes = vec![];
    block.write_data(&mut bytes);

    // a short read
    assert_eq!(
        FieldStorageBlock::decode(&bytes[..BLOCK_SIZE - 1], DataType::Float),
        Err(BlockError::DecodeFailure)
    );
    assert_eq!(FieldStorageBlock::decode(&[], DataType::Float), Err(BlockError::DecodeFailure));

    // a count past the bound
    let mut long = bytes.clone();
    long[0] = 101;
    assert_eq!(FieldStorageBlock::decode(&long, DataType::Float), Err(BlockError::DecodeFailure));
    let mut huge = bytes.clone();
    huge[7] = 1;
    assert_eq!(FieldStorageBlock::decode(&huge, DataType::Float), Err(BlockError::DecodeFailure));

    // an unknown tag
    let mut unknown = bytes.clone();
    unknown[16] = 4;
    assert_eq!(
        FieldStorageBlock::decode(&unknown, DataType::Float),
        Err(BlockError::DecodeFailure)
    );

    // a value of another type than the field's
    assert_eq!(FieldStorageBlock::decode(&bytes, DataType::Bool), Err(BlockError::TypeMismatch));
    assert_eq!(
        FieldStorageBlock::decode(&bytes, DataType::Timestamp),
        Err(BlockError::TypeMismatch)
    );

    // refused bytes load as an empty block
    assert_eq!(FieldStorageBlock::load(&long, DataType::Float), FieldStorageBlock::new());
    assert_eq!(FieldStorageBlock::load(&bytes, DataType::Bool), FieldStorageBlock::new());
    assert_eq!(FieldStorageBlock::load(&bytes, DataType::Float), block);
}

#[test]
fn summary_spans_the_block() {
    let entries = vec![entry(3, 0.0), entry(9, 0.0), entry(4, 0.0)];
    assert_eq!(
        FieldStorageBlockSummary::from_entries(&entries, DataType::Float),
        FieldStorageBlockSummary { start_timestamp: 3, latest_timestamp: 4, data_type: DataType::Float }
    );
    let mut out = vec![];
    let summary = block_of(entries).write_summary(&mut out, DataType::Bool);
    assert_eq!(
        summary,
        FieldStorageBlockSummary { start_timestamp: 3, latest_timestamp: 4, data_type: DataType::Bool }
    );
    let mut expected = 3i64.to_le_bytes().to_vec();
    expected.extend_from_slice(&4i64.to_le_bytes());
    expected.push(1);
    assert_eq!(out, expected);
}

#[test]
fn index_round_trip() {
    let summaries = vec![
        FieldStorageBlockSummary { start_timestamp: -5, latest_timestamp: 7, data_type: DataType::Float },
        FieldStorageBlockSummary {
            start_timestamp: 8,
            latest_timestamp: i64::MAX,
            data_type: DataType::Bool,
        },
        FieldStorageBlockSummary {
            start_timestamp: i64::MIN,
            latest_timestamp: 0,
            data_type: DataType::Timestamp,
        },
    ];
    let mut index = vec![];
    for summary in &summaries {
        summary.write(&mut index);
    }
    assert_eq!(index.len(), 3 * SUMMARY_BLOCK_SIZE);
    assert_eq!(FieldStorageBlockSummary::load_all(&index), summaries);
    // a short write at the end is left out
    assert_eq!(FieldStorageBlockSummary::load_all(&index[..50]), summaries[..2].to_vec());
    // a tag that names no type reads as the type of floats
    let mut odd = index[..17].to_vec();
    odd[16] = 9;
    assert_eq!(FieldStorageBlockSummary::load_all(&odd), summaries[..1].to_vec());
    assert_eq!(FieldStorageBlockSummary::load_all(&[]), vec![]);
}

#[test]
fn block_manager_takes_each_block_once() {
    let first = block_of(vec![entry(1, 1.0)]);
    let mut bytes = vec![];
    first.write_data(&mut bytes);
    let second = block_of(vec![entry(2, 2.0)]);
    let mut other = vec![];
    second.write_data(&mut other);

    let mut manager = BlockManager::new(2);
    assert!(!manager.is_cached(0));
    assert!(!manager.is_cached(1));
    assert!(!manager.is_cached(2));

    manager.load(1, &bytes, DataType::Float);
    assert!(manager.is_cached(1));
    assert_eq!(manager.blocks, vec![None, Some(first.clone())]);

    // a filled slot keeps its block, a slot past the cache is none
    manager.load(1, &other, DataType::Float);
    manager.load(2, &other, DataType::Float);
    assert_eq!(manager.blocks, vec![None, Some(first.clone())]);

    // refused bytes fill the slot with an empty block
    manager.load(0, &other[..10], DataType::Float);
    assert_eq!(manager.blocks, vec![Some(FieldStorageBlock::new()), Some(first.clone())]);

    manager.push(second.clone());
    assert_eq!(manager.blocks.len(), 3);
    assert_eq!(manager.blocks[2], Some(second));
}

#[test]
fn it_reads_a_block() {
    let base = 1662352954755100000i64;
    let times = [5835, 6500, 7200, 8100, 9000, 11900, 12508, 12708, 13300, 14000];
    let values = [123.0, 1.0, 2.0, 3.0, 4.0, 4.5, 5.0, 5.0, 6.0, 7.0];
    let mut written = FieldStorageBlock::new();
    for i in 0..10 {
        written.insert(entry(base + times[i], values[i]));
    }
    let mut bytes = vec![];
    written.write_data(&mut bytes);

    let s = FieldStorageBlock::load(&bytes, DataType::Float);
    assert_eq!(s.entries.len(), 10);

    let values = s.read(None, None);
    assert_eq!(values[0].value, float(123.0));
    assert_eq!(values[0].time, 1662352954755105835);

    let values = s.read(Some(1662352954755112508), None);
    assert_eq!(values[0].value, float(5.0));
    assert_eq!(values[0].time, 1662352954755112508);

    let values = s.read(None, Some(1662352954755112608));
    assert_eq!(values.len(), 7);
    assert_eq!(values[values.len() - 1].time, 1662352954755112508);

    let values = s.read(Some(1662352954755112508), Some(1662352954755113199));
    assert_eq!(values[values.len() - 1].value, float(5.0));
    assert_eq!(values[values.len() - 1].time, 1662352954755112708);
}

#[test]
fn field_index_load() {
    let mut index = vec![];
    let summary =
        FieldStorageBlockSummary { start_timestamp: 1, latest_timestamp: 2, data_type: DataType::Float };
    summary.write(&mut index);
    let summaries = FieldStorageBlockSummary::load_all(&index);
    assert_eq!(summaries, vec![summary]);
}
