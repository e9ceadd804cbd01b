use lsmtree::memtable::MemTable;
use lsmtree::sstable::{SSTableData, SSTableHeader, SSTableIndex, SSTableRecord, SSTableRecords};

const PAGE: usize = 4096;

fn abc_table(timestamp: u64) -> Vec<u8> {
    vec![
        1u64.to_ne_bytes().to_vec(),
        "a".as_bytes().to_vec(),
        1u64.to_ne_bytes().to_vec(),
        "1".as_bytes().to_vec(),
        timestamp.to_ne_bytes().to_vec(),
        1u64.to_ne_bytes().to_vec(),
        "b".as_bytes().to_vec(),
        1u64.to_ne_bytes().to_vec(),
        "2".as_bytes().to_vec(),
        timestamp.to_ne_bytes().to_vec(),
        1u64.to_ne_bytes().to_vec(),
        "c".as_bytes().to_vec(),
        1u64.to_ne_bytes().to_vec(),
        "3".as_bytes().to_vec(),
        timestamp.to_ne_bytes().to_vec(),
    ].concat()
}

#[test]
fn test_sst_index_from_memtable() {
    let timestamp = 12345u64;
    let page_size = PAGE as u64;
    let mut memtable = MemTable::new();
    memtable.put("a", "1", timestamp);
    memtable.put("b", "2", timestamp);
    memtable.put("c", "3", timestamp);
    let data = SSTableData::from_memtable(&memtable, PAGE).unwrap();
    let sst_index = SSTableIndex::from_sstable_data(&data, page_size);
    assert_eq!(sst_index.len(), 1);
    assert_eq!(sst_index.get(&"a".to_owned()).unwrap(), &0);
}

#[test]
fn test_sst_index_from_memtable_page_size_data() {
    let timestamp = 12345u64;
    let page_size = PAGE as u64;
    let mut memtable = MemTable::new();
    for i in 0..4 {
        let value = "a".repeat(PAGE - 25);
        memtable.put(&i.to_string(), &value, timestamp);
    }
    let data = SSTableData::from_memtable(&memtable, PAGE).unwrap();
    let sst_index = SSTableIndex::from_sstable_data(&data, page_size);
    assert_eq!(sst_index.len(), 4);
    assert_eq!(*sst_index.get(&"0".to_owned()).unwrap(), 0);
    assert_eq!(*sst_index.get(&"1".to_owned()).unwrap(), page_size);
    assert_eq!(*sst_index.get(&"2".to_owned()).unwrap(), page_size * 2);
    assert_eq!(*sst_index.get(&"3".to_owned()).unwrap(), page_size * 3);
}

#[test]
fn test_sst_index_from_memtable_crossing_page_size() {
    let timestamp = 12345u64;
    let page_size = PAGE as u64;
    let mut memtable = MemTable::new();
    memtable.put("1", "a".repeat(PAGE).as_str(), timestamp);
    memtable.put("3", "c".repeat(PAGE).as_str(), timestamp);
    memtable.put("2", "b".repeat(PAGE / 2).as_str(), timestamp);
    memtable.put("キー4", "d", timestamp);
    let data = SSTableData::from_memtable(&memtable, PAGE).unwrap();
    let sst_index = SSTableIndex::from_sstable_data(&data, page_size);
    assert_eq!(sst_index.len(), 3);
    assert_eq!(*sst_index.get(&"1".to_owned()).unwrap(), 0);
    assert_eq!(*sst_index.get(&"2".to_owned()).unwrap(), page_size + 25);
    assert_eq!(*sst_index.get(&"キー4".to_owned()).unwrap(), page_size * 2 + 75 + page_size / 2);
}

#[test]
fn test_sst_index_tryfrom_data() {
    let timestamp = 12345u64;
    let page_size = PAGE as u64;
    let data = SSTableData::try_from(abc_table(timestamp)).unwrap();
    let index = SSTableIndex::from_sstable_data(&data, page_size);
    assert_eq!(index.len(), 1);
    assert_eq!(index.get(&"a".to_owned()).unwrap(), &0);
}

#[test]
fn test_sst_index_tryfrom_data_page_size_data() {
    let mut data = vec![];
    let page_size = PAGE as u64;
    let value = "a".repeat(PAGE - 25);
    let timestamp = 12345u64;
    for i in 0usize..4usize {
        data.extend_from_slice(&[
            i.to_string().len().to_ne_bytes().to_vec(),
            i.to_string().as_bytes().to_vec(),
            value.len().to_ne_bytes().to_vec(),
            value.as_bytes().to_vec(),
            timestamp.to_ne_bytes().to_vec(),
        ].concat());
    }
    let data = SSTableData::try_from(data).unwrap();
    let index = SSTableIndex::from_sstable_data(&data, page_size);
    assert_eq!(index.len(), 4);
    assert_eq!(0, *index.get(&"0".to_owned()).unwrap());
    assert_eq!(page_size, *index.get(&"1".to_owned()).unwrap());
    assert_eq!(page_size * 2, *index.get(&"2".to_owned()).unwrap());
    assert_eq!(page_size * 3, *index.get(&"3".to_owned()).unwrap());
}

#[test]
fn test_sst_index_tryfrom_data_crossing_page_size() {
    let timestamp = 12345u64;
    let page_size = PAGE as u64;
    let data = SSTableData::try_from(vec![
        1u64.to_ne_bytes().to_vec(),
        "1".as_bytes().to_vec(),
        PAGE.to_ne_bytes().to_vec(),
        "a".repeat(PAGE).as_bytes().to_vec(),
        timestamp.to_ne_bytes().to_vec(),
        1u64.to_ne_bytes().to_vec(),
        "2".as_bytes().to_vec(),
        (PAGE / 2).to_ne_bytes().to_vec(),
        "b".repeat(PAGE / 2).as_bytes().to_vec(),
        timestamp.to_ne_bytes().to_vec(),
        1u64.to_ne_bytes().to_vec(),
        "3".as_bytes().to_vec(),
        PAGE.to_ne_bytes().to_vec(),
        "c".repeat(PAGE).as_bytes().to_vec(),
        timestamp.to_ne_bytes().to_vec(),
        7u64.to_ne_bytes().to_vec(),
        "キー4".as_bytes().to_vec(),
        1u64.to_ne_bytes().to_vec(),
        "d".as_bytes().to_vec(),
        timestamp.to_ne_bytes().to_vec(),
    ].concat()).unwrap();
    let index = SSTableIndex::from_sstable_data(&data, page_size);
    assert_eq!(index.len(), 3);
    let protruding_2 = 25u64;
    let protruding_key4 = 25u64 + 42u64 + 8u64;
    assert_eq!(*index.get(&"1".to_owned()).unwrap(), 0);
    assert_eq!(*index.get(&"2".to_owned()).unwrap(), page_size + protruding_2);
    assert_eq!(*index.get(&"キー4".to_owned()).unwrap(), page_size * 2 + protruding_key4 + page_size / 2);
}

#[test]
fn test_sst_index_encode() {
    let mut vec = vec![("c", 1000u64), ("a", 0u64), ("b", 3u64)];
    let mut sst_index = SSTableIndex::new();
    vec.iter().for_each(|(key, offset)| {
        sst_index.insert((*key).to_owned(), *offset);
    });
    let encoded = sst_index.encode();
    let mut buf = Vec::new();
    vec.sort();
    for (key, offset) in vec.iter() {
        buf.extend_from_slice(&key.len().to_ne_bytes());
        buf.extend_from_slice(key.as_bytes());
        buf.extend_from_slice(&offset.to_ne_bytes());
    }
    assert_eq!(encoded, buf);
}

#[test]
fn test_sst_index_decode() {
    let encoded = vec![
        1, 0, 0, 0, 0, 0, 0, 0,
        97,
        0, 0, 0, 0, 0, 0, 0, 0,
        1, 0, 0, 0, 0, 0, 0, 0,
        98,
        3, 0, 0, 0, 0, 0, 0, 0,
        1, 0, 0, 0, 0, 0, 0, 0,
        99,
        232, 3, 0, 0, 0, 0, 0, 0,
    ];
    let decoded = SSTableIndex::decode(&encoded).unwrap();
    assert_eq!(decoded.len(), 3);
    assert_eq!(decoded.get(&"a".to_owned()).unwrap(), &0);
    assert_eq!(decoded.get(&"b".to_owned()).unwrap(), &3);
    assert_eq!(decoded.get(&"c".to_owned()).unwrap(), &1000);
}

#[test]
fn test_sst_index_find_key_range() {
    let vec = vec![("c", 1000u64), ("b", 0u64), ("e", 2000u64)];
    let mut sst_index = SSTableIndex::new();
    vec.iter().for_each(|(key, offset)| {
        sst_index.insert((*key).to_owned(), *offset);
    });
    assert_eq!(sst_index.find_key_range(&"a".to_owned()), None);
    assert_eq!(sst_index.find_key_range(&"b".to_owned()), Some((0, Some(1000))));
    assert_eq!(sst_index.find_key_range(&"c".to_owned()), Some((1000, Some(2000))));
    assert_eq!(sst_index.find_key_range(&"d".to_owned()), Some((1000, Some(2000))));
    assert_eq!(sst_index.find_key_range(&"e".to_owned()), Some((2000, None)));
    assert_eq!(sst_index.find_key_range(&"f".to_owned()), Some((2000, None)));
}

#[test]
fn test_sst_data_try_from_u8_slice() {
    let timestamp = 12345u64;
    let data = SSTableData::try_from(abc_table(timestamp)).unwrap();
    assert_eq!(data.len(), 78);
    assert_eq!(data.get(&"a".to_owned(), Some(0)), Some(&(Some("1".to_owned()), timestamp)));
    assert_eq!(data.get(&"b".to_owned(), Some(0)), Some(&(Some("2".to_owned()), timestamp)));
    assert_eq!(data.get(&"c".to_owned(), None), Some(&(Some("3".to_owned()), timestamp)));
}

#[test]
fn test_sst_data_iter() {
    let timestamp = 12345u64;
    let data = SSTableData::try_from(abc_table(timestamp)).unwrap();
    let mut iter = data.iter();

    let record = iter.next().unwrap();
    assert_eq!(record.key(), &"a".to_owned());
    assert_eq!(record.value(), &(Some("1".to_owned()), timestamp));
    assert_eq!(record.timestamp(), timestamp);

    let record = iter.next().unwrap();
    assert_eq!(record.key(), &"b".to_owned());
    assert_eq!(record.value(), &(Some("2".to_owned()), timestamp));
    assert_eq!(record.timestamp(), timestamp);

    let record = iter.next().unwrap();
    assert_eq!(record.key(), &"c".to_owned());
    assert_eq!(record.value(), &(Some("3".to_owned()), timestamp));
    assert_eq!(record.timestamp(), timestamp);

    assert_eq!(iter.next(), None);
}

#[test]
fn test_sst_records_get_existed_key() {
    let timestamp = 12345u64;
    let data = SSTableData::try_from(abc_table(timestamp)).unwrap();
    assert_eq!(data.get(&"a".to_owned(), Some(0)), Some(&(Some("1".to_owned()), timestamp)));
    assert_eq!(data.get(&"b".to_owned(), Some(0)), Some(&(Some("2".to_owned()), timestamp)));
    assert_eq!(data.get(&"c".to_owned(), Some(0)), Some(&(Some("3".to_owned()), timestamp)));
}

#[test]
fn test_sst_records_get_deleted_key() {
    let timestamp = 12345u64;
    let data = SSTableData::try_from(vec![
        1u64.to_ne_bytes().to_vec(),
        "a".as_bytes().to_vec(),
        0u64.to_ne_bytes().to_vec(),
        timestamp.to_ne_bytes().to_vec(),
    ].concat()).unwrap();
    assert_eq!(data.get(&"a".to_owned(), Some(0)), Some(&(None, timestamp)));
}

#[test]
fn test_sst_records_get_not_existed_key() {
    let timestamp = 12345u64;
    let data = SSTableData::try_from(abc_table(timestamp)).unwrap();
    assert_eq!(data.get(&"d".to_owned(), Some(0)), None);
}

#[test]
fn test_sst_records_get_many_chunks_with_small_record() {
    let timestamp = 12345u64;
    let mut data = vec![];
    let chunk_size = PAGE * 16;
    for i in 0..chunk_size {
        data.push(i.to_string());
    }
    data.sort();
    let mut sst_raw_data = vec![];
    for v in data.iter() {
        let key = v.as_bytes();
        let value = v.as_bytes();
        sst_raw_data.extend_from_slice(&[
            key.len().to_ne_bytes().to_vec(),
            key.to_vec(),
            value.len().to_ne_bytes().to_vec(),
            value.to_vec(),
            timestamp.to_ne_bytes().to_vec(),
        ].concat());
    }
    let data = SSTableData::try_from(sst_raw_data).unwrap();
    for i in 0..chunk_size {
        let key = i.to_string();
        let value = i.to_string();
        assert_eq!(data.get(&key, None), Some(&(Some(value), timestamp)));
    }
}

#[test]
fn test_sst_record_encode() {
    let timestamp = 12345u64;
    let record = SSTableRecord::new("a".to_owned(), (Some("1".to_owned()), timestamp));
    let encoded = record.encode();
    let mut buf = Vec::new();
    buf.extend_from_slice(&1u64.to_ne_bytes());
    buf.extend_from_slice("a".as_bytes());
    buf.extend_from_slice(&1u64.to_ne_bytes());
    buf.extend_from_slice("1".as_bytes());
    buf.extend_from_slice(&timestamp.to_ne_bytes());
    assert_eq!(encoded, buf);
}

#[test]
fn test_sst_record_encode_deleted() {
    let timestamp = 12345u64;
    let record = SSTableRecord::new("a".to_owned(), (None, timestamp));
    let encoded = record.encode();
    let mut buf = Vec::new();
    buf.extend_from_slice(&1u64.to_ne_bytes());
    buf.extend_from_slice("a".as_bytes());
    buf.extend_from_slice(&0u64.to_ne_bytes());
    buf.extend_from_slice(&timestamp.to_ne_bytes());
    assert_eq!(encoded, buf);
}

#[test]
fn test_sst_record_decode_inserted() {
    let timestamp = 12345u64;
    let encoded = vec![
        1u64.to_ne_bytes().to_vec(),
        "a".as_bytes().to_vec(),
        1u64.to_ne_bytes().to_vec(),
        "1".as_bytes().to_vec(),
        timestamp.to_ne_bytes().to_vec(),
    ].concat();
    let decoded = SSTableRecord::decode(&encoded).unwrap();
    assert_eq!(decoded.0, SSTableRecord("a".to_owned(), (Some("1".to_owned()), timestamp)));
    assert_eq!(decoded.1, 26);
}

#[test]
fn test_sst_record_decode_deleted() {
    let timestamp = 12345u64;
    let encoded = vec![
        1u64.to_ne_bytes().to_vec(),
        "a".as_bytes().to_vec(),
        0u64.to_ne_bytes().to_vec(),
        timestamp.to_ne_bytes().to_vec(),
    ].concat();
    let decoded = SSTableRecord::decode(&encoded).unwrap();
    assert_eq!(decoded.0, SSTableRecord("a".to_owned(), (None, timestamp)));
    assert_eq!(decoded.1, 25);
}

#[test]
fn record_round_trip() {
    let record = SSTableRecord::new("キー".to_owned(), (Some("バリュー".to_owned()), 99));
    let (back, used) = SSTableRecord::decode(&record.encode()).unwrap();
    assert_eq!(back, record);
    assert_eq!(used, record.size());
    let tomb = SSTableRecord::new("k".to_owned(), (None, 7));
    let (back, used) = SSTableRecord::decode(&tomb.encode()).unwrap();
    assert_eq!(back, tomb);
    assert_eq!(used, 25);
}

#[test]
fn record_decode_rejects_truncated_and_invalid() {
    let record = SSTableRecord::new("key".to_owned(), (Some("value".to_owned()), 1));
    let bytes = record.encode();
    for cut in 0..bytes.len() {
        assert!(SSTableRecord::decode(&bytes[..cut]).is_err());
    }
    let mut bad = bytes.clone();
    bad[8] = 0xff;
    assert!(SSTableRecord::decode(&bad).is_err());
    let mut huge = bytes.clone();
    huge[7] = 0x80;
    assert!(SSTableRecord::decode(&huge).is_err());
}

#[test]
fn data_decode_rejects_unsorted_keys() {
    let a = SSTableRecord::new("b".to_owned(), (Some("1".to_owned()), 1)).encode();
    let b = SSTableRecord::new("a".to_owned(), (Some("2".to_owned()), 2)).encode();
    assert!(SSTableData::try_from([a.clone(), b].concat()).is_err());
    assert!(SSTableData::try_from([a.clone(), a].concat()).is_err());
    assert_eq!(SSTableData::try_from(vec![]).unwrap().len(), 0);
}

#[test]
fn data_push_keeps_order_and_chunks() {
    let mut data = SSTableData::new(30);
    assert!(data.push(SSTableRecord::new("a".to_owned(), (Some("1".to_owned()), 1))).is_ok());
    assert!(data.push(SSTableRecord::new("c".to_owned(), (Some("3".to_owned()), 3))).is_ok());
    assert!(data.push(SSTableRecord::new("b".to_owned(), (Some("2".to_owned()), 2))).is_err());
    assert!(data.push(SSTableRecord::new("d".to_owned(), (None, 4))).is_ok());
    assert_eq!(data.chunk_count(), 2);
    assert_eq!(data.get(&"c".to_owned(), None), Some(&(Some("3".to_owned()), 3)));
    assert_eq!(data.get(&"d".to_owned(), Some(5)), Some(&(None, 4)));
    assert_eq!(data.get(&"b".to_owned(), Some(1)), None);
    assert_eq!(data.len(), 26 + 26 + 25);
}

#[test]
fn index_decode_rejects_bad_input() {
    let mut index = SSTableIndex::new();
    index.insert("a".to_owned(), 0);
    index.insert("b".to_owned(), 10);
    let bytes = index.encode();
    assert_eq!(index.size(), bytes.len() as u64);
    assert!(SSTableIndex::decode(&bytes[..bytes.len() - 1]).is_err());
    let mut swapped = bytes[17..].to_vec();
    swapped.extend_from_slice(&bytes[..17]);
    assert!(SSTableIndex::decode(&swapped).is_err());
    index.insert("a".to_owned(), 5);
    assert_eq!(index.get(&"a".to_owned()), Some(&5));
    let mut it = index.iter();
    assert_eq!(it.next(), Some(("a".to_owned(), 5)));
    assert_eq!(it.next(), Some(("b".to_owned(), 10)));
    assert_eq!(it.next(), None);
}

#[test]
fn header_round_trip() {
    let header = SSTableHeader::new(16, 300);
    let bytes = header.encode();
    assert_eq!(bytes.len() as u64, SSTableHeader::SIZE);
    let back = SSTableHeader::decode(&bytes).unwrap();
    assert_eq!(back, header);
    assert!(SSTableHeader::decode(&bytes[..15]).is_err());
}

#[test]
fn flushed_table_reads_back() {
    let mut memtable = MemTable::new();
    memtable.put("b", "2", 2);
    memtable.delete("a", 1);
    memtable.put("キー", "バリュー", 3);
    let (data, index) = lsmtree::sstable::SSTableWriter::write(&memtable, 40).unwrap();
    assert_eq!(data, memtable.encode());
    let table = SSTableData::try_from(data.clone()).unwrap();
    assert_eq!(table.get(&"a".to_owned(), None), Some(&(None, 1)));
    assert_eq!(table.get(&"b".to_owned(), None), Some(&(Some("2".to_owned()), 2)));
    assert_eq!(table.get(&"キー".to_owned(), None), Some(&(Some("バリュー".to_owned()), 3)));
    let index = SSTableIndex::decode(&index).unwrap();
    assert_eq!(index.len(), 2);
    assert_eq!(index.find_key_range(&"b".to_owned()), Some((0, Some(51))));
}

#[test]
fn records_chunk_fills_to_threshold() {
    let a = SSTableRecord::new("a".to_owned(), (Some("1".to_owned()), 1));
    let b = SSTableRecord::new("b".to_owned(), (Some("2".to_owned()), 2));
    let c = SSTableRecord::new("c".to_owned(), (None, 3));
    let bytes = [a.encode(), b.encode(), c.encode()].concat();
    let (chunk, used) = SSTableRecords::decode(&bytes, 30).unwrap();
    assert_eq!(chunk.len(), 2);
    assert_eq!(used, 52);
    assert_eq!(chunk.size(), 52);
    assert_eq!(chunk.get(&"b".to_owned()), Some(&(Some("2".to_owned()), 2)));
    assert_eq!(chunk.get(&"c".to_owned()), None);
    let mut it = chunk.iter();
    assert_eq!(it.next(), Some(a.clone()));
    assert_eq!(it.next(), Some(b.clone()));
    assert_eq!(it.next(), None);
    let mut fresh = SSTableRecords::new();
    assert!(fresh.push(b.clone(), 30).is_ok());
    assert!(fresh.push(a, 30).is_err());
    assert!(fresh.push(c.clone(), 30).is_ok());
    assert!(fresh.push(SSTableRecord::new("d".to_owned(), (None, 4)), 30).is_err());
    assert_eq!(fresh.len(), 2);
}

#[test]
fn nul_value_is_not_a_tombstone() {
    let record = SSTableRecord::new("a".to_owned(), (Some("\0".to_owned()), 1));
    let (back, used) = SSTableRecord::decode(&record.encode()).unwrap();
    assert_eq!(back, record);
    assert_eq!(used, 26);
}
