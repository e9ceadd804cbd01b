use lsmtree::memtable::{MemTable, Value};

#[test]
fn test_mt_len() {
    let timestamp = lsmtree::utils::get_timestamp() as u64;
    let mut memtable = MemTable::new();
    assert_eq!(memtable.len(), 0);
    memtable.put("key1", "value1", timestamp);
    assert_eq!(memtable.len(), 18);
    memtable.put("key2", "value3", timestamp);
    assert_eq!(memtable.len(), 36);
    memtable.delete("key1", timestamp);
    assert_eq!(memtable.len(), 30);
}

#[test]
fn test_mt_len_empty() {
    let timestamp = lsmtree::utils::get_timestamp() as u64;
    let mut memtable = MemTable::new();
    memtable.put("key1", "", timestamp);
    let encoded = memtable.encode();
    println!("{:?}", encoded);

    memtable.delete("key1", timestamp);
    let encoded = memtable.encode();
    println!("{:?}", encoded);
}

#[test]
fn test_mt_len_dup() {
    let timestamp = lsmtree::utils::get_timestamp() as u64;
    let mut memtable = MemTable::new();
    memtable.put("key1", "value2", timestamp);
    assert_eq!(memtable.len(), 18);
    memtable.put("key1", "value3", timestamp);
    assert_eq!(memtable.len(), 18);
}

#[test]
fn test_mt_len_multi_byte() {
    let timestamp = lsmtree::utils::get_timestamp() as u64;
    let mut memtable = MemTable::new();
    memtable.put("キー", "バリュー", timestamp);
    assert_eq!(memtable.len(), 26);
}

#[test]
fn test_mt_encode() {
    let timestamp = lsmtree::utils::get_timestamp() as u64;
    let mut memtable = MemTable::new();
    memtable.put("1", "a", timestamp);
    memtable.put("234", "bcd", timestamp);
    memtable.put("キー", "バリュー", timestamp);

    let encoded = memtable.encode();

    assert_eq!(&encoded[0..26], &[
        1u64.to_ne_bytes().to_vec(),
        "1".as_bytes().to_vec(),
        1u64.to_ne_bytes().to_vec(),
        "a".as_bytes().to_vec(),
        timestamp.to_ne_bytes().to_vec(),
    ].concat());

    assert_eq!(&encoded[26..56], &[
        3u64.to_ne_bytes().to_vec(),
        "234".as_bytes().to_vec(),
        3u64.to_ne_bytes().to_vec(),
        "bcd".as_bytes().to_vec(),
        timestamp.to_ne_bytes().to_vec(),
    ].concat());

    assert_eq!(&encoded[56..98], &[
        6u64.to_ne_bytes().to_vec(),
        "キー".as_bytes().to_vec(),
        12u64.to_ne_bytes().to_vec(),
        "バリュー".as_bytes().to_vec(),
        timestamp.to_ne_bytes().to_vec(),
    ].concat());

    memtable.delete("1", timestamp + 1);
    let encoded = memtable.encode();

    assert_eq!(&encoded[0..25], &[
        1u64.to_ne_bytes().to_vec(),
        "1".as_bytes().to_vec(),
        0u64.to_ne_bytes().to_vec(),
        (timestamp + 1).to_ne_bytes().to_vec(),
    ].concat());
}

#[test]
fn test_mt_delete() {
    let timestamp = lsmtree::utils::get_timestamp() as u64;
    let mut memtable = MemTable::new();
    memtable.put("key1", "value1", timestamp);
    assert_eq!(memtable.get("key1"), Some(Value::Data("value1".to_owned(), timestamp)));

    memtable.delete("key1", timestamp);
    assert_eq!(memtable.get("key1"), Some(Value::Tombstone(timestamp)));
}

#[test]
fn memtable_put_returns_replaced_record() {
    let mut memtable = MemTable::new();
    assert_eq!(memtable.put("k", "v1", 1), None);
    assert_eq!(memtable.put("k", "v2", 2), Some(Value::Data("v1".to_owned(), 1)));
    assert_eq!(memtable.delete("k", 3), Some(Value::Data("v2".to_owned(), 2)));
    assert_eq!(memtable.get("k"), Some(Value::Tombstone(3)));
    assert_eq!(memtable.get("x"), None);
}

#[test]
fn memtable_later_write_wins_regardless_of_timestamp() {
    let mut memtable = MemTable::new();
    memtable.put("k", "new", 10);
    memtable.put("k", "older", 5);
    assert_eq!(memtable.get("k"), Some(Value::Data("older".to_owned(), 5)));
}

#[test]
fn memtable_iterates_in_byte_order() {
    let mut memtable = MemTable::new();
    memtable.put("b", "2", 1);
    memtable.put("キー", "x", 2);
    memtable.put("a", "1", 3);
    let mut it = memtable.iter();
    let mut keys = vec![];
    while let Some((k, _)) = it.next() {
        keys.push(k);
    }
    assert_eq!(keys, vec!["a".to_owned(), "b".to_owned(), "キー".to_owned()]);
    assert!(!memtable.is_empty());
    memtable.clear();
    assert!(memtable.is_empty());
    assert_eq!(memtable.len(), 0);
}

#[test]
fn value_display_text() {
    assert_eq!(Value::Data("v".to_owned(), 42).to_display_string(), "value: v, timestamp: 42");
    assert_eq!(Value::Tombstone(7).to_display_string(), "Tombstone, timestamp: 7");
}

#[test]
fn encode_key_value_of_tombstone_has_empty_value() {
    let buf = MemTable::encode_key_value("k", None, 1);
    assert_eq!(buf, vec![1, 0, 0, 0, 0, 0, 0, 0, 107, 0, 0, 0, 0, 0, 0, 0, 0, 1, 0, 0, 0, 0, 0, 0, 0]);
}
