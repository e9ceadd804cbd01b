use lsmtree::memtable::MemTable;
use lsmtree::sstable::compaction::size_tiered_compaction::SizeTieredCompaction;
use lsmtree::sstable::compaction::Compaction;
use lsmtree::sstable::compaction::leveled_compaction::LeveledCompaction;
use lsmtree::sstable::SSTableData;

const PAGE: usize = 4096;

fn create_sstable_data(data: Vec<(&str, &str, u64)>) -> SSTableData {
    let mut memtable = MemTable::new();
    for (key, value, timestamp) in data.iter() {
        memtable.put(key, value, *timestamp);
    }
    SSTableData::from_memtable(&memtable, PAGE).unwrap()
}

#[test]
fn test_merge_impl_simple() {
    let left = create_sstable_data(vec![("key1", "value1", 1), ("key2", "value2", 2)]);
    let right = create_sstable_data(vec![("key3", "value3", 3), ("key4", "value4", 4)]);
    let expected = create_sstable_data(vec![
        ("key1", "value1", 1),
        ("key2", "value2", 2),
        ("key3", "value3", 3),
        ("key4", "value4", 4),
    ]);
    let size_tiered_compaction = SizeTieredCompaction::new(PAGE, None, None, None);
    let merged = size_tiered_compaction.merge_impl(&left, &right);
    assert_eq!(merged, expected);
}

#[test]
fn test_merge_impl_duplicated() {
    let left = create_sstable_data(vec![("key1", "value1", 1), ("key2", "value2", 2)]);
    let right = create_sstable_data(vec![("key1", "value3", 3), ("key4", "value4", 4)]);
    let expected = create_sstable_data(vec![
        ("key1", "value3", 3),
        ("key2", "value2", 2),
        ("key4", "value4", 4),
    ]);
    let size_tiered_compaction = SizeTieredCompaction::new(PAGE, None, None, None);
    let merged = size_tiered_compaction.merge_impl(&left, &right);
    assert_eq!(merged, expected);
}

#[test]
fn test_merge_impl_interleaved() {
    let left = create_sstable_data(vec![("key1", "value1", 1), ("key3", "value3", 3)]);
    let right = create_sstable_data(vec![("key2", "value2", 2), ("key4", "value4", 4)]);
    let expected = create_sstable_data(vec![
        ("key1", "value1", 1),
        ("key2", "value2", 2),
        ("key3", "value3", 3),
        ("key4", "value4", 4),
    ]);
    let size_tiered_compaction = SizeTieredCompaction::new(PAGE, None, None, None);
    let merged = size_tiered_compaction.merge_impl(&left, &right);
    assert_eq!(merged, expected);
}

#[test]
fn test_merge() {
    let data1 = vec![("key1", "value1", 1), ("key2", "value10", 10)];
    let data2 = vec![("key3", "value9", 9), ("key4", "value3", 3)];
    let data3 = vec![
        ("key1", "value4", 4),
        ("key2", "value5", 5),
        ("key3", "value6", 6),
        ("key4", "value7", 7),
    ];
    let vec = vec![
        create_sstable_data(data1),
        create_sstable_data(data2),
        create_sstable_data(data3),
    ];
    let expected = create_sstable_data(vec![
        ("key1", "value4", 4),
        ("key2", "value10", 10),
        ("key3", "value9", 9),
        ("key4", "value7", 7),
    ]);
    let size_tiered_compaction = SizeTieredCompaction::new(PAGE, None, None, None);
    let merged = size_tiered_compaction.merge(vec);
    assert_eq!(merged, expected);
}

#[test]
fn test_window_usage() {
    let vec = vec![1, 2, 3, 4, 5];
    for v in vec.windows(2) {
        println!("{:?}", v);
    }
}

#[test]
fn test_chunk_usage() {
    let vec = vec![1, 2, 3, 4, 5];
    for v in vec.chunks(2) {
        println!("{:?}", v);
    }
}

#[test]
fn merge_keeps_tombstones() {
    let left = create_sstable_data(vec![("a", "1", 1)]);
    let mut memtable = MemTable::new();
    memtable.delete("a", 2);
    let right = SSTableData::from_memtable(&memtable, PAGE).unwrap();
    let merged = SizeTieredCompaction::new(PAGE, None, None, None).merge_impl(&left, &right);
    assert_eq!(merged.get(&"a".to_owned(), None), Some(&(None, 2)));
}

#[test]
fn bucket_with_middle_sizes() {
    let stc = SizeTieredCompaction::new(PAGE, Some(50), Some(150), None);
    let sizes = vec![10, 11, 20, 23, 27, 30, 100, 110];
    assert_eq!(stc.get_interesting_bucket(&sizes), vec![2, 3, 4, 5]);
    assert_eq!(stc.select_bucket(&sizes), vec![2, 3, 4, 5]);
}

#[test]
fn bucket_with_smallest_sizes() {
    let stc = SizeTieredCompaction::new(PAGE, Some(50), Some(150), None);
    let sizes = vec![10, 11, 12, 13, 27, 30, 100, 110];
    assert_eq!(stc.get_interesting_bucket(&sizes), vec![0, 1, 2, 3]);
}

#[test]
fn bucket_sorts_tables_by_size_first() {
    let stc = SizeTieredCompaction::new(PAGE, Some(50), Some(150), None);
    let sizes = vec![10, 11, 50, 60, 100, 120, 100, 110];
    assert_eq!(stc.get_interesting_bucket(&sizes), vec![4, 6, 7, 5]);
}

#[test]
fn small_bucket_is_not_compacted() {
    let stc = SizeTieredCompaction::new(PAGE, None, None, Some(4));
    assert_eq!(stc.select_bucket(&vec![10, 11, 12]), Vec::<usize>::new());
    assert_eq!(stc.select(&vec![10]), Vec::<usize>::new());
    assert_eq!(stc.get_interesting_bucket(&vec![]), Vec::<usize>::new());
}

#[test]
fn compaction_correctness_scenario() {
    let t1 = create_sstable_data(vec![("a", "1", 1), ("b", "2", 2)]).encode();
    let t2 = create_sstable_data(vec![("a", "3", 3), ("c", "4", 4)]).encode();
    let t3 = create_sstable_data(vec![("b", "5", 5), ("d", "6", 6)]).encode();
    let stc = SizeTieredCompaction::new(PAGE, None, None, Some(1));
    let (data, index) = stc.compact(&vec![t1, t2, t3]).unwrap();
    let merged = SSTableData::try_from(data).unwrap();
    assert_eq!(merged.get(&"a".to_owned(), None), Some(&(Some("3".to_owned()), 3)));
    assert_eq!(merged.get(&"b".to_owned(), None), Some(&(Some("5".to_owned()), 5)));
    assert_eq!(merged.get(&"c".to_owned(), None), Some(&(Some("4".to_owned()), 4)));
    assert_eq!(merged.get(&"d".to_owned(), None), Some(&(Some("6".to_owned()), 6)));
    let index = lsmtree::sstable::SSTableIndex::decode(&index).unwrap();
    assert_eq!(index.len(), 1);
    assert!(stc.compact(&vec![]).is_err());
    assert!(stc.compact(&vec![vec![1, 2, 3]]).is_err());
}

#[test]
fn leveled_compaction_merges_nothing() {
    let lc = LeveledCompaction::new();
    assert_eq!(lc.select(&vec![1, 2, 3, 4]), Vec::<usize>::new());
    assert!(lc.compact(&vec![]).is_err());
}
