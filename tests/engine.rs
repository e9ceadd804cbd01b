use lsmtree::engine::{newest, LSMCore};
use lsmtree::registry::{ReaderLookup, SharedSSTableReader};
use lsmtree::sstable::compaction::size_tiered_compaction::SizeTieredCompaction;
use lsmtree::sstable::{SSTableReader, SSTableWriter};
use lsmtree::{DefaultTimeStampGenerator, LSMTreeConf, TimeStampGenerator};

/// A store kept in memory: the live memtable and the flushed tables, each as
/// the bytes of its data file and of its index file.
struct Store {
    core: LSMCore,
    tables: Vec<(Vec<u8>, Vec<u8>)>,
    clock: u64,
    interval: usize,
}

impl Store {
    fn new(threshold: usize) -> Store {
        Store { core: LSMCore::new(threshold), tables: vec![], clock: 0, interval: 4096 }
    }

    fn put(&mut self, key: &str, value: Option<&str>) {
        self.clock += 1;
        if let Some(frozen) = self.core.write(key, value, self.clock) {
            self.tables.push(SSTableWriter::write(&frozen, self.interval).unwrap());
        }
    }

    fn get(&self, key: &str) -> Option<String> {
        if let Some(answer) = self.core.read(key) {
            return answer;
        }
        let mut candidates = vec![];
        for (data, index) in self.tables.iter() {
            let reader = SSTableReader::new("t.sst", "t.sst.idx", index).unwrap();
            if let Some((begin, end)) = reader.chunk_range(key, data.len() as u64) {
                let chunk = &data[begin as usize..end as usize];
                if let Some(found) = reader.read(key, chunk).unwrap() {
                    candidates.push(found);
                }
            }
        }
        newest(&candidates)
    }
}

#[test]
fn basic_put_get() {
    let mut store = Store::new(4096);
    store.put("a", Some("1"));
    store.put("b", Some("2"));
    store.put("c", Some("3"));
    assert_eq!(store.get("a"), Some("1".to_owned()));
    assert_eq!(store.get("b"), Some("2".to_owned()));
    assert_eq!(store.get("c"), Some("3".to_owned()));
    assert_eq!(store.get("x"), None);
}

#[test]
fn overwrite_wins() {
    let mut store = Store::new(4096);
    store.put("k", Some("v1"));
    store.put("k", Some("v2"));
    assert_eq!(store.get("k"), Some("v2".to_owned()));
}

#[test]
fn delete_hides() {
    let mut store = Store::new(4096);
    store.put("k", Some("v"));
    store.put("k", None);
    assert_eq!(store.get("k"), None);
    store.put("k", Some("w"));
    assert_eq!(store.get("k"), Some("w".to_owned()));
}

#[test]
fn cross_sstable_recency() {
    let mut store = Store::new(256);
    for i in 0..200 {
        store.put(&format!("key{}", i), Some(&format!("val{}", i)));
    }
    assert!(store.tables.len() >= 2);
    store.put("key50", Some("NEW"));
    assert_eq!(store.get("key50"), Some("NEW".to_owned()));
    assert_eq!(store.get("key0"), Some("val0".to_owned()));
    for i in 0..200 {
        if i != 50 {
            assert_eq!(store.get(&format!("key{}", i)), Some(format!("val{}", i)));
        }
    }
}

#[test]
fn tombstone_on_disk_hides_older_value() {
    let mut store = Store::new(40);
    store.put("k", Some("old"));
    store.put("pad", Some("xxxxxxxxxxxxxxxxxxxxxxxxxx"));
    store.put("k", None);
    store.put("pad2", Some("xxxxxxxxxxxxxxxxxxxxxxxxxx"));
    assert!(store.tables.len() >= 2);
    assert_eq!(store.get("k"), None);
}

#[test]
fn unicode_round_trip() {
    let mut store = Store::new(4096);
    store.put("キー", Some("バリュー"));
    assert_eq!(store.get("キー"), Some("バリュー".to_owned()));
    let frozen = store.core.get_memtable();
    let (data, _) = SSTableWriter::write(&frozen, 4096).unwrap();
    let value_bytes = [0xE3, 0x83, 0x90, 0xE3, 0x83, 0xAA, 0xE3, 0x83, 0xA5, 0xE3, 0x83, 0xBC];
    assert_eq!(&data[8 + 6 + 8..8 + 6 + 8 + 12], &value_bytes);
}

#[test]
fn newest_candidate_wins() {
    assert_eq!(newest(&vec![]), None);
    let cands = vec![(Some("a".to_owned()), 3), (None, 5), (Some("c".to_owned()), 4)];
    assert_eq!(newest(&cands), None);
    let cands = vec![(Some("a".to_owned()), 3), (Some("b".to_owned()), 1)];
    assert_eq!(newest(&cands), Some("a".to_owned()));
}

#[test]
fn write_freezes_at_threshold() {
    let mut core = LSMCore::new(20);
    assert!(core.write("key1", Some("v1"), 1).is_none());
    assert_eq!(core.memtable_len(), 14);
    let frozen = core.write("key2", Some("v2"), 2).unwrap();
    assert_eq!(frozen.len(), 28);
    assert_eq!(core.memtable_len(), 0);
    assert_eq!(core.read("key1"), None);
    assert_eq!(core.get_memtable_threshold(), 20);
}

#[test]
fn flush_twice_gives_identical_tables() {
    let mut core = LSMCore::new(1 << 20);
    core.write("a", Some("1"), 1);
    core.write("b", None, 2);
    let m = core.get_memtable();
    assert_eq!(SSTableWriter::write(&m, 64).unwrap(), SSTableWriter::write(&m, 64).unwrap());
}

#[test]
fn writer_names_files_after_timestamp() {
    let w = SSTableWriter::at("/tmp/x", 1234, "idx");
    assert_eq!(w.file, "/tmp/x/1234.sst");
    assert_eq!(w.index_file, "/tmp/x/1234.sst.idx");
    let w = SSTableWriter::with_suffix("d", "index");
    assert!(w.file.starts_with("d/") && w.index_file == format!("{}.index", w.file));
    let w = SSTableWriter::new("d").unwrap();
    assert!(w.file.starts_with("d/") && w.file.ends_with(".sst"));
}

#[test]
fn registry_lifecycle() {
    let mut reg = SharedSSTableReader::new("dir", "idx");
    assert!(matches!(reg.get_reader("dir/1.sst"), ReaderLookup::Absent));
    let reader = SSTableReader::new("dir/1.sst", "dir/1.sst.idx", &[]).unwrap();
    let added = reg.add_reader(reader).unwrap();
    assert_eq!(added.file, "dir/1.sst");
    assert!(matches!(reg.get_reader("dir/1.sst"), ReaderLookup::Live(_)));
    assert_eq!(reg.to_vec(), vec!["dir/1.sst".to_owned()]);
    assert!(reg.mark_deleted("dir/1.sst"));
    assert!(matches!(reg.get_reader("dir/1.sst"), ReaderLookup::Deleted));
    assert!(!reg.drop_resource("dir/1.sst"));
    reg.release("dir/1.sst");
    reg.release("dir/1.sst");
    assert!(reg.drop_resource("dir/1.sst"));
    assert!(reg.to_vec().is_empty());
}

#[test]
fn registry_lists_complete_pairs_only() {
    let reg = SharedSSTableReader::new("dir", "idx");
    let names = vec![
        "1.sst".to_owned(),
        "1.sst.idx".to_owned(),
        "2.sst".to_owned(),
        "3.sst.idx".to_owned(),
        "notes.txt".to_owned(),
    ];
    assert_eq!(reg.select_tables(&names), vec!["1.sst".to_owned()]);
}

struct Counter(u64);

impl TimeStampGenerator for Counter {
    fn get_timestamp(&mut self) -> u64 {
        self.0 += 1;
        self.0
    }
}

#[test]
fn conf_defaults() {
    let conf = LSMTreeConf::new(
        SizeTieredCompaction::new(4096, None, None, None),
        Counter(0),
        None,
        None,
        None,
        None,
        None,
        None,
        4096,
    );
    assert_eq!(conf.sst_dir, "./.sst");
    assert_eq!(conf.commitlog_dir, "./.commitlog");
    assert_eq!(conf.memtable_threshold, 4096);
    assert_eq!(conf.index_interval, 4096);
    assert_eq!(conf.index_file_suffix, "idx");
    assert!(conf.enable_compaction);
    let mut clock = DefaultTimeStampGenerator {};
    assert!(clock.get_timestamp() > 0);
}

#[test]
fn zero_threshold_freezes_every_write() {
    let mut core = LSMCore::new(0);
    let frozen = core.write("k", Some("v"), 1).unwrap();
    assert_eq!(frozen.len(), 10);
    assert_eq!(core.memtable_len(), 0);
    assert!(core.write("k", None, 2).is_some());
}

#[test]
fn nul_value_survives_a_flush() {
    let mut store = Store::new(1);
    store.put("k", Some("\0"));
    assert!(!store.tables.is_empty());
    assert_eq!(store.get("k"), Some("\0".to_owned()));
}

#[test]
fn registry_lists_tables_once_in_listing_order() {
    let reg = SharedSSTableReader::new("dir", "index");
    let names = vec![
        "2.sst".to_owned(),
        "1.sst".to_owned(),
        "1.sst.index".to_owned(),
        "2.sst.index".to_owned(),
        "3.sst".to_owned(),
        "3.sst.idx".to_owned(),
    ];
    assert_eq!(reg.select_tables(&names), vec!["2.sst".to_owned(), "1.sst".to_owned()]);
}

#[test]
fn large_threshold_still_accepts_writes() {
    let mut core = LSMCore::new(usize::MAX - 8);
    assert!(core.write("k", Some("v"), 1).is_none());
    assert_eq!(core.read("k"), Some(Some("v".to_owned())));
}
