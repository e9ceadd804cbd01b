//! An embedded key-value store organised as a log-structured merge tree.
pub mod codec;
pub mod commitlog;
pub mod engine;
pub mod memtable;
pub mod registry;
pub mod sstable;
pub mod utils;

use vstd::prelude::*;
use crate::sstable::compaction::Compaction;

verus! {

pub type Key = String;

pub type Value = String;

/// A source of write timestamps.
pub trait TimeStampGenerator {
    /// The timestamp of the next write.
    fn get_timestamp(&mut self) -> u64;
}

/// Timestamps from the wall clock, in microseconds.
pub struct DefaultTimeStampGenerator {}

impl TimeStampGenerator for DefaultTimeStampGenerator {
    fn get_timestamp(&mut self) -> u64 {
        crate::utils::get_timestamp()
    }
}

/// The settings of a store.
#[derive(Debug)]
pub struct LSMTreeConf<T, U = DefaultTimeStampGenerator> where
    T: Compaction,
    U: TimeStampGenerator,
 {
    pub compaction: T,
    pub timestamp_generator: U,
    pub sst_dir: String,
    pub commitlog_dir: String,
    pub memtable_threshold: usize,
    pub index_interval: usize,
    pub index_file_suffix: String,
    pub enable_compaction: bool,
}

pub open spec fn or_default<A>(v: Option<A>, d: A) -> A {
    match v {
        Some(x) => x,
        None => d,
    }
}

pub open spec fn text_or(v: Option<String>, d: Seq<char>) -> Seq<char> {
    match v {
        Some(x) => x@,
        None => d,
    }
}

impl<T: Compaction, U: TimeStampGenerator> LSMTreeConf<T, U> {
    /// Settings with defaults for what is not given: `./.sst`, `./.commitlog`,
    /// a threshold and a chunk size of `page_size` bytes, the index suffix
    /// `idx`, and compaction on.
    pub fn new(
        compaction: T,
        timestamp_generator: U,
        sst_dir: Option<String>,
        commitlog_dir: Option<String>,
        memtable_threshold: Option<usize>,
        index_interval: Option<usize>,
        index_file_suffix: Option<String>,
        enable_compaction: Option<bool>,
        page_size: usize,
    ) -> (r: LSMTreeConf<T, U>)
        ensures
            r.compaction == compaction,
            r.timestamp_generator == timestamp_generator,
            r.sst_dir@ == text_or(sst_dir, "./.sst"@),
            r.commitlog_dir@ == text_or(commitlog_dir, "./.commitlog"@),
            r.memtable_threshold == or_default(memtable_threshold, page_size),
            r.index_interval == or_default(index_interval, page_size),
            r.index_file_suffix@ == text_or(index_file_suffix, "idx"@),
            r.enable_compaction == or_default(enable_compaction, true),
    {
        let sst_dir = match sst_dir {
            Some(d) => d,
            None => "./.sst".to_owned(),
        };
        let commitlog_dir = match commitlog_dir {
            Some(d) => d,
            None => "./.commitlog".to_owned(),
        };
        let index_file_suffix = match index_file_suffix {
            Some(s) => s,
            None => "idx".to_owned(),
        };
        LSMTreeConf {
            compaction,
            timestamp_generator,
            sst_dir,
            commitlog_dir,
            memtable_threshold: match memtable_threshold {
                Some(n) => n,
                None => page_size,
            },
            index_interval: match index_interval {
                Some(n) => n,
                None => page_size,
            },
            index_file_suffix,
            enable_compaction: match enable_compaction {
                Some(b) => b,
                None => true,
            },
        }
    }
}

} // verus!
