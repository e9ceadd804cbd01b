//! Leveled compaction is not provided: this strategy never merges anything.
use vstd::prelude::*;
use crate::sstable::compaction::Compaction;

verus! {

#[derive(Debug, Clone)]
pub struct LeveledCompaction {}

impl LeveledCompaction {
    pub fn new() -> (r: LeveledCompaction) {
        LeveledCompaction {  }
    }
}

impl Compaction for LeveledCompaction {
    fn select(&self, sizes: &Vec<u64>) -> (r: Vec<usize>) {
        let r = Vec::new();
        assert(r@.no_duplicates());
        r
    }

    fn compact(&self, tables: &Vec<Vec<u8>>) -> Result<(Vec<u8>, Vec<u8>), String> {
        Err("leveled compaction is not supported".to_owned())
    }
}

} // verus!
