//! The SSTable writer: names the two files of a new table and produces their
//! contents.
use vstd::prelude::*;
use crate::memtable::MemTable;
use crate::sstable::{SSTableData, SSTableIndex, encode_records, records_size};
use crate::sstable::index::{encode_index, index_walk};
use crate::utils::{concat, decimal, get_timestamp, u64_to_decimal};

verus! {

/// Where a new table goes: `<dir>/<timestamp>.sst` and its index
/// `<dir>/<timestamp>.sst.idx`.
#[derive(Debug)]
pub struct SSTableWriter {
    pub file: String,
    pub index_file: String,
}

/// The data file name for a table created at `timestamp` in `dir`.
pub open spec fn data_file_name(dir: Seq<char>, timestamp: u64) -> Seq<char> {
    dir + "/"@ + decimal(timestamp as nat) + ".sst"@
}

/// The index file name that goes with a data file.
pub open spec fn index_file_name(file: Seq<char>, suffix: Seq<char>) -> Seq<char> {
    file + "."@ + suffix
}

impl SSTableWriter {
    /// Names the files of a new table in `dir` after the current time, with
    /// the index suffix `idx`.
    pub fn new(dir: &str) -> (r: Result<SSTableWriter, String>)
        ensures
            r is Ok,
            exists|t: u64|
                r->Ok_0.file@ == data_file_name(dir@, t) && r->Ok_0.index_file@ == index_file_name(
                    data_file_name(dir@, t),
                    "idx"@,
                ),
    {
        Ok(Self::at(dir, get_timestamp(), "idx"))
    }

    /// Names the files of a new table in `dir` after the current time, with
    /// the index suffix `suffix`.
    pub fn with_suffix(dir: &str, suffix: &str) -> (r: SSTableWriter)
        ensures
            exists|t: u64|
                r.file@ == data_file_name(dir@, t) && r.index_file@ == index_file_name(
                    data_file_name(dir@, t),
                    suffix@,
                ),
    {
        Self::at(dir, get_timestamp(), suffix)
    }

    /// Names the files of a table in `dir` created at `timestamp`, with the
    /// index suffix `suffix`.
    pub fn at(dir: &str, timestamp: u64, suffix: &str) -> (r: SSTableWriter)
        ensures
            r.file@ == data_file_name(dir@, timestamp),
            r.index_file@ == index_file_name(data_file_name(dir@, timestamp), suffix@),
    {
        let stamp = u64_to_decimal(timestamp);
        let file = concat(concat(concat(dir, "/").as_str(), stamp.as_str()).as_str(), ".sst");
        let index_file = concat(concat(file.as_str(), ".").as_str(), suffix);
        SSTableWriter { file, index_file }
    }

    /// The contents of the data file and of the index file for the records
    /// of a frozen memtable; fails only when they are too large to hold.
    pub fn write(memtable: &MemTable, index_interval: usize) -> (r: Result<(Vec<u8>, Vec<u8>), String>)
        requires
            memtable.wf(),
        ensures
            r is Ok <==> records_size(memtable@) <= usize::MAX,
            r is Ok ==> r->Ok_0.0@ == encode_records(memtable@) && r->Ok_0.1@ == encode_index(
                index_walk(memtable@, index_interval as nat).0,
            ),
    {
        let chunk = if index_interval > 0 {
            index_interval
        } else {
            crate::sstable::DEFAULT_CHUNK_SIZE
        };
        let data = SSTableData::from_memtable(memtable, chunk)?;
        Ok(Self::write_with_index(&data, index_interval))
    }

    /// The contents of the data file and of the index file for `data`,
    /// with a chunk closed once it holds `index_interval` bytes or more.
    pub fn write_with_index(data: &SSTableData, index_interval: usize) -> (r: (Vec<u8>, Vec<u8>))
        requires
            data.wf(),
        ensures
            r.0@ == encode_records(data@),
            r.1@ == encode_index(index_walk(data@, index_interval as nat).0),
    {
        let index = SSTableIndex::from_sstable_data(data, index_interval as u64);
        (data.encode(), index.encode())
    }
}

} // verus!
