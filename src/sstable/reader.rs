//! The SSTable reader: the sparse index of one table held in memory, and
//! point reads within the chunk the index points at.
use vstd::prelude::*;
use crate::sstable::{SSTableData, SSTableIndex, Value, decode_all, lookup_result, rejected};
use crate::sstable::index::{decode_entries, index_sorted, range_at, range_of};
use crate::codec::{key_lt, utf8};
use crate::sstable::{
    RecordModel, all_encodable, chunk_entry, encodable, encode_records, law_table_round_trip,
    lemma_records_size_bound, payload_bytes, records_size, sorted_keys,
};
use crate::sstable::index::{index_walk, lemma_index_walk_offset};

verus! {

/// An open table: the names of its two files and its decoded index.
#[derive(Debug, PartialEq, Eq)]
pub struct SSTableReader {
    pub file: String,
    pub index_file: String,
    pub index: SSTableIndex,
}

impl SSTableReader {
    /// Opens a table from the contents of its index file.
    pub fn new(file: &str, index_file: &str, index_bytes: &[u8]) -> (r: Result<SSTableReader, String>)
        ensures
            r is Ok <==> (decode_entries(index_bytes@) is Some && index_sorted(
                decode_entries(index_bytes@)->Some_0,
            )),
            r is Ok ==> r->Ok_0.wf() && r->Ok_0.file@ == file@ && r->Ok_0.index_file@
                == index_file@ && r->Ok_0.index@ == decode_entries(index_bytes@)->Some_0,
    {
        let index = SSTableIndex::decode(index_bytes)?;
        Ok(SSTableReader { file: file.to_owned(), index_file: index_file.to_owned(), index })
    }

    pub open spec fn wf(&self) -> bool {
        self.index.wf()
    }

    /// A copy naming the same files and holding the same index.
    pub fn duplicate(&self) -> (r: SSTableReader)
        requires
            self.wf(),
        ensures
            r.wf(),
            r.file@ == self.file@,
            r.index_file@ == self.index_file@,
            r.index@ == self.index@,
    {
        SSTableReader {
            file: self.file.clone(),
            index_file: self.index_file.clone(),
            index: self.index.duplicate(),
        }
    }

    /// The byte range `[begin, end)` of the data file to read for `key`,
    /// where `data_len` is the size of the data file; `None` when `key` comes
    /// before every indexed key.
    pub fn chunk_range(&self, key: &str, data_len: u64) -> (r: Option<(u64, u64)>)
        requires
            self.wf(),
        ensures
            match r {
                None => self.index@.len() == 0 || key_lt(key@, self.index@[0].0),
                Some((b, e)) => exists|i: int|
                    range_at(self.index@, key@, i) && b == range_of(self.index@, i).0 && e == match range_of(self.index@, i).1 {
                        Some(x) => x,
                        None => data_len,
                    },
            },
    {
        let k = key.to_owned();
        match self.index.find_key_range(&k) {
            None => None,
            Some((begin, end)) => Some((begin, match end {
                Some(x) => x,
                None => data_len,
            })),
        }
    }

    /// Looks `key` up in `chunk`, the bytes of the range that `chunk_range`
    /// gave: its payload and timestamp, or `None` when the chunk does not
    /// hold the key.
    pub fn read(&self, key: &str, chunk: &[u8]) -> (r: Result<Option<Value>, String>)
        ensures
            r is Err <==> rejected(chunk@),
            r is Ok ==> lookup_result(decode_all(chunk@)->Some_0, key@, match r->Ok_0 {
                Some(v) => Some(&v),
                None => None,
            }),
    {
        let data = SSTableData::decode(chunk, crate::sstable::DEFAULT_CHUNK_SIZE)?;
        let k = key.to_owned();
        match data.get(&k, None) {
            Some(v) => Ok(Some((crate::sstable::copy_payload(&v.0), v.1))),
            None => Ok(None),
        }
    }
}

/// The records' bytes have as many bytes as their sizes add up to.
pub proof fn lemma_encode_records_len(s: Seq<RecordModel>)
    ensures
        encode_records(s).len() == records_size(s),
    decreases s.len(),
{
    if s.len() > 0 {
        lemma_encode_records_len(s.drop_last());
    }
}

/// The bytes of a run of records are the bytes of its two parts.
pub proof fn lemma_encode_records_split(s: Seq<RecordModel>, a: int)
    requires
        0 <= a <= s.len(),
    ensures
        encode_records(s) == encode_records(s.take(a)) + encode_records(s.skip(a)),
    decreases s.len(),
{
    if a == s.len() {
        assert(s.take(a) =~= s);
        assert(s.skip(a) =~= Seq::<RecordModel>::empty());
        assert(encode_records(s) + Seq::<u8>::empty() =~= encode_records(s));
    } else {
        lemma_encode_records_split(s.drop_last(), a);
        assert(s.drop_last().take(a) =~= s.take(a));
        assert(s.drop_last().skip(a) =~= s.skip(a).drop_last());
        assert(s.skip(a).last() == s.last());
        assert(encode_records(s) =~= encode_records(s.take(a)) + encode_records(s.skip(a)));
    }
}

/// The bytes of records `a..b` sit between the sizes of the first `a` and
/// the first `b` records.
pub proof fn lemma_encode_records_slice(s: Seq<RecordModel>, a: int, b: int)
    requires
        0 <= a <= b <= s.len(),
    ensures
        records_size(s.take(a)) <= records_size(s.take(b)) <= encode_records(s).len(),
        encode_records(s).subrange(records_size(s.take(a)) as int, records_size(s.take(b)) as int)
            == encode_records(s.subrange(a, b)),
{
    lemma_encode_records_split(s, b);
    lemma_encode_records_split(s.take(b), a);
    assert(s.take(b).take(a) =~= s.take(a));
    assert(s.take(b).skip(a) =~= s.subrange(a, b));
    lemma_encode_records_len(s.take(a));
    lemma_encode_records_len(s.take(b));
    lemma_encode_records_len(s.subrange(a, b));
    lemma_encode_records_len(s.skip(b));
    lemma_encode_records_len(s);
    let whole = encode_records(s);
    assert(whole.subrange(records_size(s.take(a)) as int, records_size(s.take(b)) as int)
        =~= encode_records(s.subrange(a, b)));
}

/// Where the writer's chunks start when it walks `s`.
pub open spec fn walk_starts(s: Seq<RecordModel>, limit: nat) -> Seq<int>
    decreases s.len(),
{
    if s.len() == 0 {
        Seq::empty()
    } else {
        let prev = walk_starts(s.drop_last(), limit);
        if index_walk(s.drop_last(), limit).2 == 0 {
            prev.push(s.len() - 1)
        } else {
            prev
        }
    }
}

/// The writer's index has one entry per chunk start: the chunk's first key
/// and the bytes before it; the starts ascend from the first record.
pub proof fn lemma_walk_entries(s: Seq<RecordModel>, limit: nat)
    ensures
        index_walk(s, limit).0.len() == walk_starts(s, limit).len(),
        forall|j: int|
            0 <= j < walk_starts(s, limit).len() ==> #[trigger] index_walk(s, limit).0[j]
                == chunk_entry(s, walk_starts(s, limit)[j]),
        forall|j: int|
            0 <= j < walk_starts(s, limit).len() ==> 0 <= #[trigger] walk_starts(s, limit)[j] < s.len(),
        forall|j: int, l: int|
            0 <= j < l < walk_starts(s, limit).len() ==> walk_starts(s, limit)[j] < walk_starts(
                s,
                limit,
            )[l],
        s.len() > 0 ==> walk_starts(s, limit).len() > 0 && walk_starts(s, limit)[0] == 0,
    decreases s.len(),
{
    if s.len() > 0 {
        let prev = s.drop_last();
        lemma_walk_entries(prev, limit);
        lemma_index_walk_offset(prev, limit);
        let ws = walk_starts(s, limit);
        assert forall|j: int| 0 <= j < ws.len() implies #[trigger] index_walk(s, limit).0[j]
            == chunk_entry(s, ws[j]) by {
            let st = ws[j];
            if j < walk_starts(prev, limit).len() {
                assert(s.take(st) =~= prev.take(st));
                assert(s[st] == prev[st]);
            } else {
                assert(st == prev.len());
                assert(s.take(st) =~= prev);
            }
        }
        if prev.len() == 0 {
            assert(index_walk(prev, limit).2 == 0);
        }
    }
}

/// The records of chunk `i`: where it starts and where the next chunk (or
/// the table) begins.
pub open spec fn chunk_bounds(s: Seq<RecordModel>, limit: nat, i: int) -> (int, int) {
    let ws = walk_starts(s, limit);
    (ws[i], if i + 1 < ws.len() { ws[i + 1] } else { s.len() as int })
}

/// The entry picked for a key starts the chunk holding that key's record.
proof fn lemma_chunk_holds_key(s: Seq<RecordModel>, limit: nat, p: int, i: int)
    requires
        sorted_keys(s),
        0 <= p < s.len(),
        range_at(index_walk(s, limit).0, s[p].key, i),
    ensures
        chunk_bounds(s, limit, i).0 <= p < chunk_bounds(s, limit, i).1,
        0 <= chunk_bounds(s, limit, i).0 <= chunk_bounds(s, limit, i).1 <= s.len(),
{
    lemma_walk_entries(s, limit);
    let ws = walk_starts(s, limit);
    let entries = index_walk(s, limit).0;
    let (a, b) = chunk_bounds(s, limit, i);
    assert(entries[i] == chunk_entry(s, a));
    if p < a {
        assert(key_lt(s[p].key, s[a].key));
    }
    if i + 1 < ws.len() {
        assert(entries[i + 1] == chunk_entry(s, b));
        if b < p {
            assert(key_lt(s[b].key, s[p].key));
            crate::codec::lemma_key_lt_asymmetric(s[b].key, s[p].key);
        }
        if b == p {
            crate::codec::lemma_key_lt_irreflexive(s[p].key);
        }
        assert(ws[i] < ws[i + 1]);
    }
    if p < a {
        assert(key_lt(s[p].key, s[a].key));
        assert(!key_lt(s[p].key, entries[i].0));
    }
}

/// The byte range of entry `i` decodes to the records of its chunk.
proof fn lemma_chunk_bytes(s: Seq<RecordModel>, limit: nat, i: int)
    requires
        all_encodable(s),
        records_size(s) <= u64::MAX,
        0 <= i < index_walk(s, limit).0.len(),
    ensures
        ({
            let entries = index_walk(s, limit).0;
            let (a, b) = chunk_bounds(s, limit, i);
            let begin = range_of(entries, i).0 as int;
            let end = match range_of(entries, i).1 {
                Some(e) => e as int,
                None => encode_records(s).len() as int,
            };
            decode_all(encode_records(s).subrange(begin, end)) == Some(s.subrange(a, b))
        }),
{
    lemma_walk_entries(s, limit);
    let ws = walk_starts(s, limit);
    let entries = index_walk(s, limit).0;
    let (a, b) = chunk_bounds(s, limit, i);
    assert(entries[i] == chunk_entry(s, a));
    if i + 1 < ws.len() {
        assert(entries[i + 1] == chunk_entry(s, b));
        assert(ws[i] < ws[i + 1]);
    }
    assert(s.take(s.len() as int) =~= s);
    lemma_records_size_bound(s);
    assert(records_size(s.take(a)) <= records_size(s));
    assert(records_size(s.take(b)) <= records_size(s));
    lemma_encode_records_slice(s, a, b);
    lemma_encode_records_len(s);
    let sub = s.subrange(a, b);
    assert forall|j: int| 0 <= j < sub.len() implies encodable(#[trigger] sub[j]) && utf8(
        sub[j].key,
    ).len() < u64::MAX && payload_bytes(sub[j].value).len() < u64::MAX by {
        assert(sub[j] == s[a + j]);
    }
    law_table_round_trip(sub);
}

/// A read finds what the writer wrote: for a record of a written table, the
/// index entry that `chunk_range` picks for its key starts the chunk that
/// holds the record, and the bytes of that entry's range decode to exactly
/// that chunk's records.
pub proof fn law_read_finds_written_record(s: Seq<RecordModel>, limit: nat, p: int, i: int)
    requires
        sorted_keys(s),
        all_encodable(s),
        records_size(s) <= u64::MAX,
        0 <= p < s.len(),
        range_at(index_walk(s, limit).0, s[p].key, i),
    ensures
        chunk_bounds(s, limit, i).0 <= p < chunk_bounds(s, limit, i).1,
        ({
            let entries = index_walk(s, limit).0;
            let (a, b) = chunk_bounds(s, limit, i);
            let begin = range_of(entries, i).0 as int;
            let end = match range_of(entries, i).1 {
                Some(e) => e as int,
                None => encode_records(s).len() as int,
            };
            decode_all(encode_records(s).subrange(begin, end)) == Some(s.subrange(a, b))
        }),
{
    lemma_chunk_holds_key(s, limit, p, i);
    lemma_chunk_bytes(s, limit, i);
}

} // verus!
