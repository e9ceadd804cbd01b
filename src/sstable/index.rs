//! The sparse index of an SSTable: the first key of every chunk and the
//! chunk's byte offset in the data file.
use vstd::prelude::*;
use vstd::utf8::*;
use core::cmp::Ordering;
use crate::codec::{
    compare_keys, key_lt, lemma_key_lt_irreflexive, lemma_key_lt_total, lemma_key_lt_transitive, lemma_key_not_lt,
    le64, le64_value, lemma_le64_round_trip, push_u64_le, read_u64_le, string_from_utf8, utf8,
};
use crate::sstable::{
    Key, Offset, RecordModel, SSTableData, lemma_records_size_append, lemma_records_size_push,
    models, record_len, records_size, sorted_keys, lemma_records_size_bound, chunk_entry,
};

verus! {

pub type IndexEntry = (Seq<char>, u64);

/// Keys strictly ascending.
pub open spec fn index_sorted(s: Seq<IndexEntry>) -> bool {
    forall|i: int, j: int| 0 <= i < j < s.len() ==> key_lt(#[trigger] s[i].0, #[trigger] s[j].0)
}

pub open spec fn has_entry(s: Seq<IndexEntry>, e: IndexEntry) -> bool {
    exists|i: int| 0 <= i < s.len() && #[trigger] s[i] == e
}

pub open spec fn has_index_key(s: Seq<IndexEntry>, k: Seq<char>) -> bool {
    exists|i: int| 0 <= i < s.len() && #[trigger] s[i].0 == k
}

/// `key_len | key | offset` for one entry.
pub open spec fn encode_entry(e: IndexEntry) -> Seq<u8> {
    le64(utf8(e.0).len() as u64) + utf8(e.0) + le64(e.1)
}

pub open spec fn encode_index(s: Seq<IndexEntry>) -> Seq<u8>
    decreases s.len(),
{
    if s.len() == 0 {
        Seq::empty()
    } else {
        encode_index(s.drop_last()) + encode_entry(s.last())
    }
}

/// The entry at the start of `b` and the bytes it takes.
pub open spec fn decode_entry(b: Seq<u8>) -> Option<(IndexEntry, nat)> {
    if b.len() < 8 {
        None
    } else {
        let kl = le64_value(b) as int;
        if b.len() < 16 + kl {
            None
        } else {
            let kb = b.subrange(8, 8 + kl);
            if !valid_utf8(kb) {
                None
            } else {
                Some(((decode_utf8(kb), le64_value(b.skip(8 + kl))), (16 + kl) as nat))
            }
        }
    }
}

/// Decoding back-to-back entries that fill `b` exactly.
pub open spec fn decode_entries(b: Seq<u8>) -> Option<Seq<IndexEntry>>
    decreases b.len(),
{
    if b.len() == 0 {
        Some(Seq::empty())
    } else {
        match decode_entry(b) {
            None => None,
            Some((e, n)) => if 0 < n <= b.len() {
                match decode_entries(b.skip(n as int)) {
                    Some(rest) => Some(seq![e] + rest),
                    None => None,
                }
            } else {
                None
            },
        }
    }
}

/// Every key fits its length field.
pub open spec fn entries_encodable(s: Seq<IndexEntry>) -> bool {
    forall|i: int| 0 <= i < s.len() ==> utf8(#[trigger] s[i].0).len() < u64::MAX
}

/// An entry is read back unchanged whatever bytes follow it.
proof fn lemma_entry_round_trip(e: IndexEntry, more: Seq<u8>)
    requires
        utf8(e.0).len() < u64::MAX,
    ensures
        decode_entry(encode_entry(e) + more) == Some((e, (16 + utf8(e.0).len()) as nat)),
        encode_entry(e).len() == 16 + utf8(e.0).len(),
{
    let kb = utf8(e.0);
    let b = encode_entry(e) + more;
    let kl = kb.len() as int;
    lemma_le64_round_trip(kb.len() as u64);
    lemma_le64_round_trip(e.1);
    assert(b.subrange(0, 8) =~= le64(kb.len() as u64));
    assert(le64_value(b) == le64_value(b.subrange(0, 8)));
    assert(b.subrange(8, 8 + kl) =~= kb);
    assert(b.skip(8 + kl).subrange(0, 8) =~= le64(e.1));
    assert(le64_value(b.skip(8 + kl)) == le64_value(b.skip(8 + kl).subrange(0, 8)));
    vstd::utf8::encode_utf8_valid_utf8(e.0);
    vstd::utf8::encode_utf8_decode_utf8(e.0);
}

proof fn lemma_encode_index_first(s: Seq<IndexEntry>)
    requires
        s.len() > 0,
    ensures
        encode_index(s) == encode_entry(s[0]) + encode_index(s.drop_first()),
    decreases s.len(),
{
    if s.len() == 1 {
        assert(s.drop_last() =~= Seq::<IndexEntry>::empty());
        assert(s.drop_first() =~= Seq::<IndexEntry>::empty());
        assert(encode_index(s) =~= encode_entry(s[0]) + encode_index(s.drop_first()));
    } else {
        lemma_encode_index_first(s.drop_last());
        assert(s.drop_last().drop_first() =~= s.drop_first().drop_last());
        assert(s.drop_first().last() == s.last());
        assert(s.drop_last()[0] == s[0]);
        assert(encode_index(s) =~= encode_entry(s[0]) + encode_index(s.drop_first()));
    }
}

proof fn lemma_decode_entries_first(e: IndexEntry, rest: Seq<u8>)
    requires
        utf8(e.0).len() < u64::MAX,
    ensures
        decode_entries(encode_entry(e) + rest) == match decode_entries(rest) {
            Some(more) => Some(seq![e] + more),
            None => None,
        },
{
    let b = encode_entry(e) + rest;
    lemma_entry_round_trip(e, rest);
    assert(b.skip(16 + utf8(e.0).len() as int) =~= rest);
}

/// An index file reads back as the entries it was written from.
pub proof fn law_index_round_trip(s: Seq<IndexEntry>)
    requires
        entries_encodable(s),
    ensures
        decode_entries(encode_index(s)) == Some(s),
    decreases s.len(),
{
    if s.len() == 0 {
        assert(encode_index(s).len() == 0);
        assert(s =~= Seq::<IndexEntry>::empty());
    } else {
        let tail = s.drop_first();
        lemma_encode_index_first(s);
        assert(entries_encodable(tail)) by {
            assert forall|i: int| 0 <= i < tail.len() implies utf8(#[trigger] tail[i].0).len()
                < u64::MAX by {
                assert(tail[i] == s[i + 1]);
            }
        }
        law_index_round_trip(tail);
        assert(utf8(s[0].0).len() < u64::MAX);
        lemma_decode_entries_first(s[0], encode_index(tail));
        assert(seq![s[0]] + tail =~= s);
    }
}

/// `i` is the entry whose chunk holds `k`: the last entry whose key is not
/// after `k`.
pub open spec fn range_at(s: Seq<IndexEntry>, k: Seq<char>, i: int) -> bool {
    &&& 0 <= i < s.len()
    &&& !key_lt(k, s[i].0)
    &&& (i + 1 < s.len() ==> key_lt(k, s[i + 1].0))
}

/// The byte range `[begin, end)` of the chunk at entry `i`; no end for the
/// last chunk, which runs to the end of the file.
pub open spec fn range_of(s: Seq<IndexEntry>, i: int) -> (u64, Option<u64>) {
    (s[i].1, if i + 1 < s.len() {
        Some(s[i + 1].1)
    } else {
        None
    })
}

/// The index that the writer builds over `s` when chunks close once they hold
/// `interval` bytes or more: the entries, the bytes written, and the bytes of
/// the chunk still open.
pub open spec fn index_walk(s: Seq<RecordModel>, interval: nat) -> (Seq<IndexEntry>, nat, nat)
    decreases s.len(),
{
    if s.len() == 0 {
        (Seq::empty(), 0, 0)
    } else {
        let (idx, off, open) = index_walk(s.drop_last(), interval);
        let r = s.last();
        let idx2 = if open == 0 {
            idx.push((r.key, off as u64))
        } else {
            idx
        };
        let open2 = open + record_len(r);
        (idx2, off + record_len(r), if open2 >= interval {
            0
        } else {
            open2
        })
    }
}

pub proof fn lemma_index_walk_offset(s: Seq<RecordModel>, interval: nat)
    ensures
        index_walk(s, interval).1 == records_size(s),
        index_walk(s, interval).0.len() <= s.len(),
    decreases s.len(),
{
    if s.len() > 0 {
        lemma_index_walk_offset(s.drop_last(), interval);
    }
}

/// The sparse index: keys in ascending order, each with a byte offset.
#[derive(Debug, PartialEq, Eq)]
pub struct SSTableIndex {
    entries: Vec<(Key, Offset)>,
}

pub open spec fn entry_view(e: (Key, Offset)) -> IndexEntry {
    (e.0@, e.1)
}

impl View for SSTableIndex {
    type V = Seq<IndexEntry>;

    closed spec fn view(&self) -> Seq<IndexEntry> {
        self.entries@.map_values(|e: (Key, Offset)| entry_view(e))
    }
}

impl SSTableIndex {
    pub closed spec fn wf(&self) -> bool {
        index_sorted(self@)
    }

    pub fn new() -> (r: SSTableIndex)
        ensures
            r.wf(),
            r@.len() == 0,
    {
        let r = SSTableIndex { entries: Vec::new() };
        assert(r@ =~= Seq::<IndexEntry>::empty());
        r
    }

    pub fn len(&self) -> (r: usize)
        ensures
            r == self@.len(),
    {
        self.entries.len()
    }

    /// The number of leading entries whose keys come before `key`.
    fn lower_bound(&self, key: &str) -> (i: usize)
        requires
            self.wf(),
        ensures
            i <= self@.len(),
            forall|j: int| 0 <= j < i ==> key_lt(#[trigger] self@[j].0, key@),
            forall|j: int| i <= j < self@.len() ==> !key_lt(#[trigger] self@[j].0, key@),
    {
        let ghost s = self@;
        let mut lo: usize = 0;
        let mut hi: usize = self.entries.len();
        while lo < hi
            invariant
                s == self@,
                index_sorted(s),
                lo <= hi <= s.len(),
                forall|j: int| 0 <= j < lo ==> key_lt(#[trigger] s[j].0, key@),
                forall|j: int| hi <= j < s.len() ==> !key_lt(#[trigger] s[j].0, key@),
            decreases hi - lo,
        {
            let mid = lo + (hi - lo) / 2;
            assert(s[mid as int] == entry_view(self.entries@[mid as int]));
            match compare_keys(self.entries[mid].0.as_str(), key) {
                Ordering::Less => {
                    assert forall|j: int| 0 <= j < mid + 1 implies key_lt(
                        #[trigger] s[j].0,
                        key@,
                    ) by {
                        if lo <= j < mid {
                            lemma_key_lt_transitive(s[j].0, s[mid as int].0, key@);
                        }
                    }
                    lo = mid + 1;
                },
                _ => {
                    proof {
                        lemma_key_not_lt(s[mid as int].0, key@);
                    }
                    assert forall|j: int| mid <= j < s.len() implies !key_lt(
                        #[trigger] s[j].0,
                        key@,
                    ) by {
                        if mid < j < hi && key_lt(s[j].0, key@) {
                            lemma_key_lt_transitive(s[mid as int].0, s[j].0, key@);
                        }
                    }
                    hi = mid;
                },
            }
        }
        lo
    }

    /// The number of leading entries whose keys are not after `key`.
    fn upper_bound(&self, key: &str) -> (i: usize)
        requires
            self.wf(),
        ensures
            i <= self@.len(),
            forall|j: int| 0 <= j < i ==> !key_lt(key@, #[trigger] self@[j].0),
            forall|j: int| i <= j < self@.len() ==> key_lt(key@, #[trigger] self@[j].0),
    {
        let ghost s = self@;
        let mut lo: usize = 0;
        let mut hi: usize = self.entries.len();
        while lo < hi
            invariant
                s == self@,
                index_sorted(s),
                lo <= hi <= s.len(),
                forall|j: int| 0 <= j < lo ==> !key_lt(key@, #[trigger] s[j].0),
                forall|j: int| hi <= j < s.len() ==> key_lt(key@, #[trigger] s[j].0),
            decreases hi - lo,
        {
            let mid = lo + (hi - lo) / 2;
            assert(s[mid as int] == entry_view(self.entries@[mid as int]));
            match compare_keys(key, self.entries[mid].0.as_str()) {
                Ordering::Less => {
                    assert forall|j: int| mid <= j < s.len() implies key_lt(
                        key@,
                        #[trigger] s[j].0,
                    ) by {
                        if mid < j < hi {
                            lemma_key_lt_transitive(key@, s[mid as int].0, s[j].0);
                        }
                    }
                    hi = mid;
                },
                _ => {
                    proof {
                        lemma_key_not_lt(key@, s[mid as int].0);
                    }
                    assert forall|j: int| 0 <= j < mid + 1 implies !key_lt(
                        key@,
                        #[trigger] s[j].0,
                    ) by {
                        if lo <= j < mid && key_lt(key@, s[j].0) {
                            lemma_key_lt_transitive(key@, s[j].0, s[mid as int].0);
                        }
                    }
                    lo = mid + 1;
                },
            }
        }
        lo
    }

    /// Sets the offset of `key`, adding the key if it is new.
    pub fn insert(&mut self, key: Key, offset: Offset)
        requires
            old(self).wf(),
        ensures
            final(self).wf(),
            forall|e: IndexEntry|
                has_entry(final(self)@, e) <==> (e == (key@, offset) || (e.0 != key@ && has_entry(
                    old(self)@,
                    e,
                ))),
    {
        let ghost s = self@;
        let i = self.lower_bound(key.as_str());
        let replace = if i < self.entries.len() {
            assert(s[i as int] == entry_view(self.entries@[i as int]));
            match compare_keys(self.entries[i].0.as_str(), key.as_str()) {
                Ordering::Equal => true,
                _ => false,
            }
        } else {
            false
        };
        let ghost k = key@;
        let ghost new_entry = (key@, offset);
        // every key from position i on comes after `key`, but for an equal key at i
        assert forall|j: int| i <= j < s.len() && !(replace && j == i) implies key_lt(
            k,
            #[trigger] s[j].0,
        ) by {
            lemma_key_lt_total(s[j].0, k);
            if j > i && replace {
                assert(key_lt(s[i as int].0, s[j].0));
            } else if s[j].0 == k && j > i {
                assert(key_lt(s[i as int].0, s[j].0));
                lemma_key_lt_total(s[i as int].0, k);
                lemma_key_lt_irreflexive(k);
            }
        }
        if replace {
            self.entries.remove(i);
        }
        self.entries.insert(i, (key, offset));
        proof {
            let t = self@;
            if replace {
                assert(t =~= s.update(i as int, new_entry));
            } else {
                assert(t =~= s.insert(i as int, new_entry));
            }
            assert forall|a: int, b: int| 0 <= a < b < t.len() implies key_lt(
                #[trigger] t[a].0,
                #[trigger] t[b].0,
            ) by {
                if a < i && b == i {
                } else if a == i && b > i {
                    if replace {
                    } else {
                        assert(t[b] == s[b - 1]);
                    }
                } else if a < i && b > i && !replace {
                    assert(t[b] == s[b - 1]);
                    if b - 1 > a {
                    }
                } else if a > i && !replace {
                    assert(t[a] == s[a - 1]);
                    assert(t[b] == s[b - 1]);
                }
            }
            assert forall|e: IndexEntry|
                has_entry(t, e) <==> (e == new_entry || (e.0 != k && has_entry(s, e))) by {
                if has_entry(t, e) {
                    let j = choose|j: int| 0 <= j < t.len() && #[trigger] t[j] == e;
                    if j != i {
                        let js = if replace || j < i {
                            j
                        } else {
                            j - 1
                        };
                        assert(s[js] == e);
                        if js < i {
                            assert(key_lt(s[js].0, k));
                            lemma_key_lt_irreflexive(k);
                        } else {
                            assert(key_lt(k, s[js].0));
                            lemma_key_lt_irreflexive(k);
                        }
                    }
                }
                if e == new_entry {
                    assert(t[i as int] == e);
                } else if e.0 != k && has_entry(s, e) {
                    let js = choose|js: int| 0 <= js < s.len() && #[trigger] s[js] == e;
                    if js < i || replace {
                        assert(t[js] == e);
                    } else {
                        assert(t[js + 1] == e);
                    }
                }
            }
        }
    }

    /// The byte range of the chunk that may hold `key`: from the offset of
    /// the last entry not after `key` to the offset of the next entry, or to
    /// the end of the file after the last entry. `None` when `key` comes
    /// before every entry.
    pub fn find_key_range(&self, key: &Key) -> (r: Option<(u64, Option<u64>)>)
        requires
            self.wf(),
        ensures
            match r {
                None => self@.len() == 0 || key_lt(key@, self@[0].0),
                Some(range) => exists|i: int| range_at(self@, key@, i) && range == range_of(self@, i),
            },
    {
        let i = self.upper_bound(key.as_str());
        if i == 0 {
            return None;
        }
        let j = i - 1;
        assert(range_at(self@, key@, j as int));
        assert(self@[j as int] == entry_view(self.entries@[j as int]));
        let end = if i < self.entries.len() {
            assert(self@[i as int] == entry_view(self.entries@[i as int]));
            Some(self.entries[i].1)
        } else {
            None
        };
        let r = (self.entries[j].1, end);
        assert(r == range_of(self@, j as int));
        Some(r)
    }

    /// The offset recorded for `key`.
    pub fn get(&self, key: &Key) -> (r: Option<&Offset>)
        requires
            self.wf(),
        ensures
            match r {
                Some(o) => has_entry(self@, (key@, *o)),
                None => !has_index_key(self@, key@),
            },
    {
        let i = self.lower_bound(key.as_str());
        if i < self.entries.len() {
            assert(self@[i as int] == entry_view(self.entries@[i as int]));
            if let Ordering::Equal = compare_keys(self.entries[i].0.as_str(), key.as_str()) {
                return Some(&self.entries[i].1);
            }
            proof {
                lemma_key_lt_total(self@[i as int].0, key@);
            }
        }
        assert forall|j: int| 0 <= j < self@.len() implies #[trigger] self@[j].0 != key@ by {
            if j < i {
                lemma_key_lt_irreflexive(key@);
            } else if j > i {
                assert(key_lt(self@[i as int].0, self@[j].0));
                lemma_key_lt_total(self@[i as int].0, key@);
                if key_lt(key@, self@[i as int].0) && self@[j].0 == key@ {
                    lemma_key_lt_transitive(key@, self@[i as int].0, key@);
                    lemma_key_lt_irreflexive(key@);
                }
            }
        }
        None
    }

    /// The number of bytes the encoded index takes.
    pub fn size(&self) -> (r: u64)
        requires
            encode_index(self@).len() <= u64::MAX,
        ensures
            r == encode_index(self@).len(),
    {
        let mut total: u64 = 0;
        let mut i: usize = 0;
        while i < self.entries.len()
            invariant
                i <= self@.len(),
                total == encode_index(self@.subrange(0, i as int)).len(),
                encode_index(self@).len() <= u64::MAX,
            decreases self@.len() - i,
        {
            proof {
                assert(self@.subrange(0, i + 1).drop_last() =~= self@.subrange(0, i as int));
                lemma_encode_index_prefix(self@, i + 1);
            }
            assert(self@[i as int] == entry_view(self.entries@[i as int]));
            let kl = self.entries[i].0.as_str().as_bytes().len() as u64;
            total = total + 8 + kl + 8;
            i = i + 1;
        }
        assert(self@.subrange(0, i as int) =~= self@);
        total
    }

    /// `key_len | key | offset` for every entry, in key order.
    pub fn encode(&self) -> (r: Vec<u8>)
        ensures
            r@ == encode_index(self@),
    {
        let mut buf: Vec<u8> = Vec::new();
        let mut i: usize = 0;
        while i < self.entries.len()
            invariant
                i <= self@.len(),
                buf@ == encode_index(self@.subrange(0, i as int)),
            decreases self@.len() - i,
        {
            assert(self@.subrange(0, i + 1).drop_last() =~= self@.subrange(0, i as int));
            assert(self@[i as int] == entry_view(self.entries@[i as int]));
            let kb = self.entries[i].0.as_str().as_bytes();
            push_u64_le(&mut buf, kb.len() as u64);
            buf.extend_from_slice(kb);
            push_u64_le(&mut buf, self.entries[i].1);
            i = i + 1;
            assert(buf@ =~= encode_index(self@.subrange(0, i as int)));
        }
        assert(self@.subrange(0, i as int) =~= self@);
        buf
    }

    /// Decodes back-to-back entries; fails when the bytes are cut short, a
    /// key is not UTF-8, or the keys are not strictly ascending.
    pub fn decode(data: &[u8]) -> (r: Result<SSTableIndex, String>)
        ensures
            r is Ok <==> (decode_entries(data@) is Some && index_sorted(
                decode_entries(data@)->Some_0,
            )),
            r is Ok ==> r->Ok_0.wf() && r->Ok_0@ == decode_entries(data@)->Some_0,
    {
        let mut index = Self::new();
        let mut i: usize = 0;
        assert(data@.skip(0) =~= data@);
        assert(Seq::<IndexEntry>::empty() + Seq::<IndexEntry>::empty() =~= Seq::<
            IndexEntry,
        >::empty());
        while i < data.len()
            invariant
                i <= data@.len(),
                index.wf(),
                decode_entries(data@) == match decode_entries(data@.skip(i as int)) {
                    Some(more) => Some(index@ + more),
                    None => None,
                },
            decreases data@.len() - i,
        {
            let ghost b = data@.skip(i as int);
            let (key, offset, n) = match read_entry(data, i) {
                Some(x) => x,
                None => {
                    return Err("index entry is cut short or not UTF-8".to_owned());
                },
            };
            let ghost e = (key@, offset);
            proof {
                assert(b.skip(n as int) =~= data@.skip(i + n));
            }
            if index.entries.len() > 0 {
                let last = index.entries.len() - 1;
                assert(index@[last as int] == entry_view(index.entries@[last as int]));
                match compare_keys(index.entries[last].0.as_str(), key.as_str()) {
                    Ordering::Less => {},
                    _ => {
                        proof {
                            lemma_key_not_lt(index@.last().0, key@);
                            match decode_entries(data@.skip(i + n)) {
                                Some(more) => lemma_index_unsorted_extend(index@, e, more),
                                None => {},
                            }
                        }
                        return Err("index keys are not in ascending order".to_owned());
                    },
                }
            }
            proof {
                match decode_entries(data@.skip(i + n)) {
                    Some(more) => {
                        assert(index@ + (seq![e] + more) =~= index@.push(e) + more);
                    },
                    None => {},
                }
                lemma_index_sorted_push(index@, e);
            }
            let ghost before = index@;
            index.entries.push((key, offset));
            assert(index@ =~= before.push(e));
            i = i + n;
        }
        assert(data@.skip(i as int) =~= Seq::<u8>::empty());
        assert(index@ + Seq::<IndexEntry>::empty() =~= index@);
        Ok(index)
    }

    /// Builds the index that a writer produces for `data`: a chunk closes
    /// once it holds `interval` bytes or more, and the first record of every
    /// chunk is indexed with its byte offset.
    pub fn from_sstable_data(data: &SSTableData, interval: u64) -> (r: SSTableIndex)
        requires
            data.wf(),
        ensures
            r.wf(),
            r@ == index_walk(data@, interval as nat).0,
            interval == data.chunk_limit() as u64 ==> r@.len() == data.chunk_starts().len() && forall|j: int|
                0 <= j < data.chunk_starts().len() ==> #[trigger] r@[j] == chunk_entry(
                    data@,
                    data.chunk_starts()[j] as int,
                ),
    {
        proof {
            data.lemma_index_matches_chunks();
        }
        let records = data.records();
        let ghost s = data@;
        let mut index = Self::new();
        let mut offset: usize = 0;
        let mut open: u64 = 0;
        let mut i: usize = 0;
        proof {
            assert(s.subrange(0, 0) =~= Seq::<RecordModel>::empty());
            lemma_records_size_bound(s);
        }
        while i < records.len()
            invariant
                models(records@) == s,
                sorted_keys(s),
                records_size(s) <= usize::MAX,
                i <= s.len(),
                index.wf(),
                (index@, offset as nat, open as nat) == index_walk(
                    s.subrange(0, i as int),
                    interval as nat,
                ),
                offset == records_size(s.subrange(0, i as int)),
                index@.len() > 0 ==> exists|j: int| 0 <= j < i && index@.last().0 == #[trigger] s[j].key,
            decreases s.len() - i,
        {
            let ghost prefix = s.subrange(0, i + 1);
            proof {
                assert(prefix.drop_last() =~= s.subrange(0, i as int));
                assert(prefix.last() == s[i as int]);
                assert(s[i as int] == records@[i as int]@);
                lemma_records_size_push(s.subrange(0, i as int), s[i as int]);
                assert(s.subrange(0, i as int).push(s[i as int]) =~= prefix);
                lemma_records_size_append(prefix, s.subrange(i + 1, s.len() as int));
                assert(prefix + s.subrange(i + 1, s.len() as int) =~= s);
            }
            let n = records[i].size();
            if open == 0 {
                proof {
                    if index@.len() > 0 {
                        let j = choose|j: int| 0 <= j < i && index@.last().0 == #[trigger] s[j].key;
                        assert(key_lt(s[j].key, s[i as int].key));
                        assert forall|a: int, c: int|
                            0 <= a < c < index@.push((s[i as int].key, offset as u64)).len()
                            implies key_lt(
                            #[trigger] index@.push((s[i as int].key, offset as u64))[a].0,
                            #[trigger] index@.push((s[i as int].key, offset as u64))[c].0,
                        ) by {
                            if c == index@.len() && a < index@.len() - 1 {
                                lemma_key_lt_transitive(index@[a].0, index@.last().0, s[i as int].key);
                            }
                        }
                    } else {
                        assert(index_sorted(index@.push((s[i as int].key, offset as u64))));
                    }
                }
                let ghost before = index@;
                index.entries.push((records[i].0.clone(), offset as u64));
                assert(index@ =~= before.push((s[i as int].key, offset as u64)));
            }
            let grown = open as u128 + n as u128;
            open = if grown >= interval as u128 {
                0
            } else {
                grown as u64
            };
            offset = offset + n;
            i = i + 1;
        }
        assert(s.subrange(0, i as int) =~= s);
        index
    }

    /// A copy with the same entries.
    pub fn duplicate(&self) -> (r: SSTableIndex)
        requires
            self.wf(),
        ensures
            r.wf(),
            r@ == self@,
    {
        let mut entries: Vec<(Key, Offset)> = Vec::new();
        let mut i: usize = 0;
        while i < self.entries.len()
            invariant
                i <= self@.len(),
                entries@.map_values(|e: (Key, Offset)| entry_view(e)) =~= self@.subrange(0, i as int),
            decreases self@.len() - i,
        {
            let ghost before = entries@;
            assert(self@[i as int] == entry_view(self.entries@[i as int]));
            entries.push((self.entries[i].0.clone(), self.entries[i].1));
            assert(entries@.map_values(|e: (Key, Offset)| entry_view(e)) =~= before.map_values(
                |e: (Key, Offset)| entry_view(e),
            ).push(self@[i as int]));
            i = i + 1;
        }
        let r = SSTableIndex { entries };
        assert(r@ =~= self@);
        r
    }

    pub fn iter(&self) -> (r: SSTableIndexIterator)
        ensures
            r@ == self@,
    {
        let mut entries: Vec<(Key, Offset)> = Vec::new();
        let mut i: usize = 0;
        while i < self.entries.len()
            invariant
                i <= self@.len(),
                entries@.map_values(|e: (Key, Offset)| entry_view(e)) =~= self@.subrange(0, i as int),
            decreases self@.len() - i,
        {
            let ghost before = entries@;
            assert(self@[i as int] == entry_view(self.entries@[i as int]));
            entries.push((self.entries[i].0.clone(), self.entries[i].1));
            assert(entries@.map_values(|e: (Key, Offset)| entry_view(e)) =~= before.map_values(
                |e: (Key, Offset)| entry_view(e),
            ).push(self@[i as int]));
            i = i + 1;
        }
        let r = SSTableIndexIterator { entries, pos: 0 };
        assert(r@ =~= self@);
        r
    }
}

/// The entry at `data[i..]`, its key and offset, and the bytes it takes.
fn read_entry(data: &[u8], i: usize) -> (r: Option<(Key, Offset, usize)>)
    requires
        i <= data@.len(),
    ensures
        match decode_entry(data@.skip(i as int)) {
            None => r is None,
            Some((e, n)) => r is Some && r->Some_0.0@ == e.0 && r->Some_0.1 == e.1 && r->Some_0.2
                == n && 0 < n <= data@.len() - i,
        },
{
    let ghost b = data@.skip(i as int);
    if data.len() - i < 8 {
        return None;
    }
    let key_len = read_u64_le(data, i);
    assert(data@.subrange(i as int, i + 8) =~= b.subrange(0, 8));
    let rest = (data.len() - i - 8) as u64;
    if rest < key_len || rest - key_len < 8 {
        return None;
    }
    let kl = key_len as usize;
    let kb = &data[i + 8..i + 8 + kl];
    assert(kb@ =~= b.subrange(8, 8 + kl));
    let offset = read_u64_le(data, i + 8 + kl);
    assert(data@.subrange(i + 8 + kl, i + 16 + kl) =~= b.skip(8 + kl).subrange(0, 8));
    let key = match string_from_utf8(kb) {
        Some(k) => k,
        None => {
            return None;
        },
    };
    proof {
        vstd::utf8::encode_utf8_decode_utf8(key@);
    }
    Some((key, offset, 16 + kl))
}

proof fn lemma_index_sorted_push(s: Seq<IndexEntry>, e: IndexEntry)
    requires
        index_sorted(s),
        s.len() == 0 || key_lt(s.last().0, e.0),
    ensures
        index_sorted(s.push(e)),
{
    assert forall|a: int, c: int| 0 <= a < c < s.push(e).len() implies key_lt(
        #[trigger] s.push(e)[a].0,
        #[trigger] s.push(e)[c].0,
    ) by {
        if c == s.len() && a < s.len() - 1 {
            lemma_key_lt_transitive(s[a].0, s.last().0, e.0);
        }
    }
}

proof fn lemma_index_unsorted_extend(s: Seq<IndexEntry>, e: IndexEntry, more: Seq<IndexEntry>)
    requires
        s.len() > 0,
        !key_lt(s.last().0, e.0),
    ensures
        !index_sorted(s + (seq![e] + more)),
{
    let t = s + (seq![e] + more);
    assert(t[s.len() - 1] == s.last());
    assert(t[s.len() as int] == e);
}

proof fn lemma_encode_index_prefix(s: Seq<IndexEntry>, n: int)
    requires
        0 < n <= s.len(),
    ensures
        encode_index(s.subrange(0, n)).len() == encode_index(s.subrange(0, n - 1)).len() + 16
            + utf8(s[n - 1].0).len(),
        encode_index(s.subrange(0, n)).len() <= encode_index(s).len(),
    decreases s.len() - n,
{
    assert(s.subrange(0, n).drop_last() =~= s.subrange(0, n - 1));
    if n < s.len() {
        lemma_encode_index_prefix(s, n + 1);
    } else {
        assert(s.subrange(0, n) =~= s);
    }
}

/// Hands out the entries of an index one by one, in key order.
pub struct SSTableIndexIterator {
    entries: Vec<(Key, Offset)>,
    pos: usize,
}

impl View for SSTableIndexIterator {
    type V = Seq<IndexEntry>;

    /// The entries not handed out yet.
    closed spec fn view(&self) -> Seq<IndexEntry> {
        if self.pos <= self.entries@.len() {
            self.entries@.map_values(|e: (Key, Offset)| entry_view(e)).skip(self.pos as int)
        } else {
            Seq::empty()
        }
    }
}

impl SSTableIndexIterator {
    pub fn next(&mut self) -> (r: Option<(Key, Offset)>)
        ensures
            old(self)@.len() > 0 ==> r is Some && entry_view(r->Some_0) == old(self)@[0]
                && final(self)@ == old(self)@.drop_first(),
            old(self)@.len() == 0 ==> r is None && final(self)@ == old(self)@,
    {
        if self.pos < self.entries.len() {
            let e = (self.entries[self.pos].0.clone(), self.entries[self.pos].1);
            self.pos = self.pos + 1;
            assert(final(self)@ =~= old(self)@.drop_first());
            Some(e)
        } else {
            None
        }
    }
}

} // verus!
