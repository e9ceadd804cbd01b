//! The SSTable formats: records, chunks of records, a whole table held in
//! memory, and the sparse index over its chunks.
use vstd::prelude::*;
use vstd::utf8::*;
use core::cmp::Ordering;
use crate::sstable::index::{index_walk, lemma_index_walk_offset};

pub mod compaction;
pub mod index;
pub mod reader;
pub mod writer;

pub use index::{SSTableIndex, SSTableIndexIterator};
pub use reader::SSTableReader;
pub use writer::SSTableWriter;

use crate::codec::{
    compare_keys, key_lt, lemma_key_lt_asymmetric, lemma_key_lt_irreflexive,
    lemma_key_lt_transitive, lemma_key_not_lt, le64, le64_value, lemma_le64_round_trip, push_u64_le, read_u64_le, string_from_utf8, utf8,
};

verus! {

pub type Key = String;

/// A payload (`None` for a tombstone) with its timestamp.
pub type Value = (Option<String>, u64);

pub type Offset = u64;

/// What a record stands for: a key, a payload (`None` for a tombstone) and a
/// timestamp.
pub struct RecordModel {
    pub key: Seq<char>,
    pub value: Option<Seq<char>>,
    pub timestamp: u64,
}

pub open spec fn payload_view(v: Option<String>) -> Option<Seq<char>> {
    match v {
        Some(s) => Some(s@),
        None => None,
    }
}

/// The bytes stored for a payload: a tombstone stores none.
pub open spec fn payload_bytes(v: Option<Seq<char>>) -> Seq<u8> {
    match v {
        Some(s) => utf8(s),
        None => Seq::empty(),
    }
}

/// `key_len | key | value_len | value | timestamp`, little-endian lengths.
pub open spec fn encode_record(r: RecordModel) -> Seq<u8> {
    le64(utf8(r.key).len() as u64) + utf8(r.key) + le64(payload_bytes(r.value).len() as u64)
        + payload_bytes(r.value) + le64(r.timestamp)
}

pub open spec fn record_len(r: RecordModel) -> nat {
    utf8(r.key).len() + payload_bytes(r.value).len() + 24
}

/// A stored value field reads as a tombstone when it is empty.
pub open spec fn is_tombstone_bytes(b: Seq<u8>) -> bool {
    b.len() == 0
}

/// A record can be written and read back unchanged: its payload is not an
/// empty value, which reads as a tombstone.
pub open spec fn encodable(r: RecordModel) -> bool {
    match r.value {
        Some(v) => !is_tombstone_bytes(utf8(v)),
        None => true,
    }
}

/// Decoding the record at the start of `b`: the record and the number of
/// bytes it takes, or `None` when the bytes are truncated or not UTF-8.
pub open spec fn decode_record(b: Seq<u8>) -> Option<(RecordModel, nat)> {
    if b.len() < 8 {
        None
    } else {
        let kl = le64_value(b) as int;
        if b.len() < 16 + kl {
            None
        } else {
            let kb = b.subrange(8, 8 + kl);
            let vl = le64_value(b.skip(8 + kl)) as int;
            if b.len() < 24 + kl + vl {
                None
            } else {
                let vb = b.subrange(16 + kl, 16 + kl + vl);
                let ts = le64_value(b.skip(16 + kl + vl));
                if !valid_utf8(kb) || !valid_utf8(vb) {
                    None
                } else {
                    let value = if is_tombstone_bytes(vb) {
                        None
                    } else {
                        Some(decode_utf8(vb))
                    };
                    Some((RecordModel { key: decode_utf8(kb), value, timestamp: ts }, (24 + kl
                        + vl) as nat))
                }
            }
        }
    }
}

/// One record of a table: key, payload and timestamp.
#[derive(Debug, PartialEq, Eq)]
pub struct SSTableRecord(pub Key, pub Value);

impl Clone for SSTableRecord {
    fn clone(&self) -> Self {
        self.duplicate()
    }
}

impl View for SSTableRecord {
    type V = RecordModel;

    open spec fn view(&self) -> RecordModel {
        RecordModel { key: self.0@, value: payload_view(self.1.0), timestamp: self.1.1 }
    }
}

pub fn copy_payload(v: &Option<String>) -> (r: Option<String>)
    ensures
        payload_view(r) == payload_view(*v),
{
    match v {
        Some(s) => Some(s.clone()),
        None => None,
    }
}

impl SSTableRecord {
    pub fn new(key: Key, value: Value) -> (r: SSTableRecord)
        ensures
            r.0 == key,
            r.1 == value,
    {
        SSTableRecord(key, value)
    }

    pub fn key(&self) -> (r: &Key)
        ensures
            r@ == self@.key,
    {
        &self.0
    }

    pub fn value(&self) -> (r: &Value)
        ensures
            payload_view(r.0) == self@.value,
            r.1 == self@.timestamp,
    {
        &self.1
    }

    pub fn timestamp(&self) -> (r: u64)
        ensures
            r == self@.timestamp,
    {
        self.1.1
    }

    /// A copy with the same key, payload and timestamp.
    pub fn duplicate(&self) -> (r: SSTableRecord)
        ensures
            r@ == self@,
    {
        SSTableRecord(self.0.clone(), (copy_payload(&self.1.0), self.1.1))
    }

    pub fn encode(&self) -> (r: Vec<u8>)
        ensures
            r@ == encode_record(self@),
    {
        let mut buf: Vec<u8> = Vec::new();
        self.encode_into(&mut buf);
        assert(buf@ =~= encode_record(self@));
        buf
    }

    /// Appends the encoding of this record to `buf`.
    pub fn encode_into(&self, buf: &mut Vec<u8>)
        ensures
            final(buf)@ == old(buf)@ + encode_record(self@),
    {
        let kb = self.0.as_str().as_bytes();
        push_u64_le(buf, kb.len() as u64);
        buf.extend_from_slice(kb);
        match &self.1.0 {
            Some(v) => {
                let vb = v.as_str().as_bytes();
                push_u64_le(buf, vb.len() as u64);
                buf.extend_from_slice(vb);
            },
            None => {
                push_u64_le(buf, 0);
            },
        }
        push_u64_le(buf, self.1.1);
        assert(final(buf)@ =~= old(buf)@ + encode_record(self@));
    }

    /// The record at the start of `data`, and how many bytes it takes.
    pub fn decode(data: &[u8]) -> (r: Result<(SSTableRecord, usize), String>)
        ensures
            match decode_record(data@) {
                Some((m, n)) => r is Ok && r->Ok_0.0@ == m && r->Ok_0.1 == n,
                None => r is Err,
            },
            r is Ok ==> record_len(r->Ok_0.0@) <= r->Ok_0.1,
    {
        if data.len() < 8 {
            return Err("key_len is not found".to_owned());
        }
        let key_len = read_u64_le(data, 0);
        assert(data@.subrange(0, 8) =~= data@.subrange(0, 8));
        proof {
            assert(le64_value(data@.subrange(0, 8)) == le64_value(data@));
        }
        if (data.len() as u64) - 8 < key_len || (data.len() as u64) - 8 - key_len < 8 {
            return Err("key is not found".to_owned());
        }
        let kl = key_len as usize;
        let key_bytes = &data[8..8 + kl];
        let value_len = read_u64_le(data, 8 + kl);
        proof {
            assert(le64_value(data@.subrange(8 + kl, 16 + kl)) == le64_value(data@.skip(8 + kl)));
        }
        let rest = (data.len() - 16 - kl) as u64;
        if rest < value_len || rest - value_len < 8 {
            return Err("value is not found".to_owned());
        }
        let vl = value_len as usize;
        let value_bytes = &data[16 + kl..16 + kl + vl];
        let timestamp = read_u64_le(data, 16 + kl + vl);
        proof {
            assert(le64_value(data@.subrange(16 + kl + vl, 24 + kl + vl)) == le64_value(
                data@.skip(16 + kl + vl),
            ));
        }
        let key = match string_from_utf8(key_bytes) {
            Some(k) => k,
            None => {
                return Err("key is not UTF-8".to_owned());
            },
        };
        let text = match string_from_utf8(value_bytes) {
            Some(v) => v,
            None => {
                return Err("value is not UTF-8".to_owned());
            },
        };
        proof {
            encode_utf8_decode_utf8(key@);
            encode_utf8_decode_utf8(text@);
        }
        let value = if vl == 0 {
            None
        } else {
            Some(text)
        };
        Ok((SSTableRecord(key, (value, timestamp)), 24 + kl + vl))
    }

    /// The number of bytes the encoding of this record takes, or `None`
    /// where that does not fit in a `usize`.
    pub fn checked_size(&self) -> (r: Option<usize>)
        ensures
            r is Some <==> record_len(self@) <= usize::MAX,
            r is Some ==> r->Some_0 == record_len(self@),
    {
        let vl: usize = match &self.1.0 {
            Some(v) => v.as_str().as_bytes().len(),
            None => 0,
        };
        let kl = self.0.as_str().as_bytes().len();
        if kl > usize::MAX - 24 || vl > usize::MAX - 24 - kl {
            None
        } else {
            Some(kl + vl + 24)
        }
    }

    /// The number of bytes the encoding of this record takes.
    pub fn size(&self) -> (r: usize)
        requires
            record_len(self@) <= usize::MAX,
        ensures
            r == record_len(self@),
    {
        let vl: usize = match &self.1.0 {
            Some(v) => v.as_str().len(),
            None => 0,
        };
        self.0.as_str().len() + vl + 24
    }
}

/// Reading back what a record encodes to gives the record and its length.
pub proof fn law_record_round_trip(r: RecordModel)
    requires
        encodable(r),
        utf8(r.key).len() < u64::MAX,
        payload_bytes(r.value).len() < u64::MAX,
    ensures
        decode_record(encode_record(r)) == Some((r, record_len(r))),
        encode_record(r).len() == record_len(r),
{
    lemma_record_round_trip_with(r, Seq::empty());
    assert(encode_record(r) + Seq::<u8>::empty() =~= encode_record(r));
}

/// A record is read back unchanged whatever bytes follow it.
pub proof fn lemma_record_round_trip_with(r: RecordModel, more: Seq<u8>)
    requires
        encodable(r),
        utf8(r.key).len() < u64::MAX,
        payload_bytes(r.value).len() < u64::MAX,
    ensures
        decode_record(encode_record(r) + more) == Some((r, record_len(r))),
        encode_record(r).len() == record_len(r),
{
    let kb = utf8(r.key);
    let vb = payload_bytes(r.value);
    let b = encode_record(r) + more;
    lemma_le64_round_trip(kb.len() as u64);
    lemma_le64_round_trip(vb.len() as u64);
    lemma_le64_round_trip(r.timestamp);
    let kl = kb.len() as int;
    let vl = vb.len() as int;
    assert(b.subrange(0, 8) =~= le64(kb.len() as u64));
    assert(le64_value(b) == le64_value(b.subrange(0, 8)));
    assert(b.subrange(8, 8 + kl) =~= kb);
    assert(b.skip(8 + kl).subrange(0, 8) =~= le64(vb.len() as u64));
    assert(le64_value(b.skip(8 + kl)) == le64_value(b.skip(8 + kl).subrange(0, 8)));
    assert(b.subrange(16 + kl, 16 + kl + vl) =~= vb);
    assert(b.skip(16 + kl + vl).subrange(0, 8) =~= le64(r.timestamp));
    assert(le64_value(b.skip(16 + kl + vl)) == le64_value(b.skip(16 + kl + vl).subrange(0, 8)));
    encode_utf8_valid_utf8(r.key);
    encode_utf8_decode_utf8(r.key);
    match r.value {
        Some(v) => {
            encode_utf8_valid_utf8(v);
            encode_utf8_decode_utf8(v);
        },
        None => {
            assert(valid_utf8(Seq::<u8>::empty()));
        },
    }
}

pub open spec fn models(v: Seq<SSTableRecord>) -> Seq<RecordModel> {
    v.map_values(|r: SSTableRecord| r@)
}

/// Keys strictly ascending: sorted, and no key twice.
pub open spec fn sorted_keys(s: Seq<RecordModel>) -> bool {
    forall|i: int, j: int| 0 <= i < j < s.len() ==> key_lt(#[trigger] s[i].key, #[trigger] s[j].key)
}

/// Total encoded size of a run of records.
pub open spec fn records_size(s: Seq<RecordModel>) -> nat
    decreases s.len(),
{
    if s.len() == 0 {
        0
    } else {
        records_size(s.drop_last()) + record_len(s.last())
    }
}

/// Some record of `s` has key `k`, and it carries `v`.
pub open spec fn holds(s: Seq<RecordModel>, k: Seq<char>, v: Value) -> bool {
    exists|i: int|
        0 <= i < s.len() && #[trigger] s[i].key == k && s[i].value == payload_view(v.0)
            && s[i].timestamp == v.1
}

pub open spec fn has_key(s: Seq<RecordModel>, k: Seq<char>) -> bool {
    exists|i: int| 0 <= i < s.len() && #[trigger] s[i].key == k
}

/// What a point lookup of `k` in `s` returns.
pub open spec fn lookup_result(s: Seq<RecordModel>, k: Seq<char>, r: Option<&Value>) -> bool {
    match r {
        Some(v) => holds(s, k, *v),
        None => !has_key(s, k),
    }
}

/// Binary search for `key` among `recs[lo..hi]`.
fn search_sorted(recs: &Vec<SSTableRecord>, lo: usize, hi: usize, key: &str) -> (r: Option<usize>)
    requires
        lo <= hi <= recs@.len(),
        sorted_keys(models(recs@)),
    ensures
        match r {
            Some(i) => lo <= i < hi && recs@[i as int]@.key == key@,
            None => forall|i: int| lo <= i < hi ==> recs@[i]@.key != key@,
        },
{
    let ghost m = models(recs@);
    let mut left = lo;
    let mut right = hi;
    while left < right
        invariant
            lo <= left <= right <= hi <= recs@.len(),
            m == models(recs@),
            sorted_keys(m),
            forall|i: int| lo <= i < left ==> recs@[i]@.key != key@,
            forall|i: int| right <= i < hi ==> recs@[i]@.key != key@,
        decreases right - left,
    {
        let mid = left + (right - left) / 2;
        assert(m[mid as int] == recs@[mid as int]@);
        match compare_keys(recs[mid].0.as_str(), key) {
            Ordering::Equal => {
                return Some(mid);
            },
            Ordering::Less => {
                assert forall|i: int| lo <= i < mid + 1 implies recs@[i]@.key != key@ by {
                    if i >= left {
                        assert(m[i] == recs@[i]@);
                        if i < mid {
                            lemma_key_lt_transitive(m[i].key, m[mid as int].key, key@);
                        }
                        lemma_key_lt_irreflexive(key@);
                    }
                }
                left = mid + 1;
            },
            Ordering::Greater => {
                assert forall|i: int| mid <= i < hi implies recs@[i]@.key != key@ by {
                    if i < right {
                        assert(m[i] == recs@[i]@);
                        if i > mid {
                            lemma_key_lt_transitive(key@, m[mid as int].key, m[i].key);
                        }
                        lemma_key_lt_irreflexive(key@);
                    }
                }
                right = mid;
            },
        }
    }
    None
}


/// Decoding a run of back-to-back records that fills `b` exactly.
pub open spec fn decode_all(b: Seq<u8>) -> Option<Seq<RecordModel>>
    decreases b.len(),
{
    if b.len() == 0 {
        Some(Seq::empty())
    } else {
        match decode_record(b) {
            None => None,
            Some((rec, n)) => if 0 < n <= b.len() {
                match decode_all(b.skip(n as int)) {
                    Some(rest) => Some(seq![rec] + rest),
                    None => None,
                }
            } else {
                None
            },
        }
    }
}

/// What decoding `b` gives once `done` has been read from its first bytes and
/// `rest` is left.
pub open spec fn decoded_after(
    b: Seq<u8>,
    done: Seq<RecordModel>,
    rest: Seq<u8>,
) -> bool {
    decode_all(b) == match decode_all(rest) {
        Some(more) => Some(done + more),
        None => None,
    }
}

/// A record list whose decoding is rejected: it is cut short, not UTF-8, or
/// its keys are not strictly ascending.
pub open spec fn rejected(b: Seq<u8>) -> bool {
    decode_all(b) is None || !sorted_keys(decode_all(b)->Some_0)
}

pub proof fn lemma_records_size_push(s: Seq<RecordModel>, r: RecordModel)
    ensures
        records_size(s.push(r)) == records_size(s) + record_len(r),
{
    assert(s.push(r).drop_last() =~= s);
}

pub proof fn lemma_sorted_push(s: Seq<RecordModel>, r: RecordModel)
    requires
        sorted_keys(s),
        s.len() == 0 || key_lt(s.last().key, r.key),
    ensures
        sorted_keys(s.push(r)),
{
    assert forall|i: int, j: int| 0 <= i < j < s.push(r).len() implies key_lt(
        #[trigger] s.push(r)[i].key,
        #[trigger] s.push(r)[j].key,
    ) by {
        if j == s.len() && i < s.len() - 1 {
            lemma_key_lt_transitive(s[i].key, s.last().key, r.key);
        }
    }
}

/// Appending a record that does not come after the last one breaks the order
/// whatever follows.
pub proof fn lemma_unsorted_extend(s: Seq<RecordModel>, r: RecordModel, more: Seq<RecordModel>)
    requires
        s.len() > 0,
        !key_lt(s.last().key, r.key),
    ensures
        !sorted_keys(s + (seq![r] + more)),
{
    let t = s + (seq![r] + more);
    assert(t[s.len() - 1] == s.last());
    assert(t[s.len() as int] == r);
}

/// Decoding one record moves the reading position past it.
pub proof fn lemma_decoded_step(b: Seq<u8>, done: Seq<RecordModel>, off: int)
    requires
        0 <= off < b.len(),
        decoded_after(b, done, b.skip(off)),
        decode_record(b.skip(off)) is Some,
        0 < decode_record(b.skip(off))->Some_0.1 <= b.len() - off,
    ensures
        decoded_after(
            b,
            done.push(decode_record(b.skip(off))->Some_0.0),
            b.skip(off + decode_record(b.skip(off))->Some_0.1),
        ),
{
    let (rec, n) = decode_record(b.skip(off))->Some_0;
    assert(b.skip(off).skip(n as int) =~= b.skip(off + n));
    match decode_all(b.skip(off + n)) {
        Some(more) => {
            assert(done + (seq![rec] + more) =~= done.push(rec) + more);
        },
        None => {},
    }
}

/// A chunk of records in ascending key order, with its encoded size.
#[derive(Debug, PartialEq, Eq)]
pub struct SSTableRecords {
    records: Vec<SSTableRecord>,
    size: usize,
}

impl View for SSTableRecords {
    type V = Seq<RecordModel>;

    closed spec fn view(&self) -> Seq<RecordModel> {
        models(self.records@)
    }
}

impl SSTableRecords {
    pub closed spec fn wf(&self) -> bool {
        &&& sorted_keys(self@)
        &&& self.size == records_size(self@)
    }

    pub fn new() -> (r: SSTableRecords)
        ensures
            r.wf(),
            r@.len() == 0,
    {
        let r = SSTableRecords { records: Vec::new(), size: 0 };
        assert(r@ =~= Seq::<RecordModel>::empty());
        r
    }

    /// Decodes records from the start of `data` into one chunk, until the
    /// chunk holds at least `threshold` bytes or `data` ends; returns the
    /// chunk and the number of bytes read.
    pub fn decode(data: &[u8], threshold: usize) -> (r: Result<(SSTableRecords, usize), String>)
        requires
            threshold > 0,
        ensures
            r is Ok ==> {
                let (c, n) = r->Ok_0;
                &&& c.wf()
                &&& n <= data@.len()
                &&& (data@.len() > 0 ==> n > 0 && c@.len() > 0)
                &&& decoded_after(data@, c@, data@.skip(n as int))
                &&& records_size(c@) <= n
                &&& (n < data@.len() ==> records_size(c@) >= threshold)
                &&& forall|k: int| 0 <= k < c@.len() ==> records_size(#[trigger] c@.take(k)) < threshold
            },
            r is Err ==> rejected(data@),
    {
        let mut offset: usize = 0;
        let mut records = Self::new();
        assert(data@.skip(0) =~= data@);
        assert(Seq::<RecordModel>::empty() + Seq::<RecordModel>::empty() =~= Seq::<
            RecordModel,
        >::empty());
        while offset < data.len()
            invariant
                offset <= data@.len(),
                records.wf(),
                threshold > 0,
                decoded_after(data@, records@, data@.skip(offset as int)),
                records_size(records@) <= offset,
                offset > 0 <==> records@.len() > 0,
                forall|k: int| 0 <= k < records@.len() ==> records_size(#[trigger] records@.take(k)) < threshold,
            ensures
                forall|k: int| 0 <= k < records@.len() ==> records_size(#[trigger] records@.take(k)) < threshold,
                offset <= data@.len(),
                records.wf(),
                decoded_after(data@, records@, data@.skip(offset as int)),
                data@.len() > 0 ==> offset > 0,
                offset < data@.len() ==> records_size(records@) >= threshold,
                records_size(records@) <= offset,
            decreases data@.len() - offset,
        {
            assert(data@.subrange(offset as int, data@.len() as int) =~= data@.skip(offset as int));
            let (record, record_size) = match SSTableRecord::decode(&data[offset..data.len()]) {
                Ok(x) => x,
                Err(e) => {
                    return Err(e);
                },
            };
            proof {
                lemma_record_len_pos(record@);
            }
            if records.records.len() > 0 {
                let last = records.records.len() - 1;
                assert(records@[last as int] == records.records@[last as int]@);
                match compare_keys(records.records[last].0.as_str(), record.0.as_str()) {
                    Ordering::Less => {},
                    _ => {
                        proof {
                            lemma_key_not_lt(records@.last().key, record@.key);
                            assert(data@.skip(offset as int).skip(record_size as int) =~= data@.skip(
                                offset + record_size,
                            ));
                            match decode_all(data@.skip(offset + record_size)) {
                                Some(more) => lemma_unsorted_extend(records@, record@, more),
                                None => {},
                            }
                        }
                        return Err("keys are not in ascending order".to_owned());
                    },
                }
            }
            if records.size >= threshold {
                assert(records_size(Seq::<RecordModel>::empty()) == 0);
                break ;
            }
            proof {
                lemma_decoded_step(data@, records@, offset as int);
                lemma_records_size_push(records@, record@);
            }
            let ghost before = records@;
            records.push_unchecked(record);
            proof {
                assert forall|k: int| 0 <= k < records@.len() implies records_size(
                    #[trigger] records@.take(k),
                ) < threshold by {
                    if k < before.len() {
                        assert(records@.take(k) =~= before.take(k));
                    } else {
                        assert(records@.take(k) =~= before);
                    }
                }
            }
            offset = offset + record_size;
        }
        Ok((records, offset))
    }

    /// Appends a record known to fit after the last one.
    fn push_unchecked(&mut self, record: SSTableRecord)
        requires
            old(self).wf(),
            old(self)@.len() == 0 || key_lt(old(self)@.last().key, record@.key),
            records_size(old(self)@) + record_len(record@) <= usize::MAX,
        ensures
            final(self).wf(),
            final(self)@ == old(self)@.push(record@),
    {
        let n = record.size();
        proof {
            lemma_sorted_push(self@, record@);
            lemma_records_size_push(self@, record@);
        }
        self.records.push(record);
        self.size = self.size + n;
        assert(self@ =~= old(self)@.push(record@));
    }

    pub fn iter(&self) -> (r: SSTableRecordsIterator)
        ensures
            r@ == self@,
    {
        let r = SSTableRecordsIterator {
            records: copy_records(&self.records, 0, self.records.len()),
            pos: 0,
        };
        assert(r@ =~= self@);
        r
    }

    pub fn len(&self) -> (r: usize)
        ensures
            r == self@.len(),
    {
        self.records.len()
    }

    /// The number of bytes this chunk takes on disk.
    pub fn size(&self) -> (r: usize)
        requires
            self.wf(),
        ensures
            r == records_size(self@),
    {
        self.size
    }

    pub fn get(&self, key: &Key) -> (r: Option<&Value>)
        requires
            self.wf(),
        ensures
            lookup_result(self@, key@, r),
    {
        self.binary_search_get(key)
    }

    fn binary_search_get(&self, key: &Key) -> (r: Option<&Value>)
        requires
            self.wf(),
        ensures
            lookup_result(self@, key@, r),
    {
        match search_sorted(&self.records, 0, self.records.len(), key.as_str()) {
            Some(i) => {
                assert(self@[i as int] == self.records@[i as int]@);
                Some(&self.records[i].1)
            },
            None => {
                assert forall|i: int| 0 <= i < self@.len() implies #[trigger] self@[i].key
                    != key@ by {
                    assert(self@[i] == self.records@[i]@);
                }
                None
            },
        }
    }

    /// Appends `record` unless the chunk already holds `threshold` bytes or
    /// more, or the record does not come after the last one.
    pub fn push(&mut self, record: SSTableRecord, threshold: usize) -> (r: Result<(), String>)
        requires
            old(self).wf(),
        ensures
            final(self).wf(),
            r is Ok <==> (records_size(old(self)@) < threshold && (old(self)@.len() == 0 || key_lt(
                old(self)@.last().key,
                record@.key,
            )) && records_size(old(self)@) + record_len(record@) <= usize::MAX),
            r is Ok ==> final(self)@ == old(self)@.push(record@),
            r is Err ==> final(self)@ == old(self)@,
    {
        if self.size >= threshold {
            return Err("page is full".to_owned());
        }
        if self.records.len() > 0 {
            let last = self.records.len() - 1;
            assert(self@[last as int] == self.records@[last as int]@);
            match compare_keys(self.records[last].0.as_str(), record.0.as_str()) {
                Ordering::Less => {},
                _ => {
                    proof {
                        lemma_key_not_lt(self@.last().key, record@.key);
                    }
                    return Err("keys are not in ascending order".to_owned());
                },
            }
        }
        match record.checked_size() {
            Some(n) => {
                if n > usize::MAX - self.size {
                    return Err("chunk is too large".to_owned());
                }
            },
            None => {
                return Err("chunk is too large".to_owned());
            },
        }
        self.push_unchecked(record);
        Ok(())
    }
}

pub proof fn lemma_record_len_pos(r: RecordModel)
    ensures
        record_len(r) >= 24,
{
}

/// Copies `v[lo..hi]`.
pub fn copy_records(v: &Vec<SSTableRecord>, lo: usize, hi: usize) -> (r: Vec<SSTableRecord>)
    requires
        lo <= hi <= v@.len(),
    ensures
        models(r@) == models(v@).subrange(lo as int, hi as int),
{
    let mut out: Vec<SSTableRecord> = Vec::new();
    let mut i = lo;
    while i < hi
        invariant
            lo <= i <= hi <= v@.len(),
            models(out@) =~= models(v@).subrange(lo as int, i as int),
        decreases hi - i,
    {
        let ghost before = out@;
        out.push(v[i].duplicate());
        assert(models(out@) =~= models(before).push(v@[i as int]@));
        i = i + 1;
        assert(models(out@) =~= models(v@).subrange(lo as int, i as int));
    }
    out
}

/// Hands out the records of a chunk one by one.
pub struct SSTableRecordsIterator {
    records: Vec<SSTableRecord>,
    pos: usize,
}

impl View for SSTableRecordsIterator {
    type V = Seq<RecordModel>;

    /// The records not handed out yet.
    closed spec fn view(&self) -> Seq<RecordModel> {
        if self.pos <= self.records@.len() {
            models(self.records@).skip(self.pos as int)
        } else {
            Seq::empty()
        }
    }
}

impl SSTableRecordsIterator {
    pub fn next(&mut self) -> (r: Option<SSTableRecord>)
        ensures
            old(self)@.len() > 0 ==> r is Some && r->Some_0@ == old(self)@[0] && final(self)@
                == old(self)@.drop_first(),
            old(self)@.len() == 0 ==> r is None && final(self)@ == old(self)@,
    {
        if self.pos < self.records.len() {
            let r = self.records[self.pos].duplicate();
            self.pos = self.pos + 1;
            assert(final(self)@ =~= old(self)@.drop_first());
            Some(r)
        } else {
            None
        }
    }
}


/// A fixed-size table header: its own size and the size of the data.
#[derive(Debug, Clone, Copy, PartialEq, Eq)]
pub struct SSTableHeader {
    pub header_size: u64,
    pub data_size: u64,
}

impl SSTableHeader {
    /// The number of bytes a header takes.
    pub const SIZE: u64 = 16;

    pub fn new(header_size: u64, data_size: u64) -> (r: SSTableHeader)
        ensures
            r.header_size == header_size,
            r.data_size == data_size,
    {
        SSTableHeader { header_size, data_size }
    }

    /// `header_size | data_size`, little-endian.
    pub fn encode(&self) -> (r: Vec<u8>)
        ensures
            r@ == le64(self.header_size) + le64(self.data_size),
    {
        let mut buf: Vec<u8> = Vec::new();
        push_u64_le(&mut buf, self.header_size);
        push_u64_le(&mut buf, self.data_size);
        buf
    }

    /// Reads a header from the first sixteen bytes of `data`.
    pub fn decode(data: &[u8]) -> (r: Result<SSTableHeader, String>)
        ensures
            r is Ok <==> data@.len() >= 16,
            r is Ok ==> r->Ok_0.header_size == le64_value(data@) && r->Ok_0.data_size
                == le64_value(data@.skip(8)),
    {
        if data.len() < 16 {
            return Err("header is cut short".to_owned());
        }
        let header_size = read_u64_le(data, 0);
        let data_size = read_u64_le(data, 8);
        proof {
            assert(le64_value(data@.subrange(0, 8)) == le64_value(data@));
            assert(le64_value(data@.subrange(8, 16)) == le64_value(data@.skip(8)));
        }
        Ok(SSTableHeader { header_size, data_size })
    }
}

/// Records encoded back to back: the first record, then the rest.
pub proof fn lemma_encode_records_first(s: Seq<RecordModel>)
    requires
        s.len() > 0,
    ensures
        encode_records(s) == encode_record(s[0]) + encode_records(s.drop_first()),
    decreases s.len(),
{
    if s.len() == 1 {
        assert(s.drop_last() =~= Seq::<RecordModel>::empty());
        assert(s.drop_first() =~= Seq::<RecordModel>::empty());
        assert(encode_records(s) =~= encode_record(s[0]) + encode_records(s.drop_first()));
    } else {
        lemma_encode_records_first(s.drop_last());
        assert(s.drop_last().drop_first() =~= s.drop_first().drop_last());
        assert(s.drop_first().last() == s.last());
        assert(s.drop_last()[0] == s[0]);
        assert(encode_records(s) =~= encode_record(s[0]) + encode_records(s.drop_first()));
    }
}

/// Every record of `s` can be written and read back, and fits its length
/// fields.
pub open spec fn all_encodable(s: Seq<RecordModel>) -> bool {
    forall|i: int|
        0 <= i < s.len() ==> encodable(#[trigger] s[i]) && utf8(s[i].key).len() < u64::MAX
            && payload_bytes(s[i].value).len() < u64::MAX
}

/// A table reads back as the records it was written from: decoding the bytes
/// of records written back to back gives those records.
/// Decoding records that follow a readable record gives that record first.
proof fn lemma_decode_all_first(r: RecordModel, rest: Seq<u8>)
    requires
        encodable(r),
        utf8(r.key).len() < u64::MAX,
        payload_bytes(r.value).len() < u64::MAX,
    ensures
        decode_all(encode_record(r) + rest) == match decode_all(rest) {
            Some(more) => Some(seq![r] + more),
            None => None,
        },
{
    let b = encode_record(r) + rest;
    lemma_record_round_trip_with(r, rest);
    lemma_record_len_pos(r);
    assert(b.skip(record_len(r) as int) =~= rest);
}

/// A table reads back as the records it was written from: decoding the bytes
/// of records written back to back gives those records.
pub proof fn law_table_round_trip(s: Seq<RecordModel>)
    requires
        all_encodable(s),
    ensures
        decode_all(encode_records(s)) == Some(s),
    decreases s.len(),
{
    if s.len() == 0 {
        assert(encode_records(s).len() == 0);
        assert(s =~= Seq::<RecordModel>::empty());
    } else {
        let tail = s.drop_first();
        lemma_encode_records_first(s);
        assert(all_encodable(tail)) by {
            assert forall|i: int| 0 <= i < tail.len() implies encodable(#[trigger] tail[i])
                && utf8(tail[i].key).len() < u64::MAX && payload_bytes(tail[i].value).len()
                < u64::MAX by {
                assert(tail[i] == s[i + 1]);
            }
        }
        law_table_round_trip(tail);
        assert(encodable(s[0]) && utf8(s[0].key).len() < u64::MAX && payload_bytes(
            s[0].value,
        ).len() < u64::MAX);
        lemma_decode_all_first(s[0], encode_records(tail));
        assert(seq![s[0]] + tail =~= s);
    }
}

/// The index entry of a chunk starting at record `i`: its first key and
/// the bytes before it.
pub open spec fn chunk_entry(s: Seq<RecordModel>, i: int) -> (Seq<char>, u64) {
    (s[i].key, records_size(s.take(i)) as u64)
}

pub proof fn lemma_records_size_positive(s: Seq<RecordModel>)
    requires
        s.len() > 0,
    ensures
        records_size(s) >= 24,
{
    lemma_record_len_pos(s.last());
}

/// Walking a whole chunk, each of whose proper prefixes stays below `limit`,
/// after a closed chunk adds one index entry, for the chunk's first record.
pub proof fn lemma_walk_chunk(s: Seq<RecordModel>, c: Seq<RecordModel>, limit: nat)
    requires
        index_walk(s, limit).2 == 0,
        c.len() > 0,
        forall|k: int| 0 < k < c.len() ==> records_size(#[trigger] c.take(k)) < limit,
    ensures
        index_walk(s + c, limit).0 == index_walk(s, limit).0.push(
            (c[0].key, records_size(s) as u64),
        ),
        index_walk(s + c, limit).2 == if records_size(c) >= limit {
            0
        } else {
            records_size(c)
        },
    decreases c.len(),
{
    lemma_index_walk_offset(s, limit);
    if c.len() == 1 {
        assert((s + c).drop_last() =~= s);
        assert((s + c).last() == c[0]);
        assert(c.drop_last() =~= Seq::<RecordModel>::empty());
    } else {
        let c1 = c.drop_last();
        assert forall|k: int| 0 < k < c1.len() implies records_size(#[trigger] c1.take(k)) < limit by {
            assert(c1.take(k) =~= c.take(k));
        }
        lemma_walk_chunk(s, c1, limit);
        assert(c.take(c1.len() as int) =~= c1);
        assert(records_size(c.take(c1.len() as int)) < limit);
        lemma_records_size_positive(c1);
        assert((s + c).drop_last() =~= s + c1);
        assert((s + c).last() == c.last());
        assert(c1[0] == c[0]);
    }
}

/// Chunk size used when none is given: a common page size.
pub const DEFAULT_CHUNK_SIZE: usize = 4096;

pub proof fn lemma_sorted_lt_index(s: Seq<RecordModel>, i: int, j: int)
    requires
        sorted_keys(s),
        0 <= i < s.len(),
        0 <= j < s.len(),
        key_lt(s[i].key, s[j].key),
    ensures
        i < j,
{
    if i == j {
        lemma_key_lt_irreflexive(s[i].key);
    } else if j < i {
        lemma_key_lt_asymmetric(s[j].key, s[i].key);
    }
}

pub proof fn lemma_sorted_eq_index(s: Seq<RecordModel>, i: int, j: int)
    requires
        sorted_keys(s),
        0 <= i < s.len(),
        0 <= j < s.len(),
        s[i].key == s[j].key,
    ensures
        i == j,
{
    if i < j {
        lemma_key_lt_irreflexive(s[i].key);
    } else if j < i {
        lemma_key_lt_irreflexive(s[i].key);
    }
}

pub proof fn lemma_records_size_append(a: Seq<RecordModel>, b: Seq<RecordModel>)
    ensures
        records_size(a + b) == records_size(a) + records_size(b),
    decreases b.len(),
{
    if b.len() > 0 {
        lemma_records_size_append(a, b.drop_last());
        assert((a + b).drop_last() =~= a + b.drop_last());
    } else {
        assert(a + b =~= a);
    }
}

pub proof fn lemma_records_size_bound(s: Seq<RecordModel>)
    ensures
        forall|i: int| 0 <= i <= s.len() ==> records_size(#[trigger] s.subrange(0, i)) <= records_size(s),
{
    assert forall|i: int| 0 <= i <= s.len() implies records_size(#[trigger] s.subrange(0, i))
        <= records_size(s) by {
        lemma_records_size_append(s.subrange(0, i), s.subrange(i, s.len() as int));
        assert(s.subrange(0, i) + s.subrange(i, s.len() as int) =~= s);
    }
}

pub proof fn lemma_sorted_append(a: Seq<RecordModel>, b: Seq<RecordModel>)
    requires
        sorted_keys(a),
        sorted_keys(b),
        a.len() == 0 || b.len() == 0 || key_lt(a.last().key, b[0].key),
    ensures
        sorted_keys(a + b),
{
    assert forall|i: int, j: int| 0 <= i < j < (a + b).len() implies key_lt(
        #[trigger] (a + b)[i].key,
        #[trigger] (a + b)[j].key,
    ) by {
        if i < a.len() && j >= a.len() {
            let k = j - a.len();
            if i < a.len() - 1 {
                lemma_key_lt_transitive(a[i].key, a.last().key, b[0].key);
            }
            if k > 0 {
                lemma_key_lt_transitive(a[i].key, b[0].key, b[k].key);
            }
        }
    }
}

pub proof fn lemma_sorted_suffix(a: Seq<RecordModel>, b: Seq<RecordModel>)
    requires
        sorted_keys(a + b),
    ensures
        sorted_keys(b),
{
    assert forall|i: int, j: int| 0 <= i < j < b.len() implies key_lt(
        #[trigger] b[i].key,
        #[trigger] b[j].key,
    ) by {
        assert((a + b)[a.len() + i] == b[i]);
        assert((a + b)[a.len() + j] == b[j]);
    }
}

/// Reading a further chunk of records moves the reading position past it.
pub proof fn lemma_decoded_compose(
    b: Seq<u8>,
    done: Seq<RecordModel>,
    off: int,
    c: Seq<RecordModel>,
    n: int,
)
    requires
        0 <= off <= b.len(),
        0 <= n <= b.len() - off,
        decoded_after(b, done, b.skip(off)),
        decoded_after(b.skip(off), c, b.skip(off).skip(n)),
    ensures
        decoded_after(b, done + c, b.skip(off + n)),
{
    assert(b.skip(off).skip(n) =~= b.skip(off + n));
    match decode_all(b.skip(off + n)) {
        Some(more) => {
            assert(done + (c + more) =~= (done + c) + more);
        },
        None => {},
    }
}

/// The bytes of back-to-back records.
pub open spec fn encode_records(s: Seq<RecordModel>) -> Seq<u8>
    decreases s.len(),
{
    if s.len() == 0 {
        Seq::empty()
    } else {
        encode_records(s.drop_last()) + encode_record(s.last())
    }
}

/// A whole table in memory: records in ascending key order, split into
/// chunks of about `chunk_size` bytes each.
#[derive(Debug, PartialEq, Eq)]
pub struct SSTableData {
    records: Vec<SSTableRecord>,
    /// Where each chunk starts in `records`.
    starts: Vec<usize>,
    size: usize,
    /// Bytes held by the last chunk.
    tail: usize,
    chunk_size: usize,
}

impl View for SSTableData {
    type V = Seq<RecordModel>;

    closed spec fn view(&self) -> Seq<RecordModel> {
        models(self.records@)
    }
}

impl SSTableData {
    pub closed spec fn wf(&self) -> bool {
        &&& sorted_keys(self@)
        &&& self.size == records_size(self@)
        &&& records_size(self@) <= usize::MAX
        &&& self.tail <= self.size
        &&& self.tail == self.last_chunk_bytes()
        &&& (self.records@.len() > 0 ==> self.tail > 0)
        &&& self.walk_matches()
        &&& self.chunk_size > 0
        &&& (self.starts@.len() == 0 <==> self.records@.len() == 0)
        &&& (self.starts@.len() > 0 ==> self.starts@[0] == 0)
        &&& forall|i: int, j: int|
            0 <= i < j < self.starts@.len() ==> self.starts@[i] < self.starts@[j]
        &&& forall|i: int| 0 <= i < self.starts@.len() ==> self.starts@[i] < self.records@.len()
    }

    /// Walking the records with the writer's chunking rule finds exactly
    /// this table's chunks.
    #[verifier::opaque]
    closed spec fn walk_matches(&self) -> bool {
        let w = index_walk(self@, self.chunk_size as nat);
        &&& w.0.len() == self.starts@.len()
        &&& forall|j: int|
            0 <= j < self.starts@.len() ==> #[trigger] w.0[j] == chunk_entry(
                self@,
                self.starts@[j] as int,
            )
        &&& w.2 == if self.tail >= self.chunk_size {
            0
        } else {
            self.tail as nat
        }
    }

    /// The sparse index that a writer builds with this table's chunk size
    /// holds exactly one entry per chunk: the chunk's first key and its byte
    /// offset.
    pub proof fn lemma_index_matches_chunks(&self)
        requires
            self.wf(),
        ensures
            index_walk(self@, self.chunk_limit() as nat).0.len() == self.chunk_starts().len(),
            forall|j: int|
                0 <= j < self.chunk_starts().len() ==> #[trigger] index_walk(
                    self@,
                    self.chunk_limit() as nat,
                ).0[j] == chunk_entry(self@, self.chunk_starts()[j] as int),
    {
        reveal(SSTableData::walk_matches);
    }

    /// Where each chunk starts, as a position among the records.
    pub closed spec fn chunk_starts(&self) -> Seq<usize> {
        self.starts@
    }

    /// The size at which a chunk closes.
    pub closed spec fn chunk_limit(&self) -> usize {
        self.chunk_size
    }

    /// The bytes held by the last chunk; none without records.
    pub closed spec fn last_chunk_bytes(&self) -> nat {
        if self.starts@.len() == 0 {
            0
        } else {
            records_size(models(self.records@).skip(self.starts@.last() as int))
        }
    }

    /// A well-formed table has strictly ascending keys and fits in memory.
    pub proof fn lemma_wf(&self)
        requires
            self.wf(),
        ensures
            sorted_keys(self@),
            records_size(self@) <= usize::MAX,
    {
    }

    /// Where chunk `m` starts, or the end of the records for `m` past the last chunk.
    closed spec fn start_of(&self, m: int) -> int {
        if m < self.starts@.len() {
            self.starts@[m] as int
        } else {
            self.records@.len() as int
        }
    }

    pub fn new(chunk_size: usize) -> (r: SSTableData)
        requires
            chunk_size > 0,
        ensures
            r.wf(),
            r@.len() == 0,
            r.chunk_starts().len() == 0,
            r.chunk_limit() == chunk_size,
    {
        reveal(SSTableData::walk_matches);
        let r = SSTableData {
            records: Vec::new(),
            starts: Vec::new(),
            size: 0,
            tail: 0,
            chunk_size,
        };
        assert(r@ =~= Seq::<RecordModel>::empty());
        r
    }

    /// Decodes a run of records that fills `data`, in chunks of about
    /// `chunk_size` bytes.
    #[verifier::rlimit(100)]
    pub fn decode(data: &[u8], chunk_size: usize) -> (r: Result<SSTableData, String>)
        requires
            chunk_size > 0,
        ensures
            r is Ok <==> !rejected(data@),
            r is Ok ==> r->Ok_0.wf() && r->Ok_0@ == decode_all(data@)->Some_0,
            r is Ok ==> r->Ok_0.chunk_limit() == chunk_size,
    {
        let mut offset: usize = 0;
        let mut table = Self::new(chunk_size);
        assert(data@.skip(0) =~= data@);
        assert(Seq::<RecordModel>::empty() + Seq::<RecordModel>::empty() =~= Seq::<
            RecordModel,
        >::empty());
        while offset < data.len()
            invariant
                offset <= data@.len(),
                table.wf(),
                chunk_size > 0,
                table.chunk_size == chunk_size,
                offset < data@.len() ==> (table@.len() == 0 || table.tail >= chunk_size),
                decoded_after(data@, table@, data@.skip(offset as int)),
                records_size(table@) <= offset,
            decreases data@.len() - offset,
        {
            let ghost sub = data@.skip(offset as int);
            assert(data@.subrange(offset as int, data@.len() as int) =~= sub);
            let (chunk, n) = match SSTableRecords::decode(&data[offset..data.len()], chunk_size) {
                Ok(x) => x,
                Err(e) => {
                    proof {
                        match decode_all(sub) {
                            Some(t) => {
                                if sorted_keys(table@ + t) {
                                    lemma_sorted_suffix(table@, t);
                                }
                            },
                            None => {},
                        }
                    }
                    return Err(e);
                },
            };
            if table.records.len() > 0 {
                let last = table.records.len() - 1;
                assert(table@[last as int] == table.records@[last as int]@);
                assert(chunk@[0] == chunk.records@[0]@);
                match compare_keys(table.records[last].0.as_str(), chunk.records[0].0.as_str()) {
                    Ordering::Less => {},
                    _ => {
                        proof {
                            lemma_key_not_lt(table@.last().key, chunk@[0].key);
                            assert(sub.skip(n as int) =~= data@.skip(offset + n));
                            match decode_all(data@.skip(offset + n)) {
                                Some(more) => {
                                    assert(chunk@ + more =~= seq![chunk@[0]] + (chunk@.drop_first()
                                        + more));
                                    lemma_unsorted_extend(table@, chunk@[0], chunk@.drop_first()
                                        + more);
                                    assert(table@ + (chunk@ + more) =~= table@ + (seq![chunk@[0]]
                                        + (chunk@.drop_first() + more)));
                                },
                                None => {},
                            }
                        }
                        return Err("keys are not in ascending order".to_owned());
                    },
                }
            }
            proof {
                lemma_decoded_compose(data@, table@, offset as int, chunk@, n as int);
                lemma_records_size_append(table@, chunk@);
                match decode_all(sub) {
                    Some(t) => {},
                    None => {},
                }
            }
            table.append_chunk(chunk);
            offset = offset + n;
        }
        proof {
            assert(data@.skip(offset as int) =~= Seq::<u8>::empty());
            assert(table@ + Seq::<RecordModel>::empty() =~= table@);
        }
        Ok(table)
    }

    /// Appends a decoded chunk whose keys all come after this table's.
    fn append_chunk(&mut self, chunk: SSTableRecords)
        requires
            old(self).wf(),
            chunk.wf(),
            chunk@.len() > 0,
            old(self)@.len() == 0 || key_lt(old(self)@.last().key, chunk@[0].key),
            records_size(old(self)@) + records_size(chunk@) <= usize::MAX,
            old(self)@.len() == 0 || old(self).tail >= old(self).chunk_size,
            forall|k: int| 0 <= k < chunk@.len() ==> records_size(#[trigger] chunk@.take(k)) < old(self).chunk_size,
        ensures
            final(self).wf(),
            final(self)@ == old(self)@ + chunk@,
            final(self).chunk_size == old(self).chunk_size,
            final(self).tail == records_size(chunk@),
    {
        reveal(SSTableData::walk_matches);
        proof {
            lemma_sorted_append(self@, chunk@);
            lemma_records_size_append(self@, chunk@);
        }
        let start = self.records.len();
        let ghost old_s = self@;
        let ghost old_starts = self.starts@;
        proof {
            let cs = self.chunk_size as nat;
            assert forall|k: int| 0 < k < chunk@.len() implies records_size(#[trigger] chunk@.take(k)) < cs by {
            }
            lemma_walk_chunk(old_s, chunk@, cs);
            lemma_records_size_positive(chunk@);
        }
        let mut recs = chunk.records;
        self.records.append(&mut recs);
        self.starts.push(start);
        self.size = self.size + chunk.size;
        self.tail = chunk.size;
        assert(self@ =~= old(self)@ + chunk@);
        assert(self@.skip(start as int) =~= chunk@);
        proof {
            let cs = self.chunk_size as nat;
            assert forall|j: int| 0 <= j < self.starts@.len() implies #[trigger] index_walk(
                self@,
                cs,
            ).0[j] == chunk_entry(self@, self.starts@[j] as int) by {
                let st = self.starts@[j] as int;
                if j < old_starts.len() {
                    assert(self.starts@[j] == old_starts[j]);
                    assert(self@.take(st) =~= old_s.take(st));
                    assert(self@[st] == old_s[st]);
                } else {
                    assert(st == old_s.len());
                    assert(self@.take(st) =~= old_s);
                    assert(self@[st] == chunk@[0]);
                }
            }
        }
    }

    /// Appends `record`, which must come after the last record; a new chunk
    /// is started exactly when there is none yet or the last one holds
    /// `chunk_size` bytes or more.
    pub fn push(&mut self, record: SSTableRecord) -> (r: Result<(), String>)
        requires
            old(self).wf(),
        ensures
            final(self).wf(),
            r is Ok <==> ((old(self)@.len() == 0 || key_lt(old(self)@.last().key, record@.key))
                && records_size(old(self)@) + record_len(record@) <= usize::MAX),
            r is Ok ==> final(self)@ == old(self)@.push(record@),
            r is Ok ==> final(self).chunk_limit() == old(self).chunk_limit(),
            r is Ok ==> {
                let opens = old(self)@.len() == 0 || old(self).last_chunk_bytes() >= old(
                    self,
                ).chunk_limit();
                &&& final(self).chunk_starts() == if opens {
                    old(self).chunk_starts().push(old(self)@.len() as usize)
                } else {
                    old(self).chunk_starts()
                }
                &&& final(self).last_chunk_bytes() == if opens {
                    record_len(record@)
                } else {
                    old(self).last_chunk_bytes() + record_len(record@)
                }
            },
            r is Err ==> *final(self) == *old(self),
    {
        if self.records.len() > 0 {
            let last = self.records.len() - 1;
            assert(self@[last as int] == self.records@[last as int]@);
            match compare_keys(self.records[last].0.as_str(), record.0.as_str()) {
                Ordering::Less => {},
                _ => {
                    proof {
                        lemma_key_not_lt(self@.last().key, record@.key);
                    }
                    return Err("keys are not in ascending order".to_owned());
                },
            }
        }
        let n = match record.checked_size() {
            Some(n) => n,
            None => {
                return Err("table is too large".to_owned());
            },
        };
        if n > usize::MAX - self.size {
            return Err("table is too large".to_owned());
        }
        reveal(SSTableData::walk_matches);
        let ghost rm = record@;
        let ghost old_s = self@;
        let ghost old_starts = self.starts@;
        let ghost opens = self.records@.len() == 0 || self.tail >= self.chunk_size;
        if self.records.len() == 0 || self.tail >= self.chunk_size {
            self.starts.push(self.records.len());
            self.tail = 0;
        }
        proof {
            lemma_sorted_push(self@, record@);
            lemma_records_size_push(self@, record@);
            let st = self.starts@.last() as int;
            lemma_records_size_push(self@.skip(st), record@);
            assert(self@.push(rm).skip(st) =~= self@.skip(st).push(rm));
            if st == self@.len() {
                assert(self@.skip(st) =~= Seq::<RecordModel>::empty());
            }
        }
        self.records.push(record);
        self.size = self.size + n;
        self.tail = self.tail + n;
        assert(self@ =~= old(self)@.push(rm));
        proof {
            let cs = self.chunk_size as nat;
            let w = index_walk(old_s, cs);
            lemma_index_walk_offset(old_s, cs);
            lemma_record_len_pos(rm);
            assert(self@.drop_last() =~= old_s);
            assert(self@.last() == rm);
            assert(opens <==> w.2 == 0);
            assert forall|j: int| 0 <= j < self.starts@.len() implies #[trigger] index_walk(
                self@,
                cs,
            ).0[j] == chunk_entry(self@, self.starts@[j] as int) by {
                let st = self.starts@[j] as int;
                if j < old_starts.len() {
                    assert(self.starts@[j] == old_starts[j]);
                    assert(self@.take(st) =~= old_s.take(st));
                    assert(self@[st] == old_s[st]);
                } else {
                    assert(st == old_s.len());
                    assert(self@.take(st) =~= old_s);
                }
            }
        }
        Ok(())
    }

    /// A table holding the records of `memtable`; fails only when they are
    /// too large to hold.
    pub fn from_memtable(memtable: &crate::memtable::MemTable, chunk_size: usize) -> (r: Result<
        SSTableData,
        String,
    >)
        requires
            memtable.wf(),
            chunk_size > 0,
        ensures
            r is Ok <==> records_size(memtable@) <= usize::MAX,
            r is Ok ==> r->Ok_0.wf() && r->Ok_0@ == memtable@,
    {
        proof {
            memtable.lemma_wf();
        }
        let records = memtable.records();
        let ghost s = memtable@;
        let mut data = Self::new(chunk_size);
        let mut i: usize = 0;
        proof {
            lemma_records_size_bound(s);
            assert(s.subrange(0, 0) =~= Seq::<RecordModel>::empty());
        }
        while i < records.len()
            invariant
                s == memtable@,
                models(records@) == s,
                sorted_keys(s),
                i <= s.len(),
                data.wf(),
                data@ == s.subrange(0, i as int),
                forall|k: int| 0 <= k <= s.len() ==> records_size(#[trigger] s.subrange(0, k)) <= records_size(s),
            decreases s.len() - i,
        {
            assert(s[i as int] == records@[i as int]@);
            let r = records[i].duplicate();
            proof {
                assert(s.subrange(0, i + 1) =~= s.subrange(0, i as int).push(s[i as int]));
                lemma_records_size_push(s.subrange(0, i as int), s[i as int]);
                if i > 0 {
                    assert(data@.last() == s[i - 1]);
                    assert(key_lt(s[i - 1].key, s[i as int].key));
                }
                assert(records_size(s.subrange(0, i + 1)) <= records_size(s));
            }
            let ghost before = data@;
            let ghost rm = r@;
            match data.push(r) {
                Ok(()) => {},
                Err(e) => {
                    assert(rm == s[i as int]);
                    assert(before.len() == 0 || key_lt(before.last().key, rm.key));
                    return Err(e);
                },
            }
            i = i + 1;
        }
        proof {
            assert(s.subrange(0, i as int) =~= s);
        }
        Ok(data)
    }

    /// The records, in key order.
    pub fn records(&self) -> (r: &Vec<SSTableRecord>)
        ensures
            models(r@) == self@,
    {
        &self.records
    }

    /// The number of bytes the records take on disk.
    pub fn len(&self) -> (r: usize)
        requires
            self.wf(),
        ensures
            r == records_size(self@),
    {
        self.size
    }

    /// The number of chunks.
    pub fn chunk_count(&self) -> (r: usize)
        requires
            self.wf(),
        ensures
            (r == 0) == (self@.len() == 0),
    {
        self.starts.len()
    }

    /// Looks `key` up, trying chunk number `hint` first when it is given.
    pub fn get(&self, key: &Key, hint: Option<Offset>) -> (r: Option<&Value>)
        requires
            self.wf(),
        ensures
            lookup_result(self@, key@, r),
    {
        if let Some(h) = hint {
            if h < self.starts.len() as u64 {
                let m = h as usize;
                let lo = self.starts[m];
                let hi = if m + 1 < self.starts.len() {
                    self.starts[m + 1]
                } else {
                    self.records.len()
                };
                if let Some(i) = search_sorted(&self.records, lo, hi, key.as_str()) {
                    assert(self@[i as int] == self.records@[i as int]@);
                    return Some(&self.records[i].1);
                }
            }
        }
        self.binary_search_get(key)
    }

    /// Finds the chunk whose first key is the last one not after `key`, then
    /// searches within it.
    fn binary_search_get(&self, key: &Key) -> (r: Option<&Value>)
        requires
            self.wf(),
        ensures
            lookup_result(self@, key@, r),
    {
        let ghost s = self@;
        let n = self.starts.len();
        let mut left: usize = 0;
        let mut right: usize = n;
        while left < right
            invariant
                self.wf(),
                s == self@,
                n == self.starts@.len(),
                left <= right <= n,
                forall|i: int|
                    0 <= i < s.len() && #[trigger] s[i].key == key@ ==> self.start_of(left as int)
                        <= i < self.start_of(right as int),
            decreases right - left,
        {
            let mid = left + (right - left) / 2;
            let first = self.starts[mid];
            assert(s[first as int] == self.records@[first as int]@);
            match compare_keys(self.records[first].0.as_str(), key.as_str()) {
                Ordering::Greater => {
                    assert forall|i: int|
                        0 <= i < s.len() && #[trigger] s[i].key == key@ implies self.start_of(
                        left as int,
                    ) <= i < self.start_of(mid as int) by {
                        if i >= first {
                            lemma_sorted_lt_index(s, i, first as int);
                        }
                    }
                    right = mid;
                },
                _ => {
                    let end = if mid + 1 < n {
                        self.starts[mid + 1]
                    } else {
                        self.records.len()
                    };
                    let past = if mid + 1 < n {
                        assert(s[end as int] == self.records@[end as int]@);
                        match compare_keys(key.as_str(), self.records[end].0.as_str()) {
                            Ordering::Less => false,
                            _ => true,
                        }
                    } else {
                        false
                    };
                    if !past {
                        assert forall|i: int|
                            0 <= i < s.len() && #[trigger] s[i].key == key@ implies first <= i
                            < end by {
                            if i < first {
                                if s[first as int].key == key@ {
                                    lemma_sorted_eq_index(s, i, first as int);
                                } else {
                                    lemma_sorted_lt_index(s, first as int, i);
                                }
                            }
                            if i >= end && mid + 1 < n {
                                lemma_sorted_lt_index(s, i, end as int);
                            }
                        }
                        return match search_sorted(&self.records, first, end, key.as_str()) {
                            Some(i) => {
                                assert(s[i as int] == self.records@[i as int]@);
                                Some(&self.records[i].1)
                            },
                            None => {
                                assert forall|i: int| 0 <= i < s.len() implies #[trigger] s[i].key
                                    != key@ by {
                                    assert(s[i] == self.records@[i]@);
                                }
                                None
                            },
                        };
                    }
                    assert forall|i: int|
                        0 <= i < s.len() && #[trigger] s[i].key == key@ implies self.start_of(
                        mid + 1,
                    ) <= i < self.start_of(right as int) by {
                        if i < end {
                            if s[end as int].key == key@ {
                                lemma_sorted_eq_index(s, i, end as int);
                            } else {
                                lemma_sorted_lt_index(s, end as int, i);
                            }
                        }
                    }
                    left = mid + 1;
                },
            }
        }
        None
    }

    /// The bytes of all records, back to back.
    pub fn encode(&self) -> (r: Vec<u8>)
        ensures
            r@ == encode_records(self@),
    {
        let mut buf: Vec<u8> = Vec::new();
        let mut i: usize = 0;
        while i < self.records.len()
            invariant
                i <= self.records@.len(),
                buf@ == encode_records(self@.subrange(0, i as int)),
            decreases self.records@.len() - i,
        {
            assert(self@.subrange(0, i + 1).drop_last() =~= self@.subrange(0, i as int));
            assert(self@[i as int] == self.records@[i as int]@);
            self.records[i].encode_into(&mut buf);
            i = i + 1;
        }
        assert(self@.subrange(0, i as int) =~= self@);
        buf
    }

    pub fn iter(&self) -> (r: SSTableDataIterator)
        ensures
            r@ == self@,
    {
        let r = SSTableDataIterator {
            records: copy_records(&self.records, 0, self.records.len()),
            pos: 0,
        };
        assert(r@ =~= self@);
        r
    }

    /// Decodes a run of records in chunks of the default size.
    pub fn try_from(data: Vec<u8>) -> (r: Result<SSTableData, String>)
        ensures
            r is Ok <==> !rejected(data@),
            r is Ok ==> r->Ok_0.wf() && r->Ok_0@ == decode_all(data@)->Some_0,
    {
        Self::decode(data.as_slice(), DEFAULT_CHUNK_SIZE)
    }
}

/// Hands out the records of a table one by one, in key order.
pub struct SSTableDataIterator {
    records: Vec<SSTableRecord>,
    pos: usize,
}

impl View for SSTableDataIterator {
    type V = Seq<RecordModel>;

    /// The records not handed out yet.
    closed spec fn view(&self) -> Seq<RecordModel> {
        if self.pos <= self.records@.len() {
            models(self.records@).skip(self.pos as int)
        } else {
            Seq::empty()
        }
    }
}

impl SSTableDataIterator {
    pub fn next(&mut self) -> (r: Option<SSTableRecord>)
        ensures
            old(self)@.len() > 0 ==> r is Some && r->Some_0@ == old(self)@[0] && final(self)@
                == old(self)@.drop_first(),
            old(self)@.len() == 0 ==> r is None && final(self)@ == old(self)@,
    {
        if self.pos < self.records.len() {
            let r = self.records[self.pos].duplicate();
            self.pos = self.pos + 1;
            assert(final(self)@ =~= old(self)@.drop_first());
            Some(r)
        } else {
            None
        }
    }
}

} // verus!
