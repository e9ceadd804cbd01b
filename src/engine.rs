//! The decisions of the store: where a write goes and when the memtable is
//! frozen for flushing, and which answer a read gives.
use vstd::prelude::*;
use crate::codec::utf8;
use crate::memtable::{MemTable, Value, has_record, lemma_unique_record, table_cost};
use crate::sstable::{RecordModel, has_key, holds, lemma_sorted_eq_index, payload_view, sorted_keys};

verus! {

/// The live memtable of a store and the size at which it is frozen.
#[derive(Debug)]
pub struct LSMCore {
    memtable: MemTable,
    threshold: usize,
}

/// A payload and its timestamp, as a table read gives it.
pub type Candidate = (Option<String>, u64);

pub open spec fn candidate_view(c: Candidate) -> (Option<Seq<char>>, u64) {
    (payload_view(c.0), c.1)
}

/// `r` is the payload of a candidate that no other candidate is newer than;
/// there is no answer without candidates.
pub open spec fn is_newest(cands: Seq<(Option<Seq<char>>, u64)>, r: Option<Seq<char>>) -> bool {
    if cands.len() == 0 {
        r is None
    } else {
        exists|i: int|
            0 <= i < cands.len() && r == cands[i].0 && forall|j: int|
                0 <= j < cands.len() ==> #[trigger] cands[j].1 <= cands[i].1
    }
}

/// What the memtable answers for key `k`: `Some(payload)` when it holds a
/// record of `k` (a `None` payload for a tombstone), `None` when the tables on
/// disk decide.
pub open spec fn memtable_answer(s: Seq<RecordModel>, k: Seq<char>) -> Option<Option<Seq<char>>> {
    if has_key(s, k) {
        Some((choose|m: RecordModel| has_record(s, m) && m.key == k).value)
    } else {
        None
    }
}

impl LSMCore {
    pub closed spec fn wf(&self) -> bool {
        &&& self.memtable.wf()
        &&& (table_cost(self.memtable@) < self.threshold || self.memtable@.len() == 0)
    }

    /// The records of the live memtable.
    pub closed spec fn records(&self) -> Seq<RecordModel> {
        self.memtable@
    }

    pub closed spec fn limit(&self) -> usize {
        self.threshold
    }

    /// A store with an empty memtable that is frozen once its records cost
    /// `threshold` bytes or more (after every write, for a zero threshold).
    pub fn new(threshold: usize) -> (r: LSMCore)
        ensures
            r.wf(),
            r.records().len() == 0,
            r.limit() == threshold,
    {
        LSMCore { memtable: MemTable::new(), threshold }
    }

    /// Applies a write at `timestamp`: a value, or a tombstone for `None`.
    /// When the memtable then reaches the threshold it is frozen: it is
    /// returned for flushing and an empty one takes its place.
    pub fn write(&mut self, key: &str, value: Option<&str>, timestamp: u64) -> (r: Option<MemTable>)
        requires
            old(self).wf(),
            table_cost(old(self).records()) + utf8(key@).len() + match value {
                Some(v) => utf8(v@).len(),
                None => 0,
            } + 8 <= usize::MAX,
        ensures
            final(self).wf(),
            final(self).limit() == old(self).limit(),
            ({
                let written = match r {
                    Some(frozen) => frozen@,
                    None => final(self).records(),
                };
                &&& sorted_keys(written)
                &&& forall|m: RecordModel|
                    has_record(written, m) <==> (m == RecordModel {
                        key: key@,
                        value: match value {
                            Some(v) => Some(v@),
                            None => None,
                        },
                        timestamp,
                    } || (m.key != key@ && has_record(old(self).records(), m)))
            }),
            r is Some ==> r->Some_0.wf() && final(self).records().len() == 0 && table_cost(
                r->Some_0@,
            ) >= old(self).limit(),
            r is None ==> table_cost(final(self).records()) < old(self).limit(),
    {
        assert(table_cost(Seq::<RecordModel>::empty()) == 0);
        match value {
            Some(v) => {
                self.memtable.put(key, v, timestamp);
            },
            None => {
                self.memtable.delete(key, timestamp);
            },
        }
        proof {
            self.memtable.lemma_wf();
        }
        if self.memtable.len() >= self.threshold {
            let frozen = core::mem::replace(&mut self.memtable, MemTable::new());
            Some(frozen)
        } else {
            None
        }
    }

    /// The memtable's answer for `key`: `Some(Some(v))` for a value,
    /// `Some(None)` for a tombstone, and `None` when the tables on disk have
    /// to be read.
    pub fn read(&self, key: &str) -> (r: Option<Option<String>>)
        requires
            self.wf(),
        ensures
            match r {
                Some(p) => memtable_answer(self.records(), key@) == Some(payload_view(p)),
                None => memtable_answer(self.records(), key@) is None,
            },
    {
        proof {
            self.memtable.lemma_wf();
        }
        match self.memtable.get(key) {
            Some(v) => {
                proof {
                    let m = RecordModel { key: key@, value: v.payload(), timestamp: v.timestamp() };
                    let c = choose|c: RecordModel| has_record(self.memtable@, c) && c.key == key@;
                    lemma_unique_record(self.memtable@, m, c);
                    let i = choose|i: int| 0 <= i < self.memtable@.len() && #[trigger] self.memtable@[i] == m;
                    assert(self.memtable@[i].key == key@);
                }
                match v {
                    Value::Data(s, _) => Some(Some(s)),
                    Value::Tombstone(_) => Some(None),
                }
            },
            None => None,
        }
    }

    /// The live memtable's records cost in bytes against the threshold.
    pub fn memtable_len(&self) -> (r: usize)
        requires
            self.wf(),
        ensures
            r == table_cost(self.records()),
    {
        self.memtable.len()
    }

    /// A copy of the live memtable.
    pub fn get_memtable(&self) -> (r: MemTable)
        requires
            self.wf(),
        ensures
            r.wf(),
            r@ == self.records(),
    {
        self.memtable.duplicate()
    }

    pub fn get_memtable_threshold(&self) -> (r: usize)
        ensures
            r == self.limit(),
    {
        self.threshold
    }
}

/// The answer among the candidates that table reads gave for a key: the
/// payload with the greatest timestamp (the later candidate on a tie), or
/// `None` without candidates.
pub fn newest(candidates: &Vec<Candidate>) -> (r: Option<String>)
    ensures
        is_newest(candidates@.map_values(|c: Candidate| candidate_view(c)), payload_view(r)),
{
    let ghost cs = candidates@.map_values(|c: Candidate| candidate_view(c));
    if candidates.len() == 0 {
        return None;
    }
    let mut best: usize = 0;
    let mut i: usize = 1;
    while i < candidates.len()
        invariant
            cs == candidates@.map_values(|c: Candidate| candidate_view(c)),
            1 <= i <= candidates@.len(),
            best < i,
            forall|j: int| 0 <= j < i ==> #[trigger] cs[j].1 <= cs[best as int].1,
        decreases candidates@.len() - i,
    {
        assert(cs[i as int] == candidate_view(candidates@[i as int]));
        assert(cs[best as int] == candidate_view(candidates@[best as int]));
        if candidates[i].1 >= candidates[best].1 {
            best = i;
        }
        i = i + 1;
    }
    assert(cs[best as int] == candidate_view(candidates@[best as int]));
    crate::sstable::copy_payload(&candidates[best].0)
}

/// The newest write decides: when one candidate is strictly newer than all
/// the others, a read answers with its payload (a value, or nothing for a
/// tombstone).
pub proof fn law_newest_write_wins(
    cands: Seq<(Option<Seq<char>>, u64)>,
    j: int,
    r: Option<Seq<char>>,
)
    requires
        0 <= j < cands.len(),
        forall|i: int| 0 <= i < cands.len() && i != j ==> #[trigger] cands[i].1 < cands[j].1,
        is_newest(cands, r),
    ensures
        r == cands[j].0,
{
    let i = choose|i: int|
        0 <= i < cands.len() && r == cands[i].0 && forall|k: int|
            0 <= k < cands.len() ==> #[trigger] cands[k].1 <= cands[i].1;
    if i != j {
        assert(cands[j].1 <= cands[i].1);
    }
}

/// A write is seen at once: after writing `value` (or a tombstone) for a key,
/// the memtable that received it answers with exactly that payload.
pub proof fn law_read_your_write(
    before: Seq<RecordModel>,
    after: Seq<RecordModel>,
    k: Seq<char>,
    value: Option<Seq<char>>,
    timestamp: u64,
)
    requires
        sorted_keys(after),
        forall|m: RecordModel|
            has_record(after, m) <==> (m == RecordModel { key: k, value, timestamp } || (m.key
                != k && has_record(before, m))),
    ensures
        memtable_answer(after, k) == Some(value),
{
    let w = RecordModel { key: k, value, timestamp };
    assert(has_record(after, w));
    let i = choose|i: int| 0 <= i < after.len() && #[trigger] after[i] == w;
    assert(after[i].key == k);
    let c = choose|c: RecordModel| has_record(after, c) && c.key == k;
    lemma_unique_record(after, w, c);
}

/// Flushing the same records twice gives tables that answer every lookup
/// alike: two tables holding the same records (as two flushes of one frozen
/// memtable do, the written bytes being a function of the records) agree on
/// whether a key is present and, when it is, on its payload and timestamp.
pub proof fn law_flush_twice_reads_alike(t1: Seq<RecordModel>, t2: Seq<RecordModel>, k: Seq<char>)
    requires
        sorted_keys(t1),
        t1 == t2,
    ensures
        has_key(t1, k) == has_key(t2, k),
        forall|v1: Candidate, v2: Candidate|
            holds(t1, k, v1) && holds(t2, k, v2) ==> payload_view(v1.0) == payload_view(v2.0)
                && v1.1 == v2.1,
{
    assert forall|v1: Candidate, v2: Candidate|
        holds(t1, k, v1) && holds(t2, k, v2) implies payload_view(v1.0) == payload_view(v2.0)
        && v1.1 == v2.1 by {
        let i = choose|i: int|
            0 <= i < t1.len() && #[trigger] t1[i].key == k && t1[i].value == payload_view(v1.0)
                && t1[i].timestamp == v1.1;
        let j = choose|j: int|
            0 <= j < t2.len() && #[trigger] t2[j].key == k && t2[j].value == payload_view(v2.0)
                && t2[j].timestamp == v2.1;
        lemma_sorted_eq_index(t1, i, j);
    }
}

} // verus!
