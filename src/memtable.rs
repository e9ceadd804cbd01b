//! The in-memory table that absorbs writes: one record per key, kept in key
//! order, with tombstones for deleted keys.
use vstd::prelude::*;
use core::cmp::Ordering;
use crate::codec::{
    compare_keys, key_lt, lemma_key_lt_irreflexive, lemma_key_lt_total, lemma_key_lt_transitive,
    lemma_key_not_lt, push_u64_le, utf8,
};
use crate::sstable::{
    RecordModel, SSTableRecord, encode_record, encode_records, has_key, models, sorted_keys,
};

verus! {

/// The latest write to a key: a value, or a tombstone, with its timestamp.
#[derive(Debug, PartialEq, Eq)]
pub enum Value {
    Data(String, u64),
    Tombstone(u64),
}

impl Value {
    pub open spec fn payload(&self) -> Option<Seq<char>> {
        match self {
            Value::Data(v, _) => Some(v@),
            Value::Tombstone(_) => None,
        }
    }

    pub open spec fn timestamp(&self) -> u64 {
        match self {
            Value::Data(_, t) => *t,
            Value::Tombstone(t) => *t,
        }
    }

    pub fn duplicate(&self) -> (r: Value)
        ensures
            r.payload() == self.payload(),
            r.timestamp() == self.timestamp(),
    {
        match self {
            Value::Data(v, t) => Value::Data(v.clone(), *t),
            Value::Tombstone(t) => Value::Tombstone(*t),
        }
    }

    /// A readable form: `value: <v>, timestamp: <t>` or `Tombstone, timestamp: <t>`.
    pub fn to_display_string(&self) -> (r: String)
        ensures
            r@ == match self {
                Value::Data(v, t) => "value: "@ + v@ + ", timestamp: "@ + crate::utils::decimal(
                    *t as nat,
                ),
                Value::Tombstone(t) => "Tombstone, timestamp: "@ + crate::utils::decimal(
                    *t as nat,
                ),
            },
    {
        match self {
            Value::Data(v, t) => {
                let mut s = crate::utils::concat("value: ", v.as_str());
                let tail = crate::utils::u64_to_decimal(*t);
                s = crate::utils::concat(s.as_str(), ", timestamp: ");
                crate::utils::concat(s.as_str(), tail.as_str())
            },
            Value::Tombstone(t) => {
                let tail = crate::utils::u64_to_decimal(*t);
                crate::utils::concat("Tombstone, timestamp: ", tail.as_str())
            },
        }
    }
}

impl Clone for Value {
    fn clone(&self) -> Self {
        self.duplicate()
    }
}

pub open spec fn entry_model(e: (String, Value)) -> RecordModel {
    RecordModel { key: e.0@, value: e.1.payload(), timestamp: e.1.timestamp() }
}

/// What a record costs against the flush threshold: its key, its value and
/// its timestamp.
pub open spec fn entry_cost(r: RecordModel) -> nat {
    utf8(r.key).len() + match r.value {
        Some(v) => utf8(v).len(),
        None => 0,
    } + 8
}

pub open spec fn table_cost(s: Seq<RecordModel>) -> nat
    decreases s.len(),
{
    if s.len() == 0 {
        0
    } else {
        table_cost(s.drop_last()) + entry_cost(s.last())
    }
}

pub open spec fn has_record(s: Seq<RecordModel>, m: RecordModel) -> bool {
    exists|i: int| 0 <= i < s.len() && #[trigger] s[i] == m
}

/// What a lookup of `k` in `s` returns.
pub open spec fn found(s: Seq<RecordModel>, k: Seq<char>, r: Option<Value>) -> bool {
    match r {
        Some(v) => has_record(s, RecordModel { key: k, value: v.payload(), timestamp: v.timestamp() }),
        None => !has_key(s, k),
    }
}

/// In a table with strictly ascending keys a key has at most one record.
pub proof fn lemma_unique_record(s: Seq<RecordModel>, a: RecordModel, b: RecordModel)
    requires
        sorted_keys(s),
        has_record(s, a),
        has_record(s, b),
        a.key == b.key,
    ensures
        a == b,
{
    let i = choose|i: int| 0 <= i < s.len() && #[trigger] s[i] == a;
    let j = choose|j: int| 0 <= j < s.len() && #[trigger] s[j] == b;
    if i != j {
        lemma_key_lt_irreflexive(a.key);
    }
}

pub proof fn lemma_table_cost_update(s: Seq<RecordModel>, i: int, m: RecordModel)
    requires
        0 <= i < s.len(),
    ensures
        table_cost(s.update(i, m)) + entry_cost(s[i]) == table_cost(s) + entry_cost(m),
    decreases s.len(),
{
    if i < s.len() - 1 {
        lemma_table_cost_update(s.drop_last(), i, m);
        assert(s.update(i, m).drop_last() =~= s.drop_last().update(i, m));
    } else {
        assert(s.update(i, m).drop_last() =~= s.drop_last());
    }
}

pub proof fn lemma_table_cost_insert(s: Seq<RecordModel>, i: int, m: RecordModel)
    requires
        0 <= i <= s.len(),
    ensures
        table_cost(s.insert(i, m)) == table_cost(s) + entry_cost(m),
    decreases s.len(),
{
    if i < s.len() {
        lemma_table_cost_insert(s.drop_last(), i, m);
        assert(s.insert(i, m).drop_last() =~= s.drop_last().insert(i, m));
    } else {
        assert(s.insert(i, m).drop_last() =~= s);
    }
}

/// The mutable in-memory table: one record per key, in ascending key order.
#[derive(Debug, PartialEq, Eq)]
pub struct MemTable {
    entries: Vec<(String, Value)>,
    cost: usize,
}

impl View for MemTable {
    type V = Seq<RecordModel>;

    closed spec fn view(&self) -> Seq<RecordModel> {
        self.entries@.map_values(|e: (String, Value)| entry_model(e))
    }
}

impl MemTable {
    pub closed spec fn wf(&self) -> bool {
        &&& sorted_keys(self@)
        &&& self.cost == table_cost(self@)
    }

    /// A well-formed memtable has strictly ascending keys, and its cost is
    /// what `len` reports.
    pub proof fn lemma_wf(&self)
        requires
            self.wf(),
        ensures
            sorted_keys(self@),
    {
    }

    pub fn new() -> (r: MemTable)
        ensures
            r.wf(),
            r@.len() == 0,
    {
        let r = MemTable { entries: Vec::new(), cost: 0 };
        assert(r@ =~= Seq::<RecordModel>::empty());
        r
    }

    /// A copy with the same records.
    pub fn duplicate(&self) -> (r: MemTable)
        requires
            self.wf(),
        ensures
            r.wf(),
            r@ == self@,
    {
        let mut entries: Vec<(String, Value)> = Vec::new();
        let mut i: usize = 0;
        while i < self.entries.len()
            invariant
                i <= self@.len(),
                entries@.map_values(|e: (String, Value)| entry_model(e)) =~= self@.subrange(
                    0,
                    i as int,
                ),
            decreases self@.len() - i,
        {
            let ghost before = entries@;
            assert(self@[i as int] == entry_model(self.entries@[i as int]));
            entries.push((self.entries[i].0.clone(), self.entries[i].1.duplicate()));
            assert(entries@.map_values(|e: (String, Value)| entry_model(e)) =~= before.map_values(
                |e: (String, Value)| entry_model(e),
            ).push(self@[i as int]));
            i = i + 1;
        }
        let r = MemTable { entries, cost: self.cost };
        assert(r@ =~= self@);
        r
    }

    /// The number of leading records whose keys come before `key`.
    fn lower_bound(&self, key: &str) -> (i: usize)
        requires
            self.wf(),
        ensures
            i <= self@.len(),
            forall|j: int| 0 <= j < i ==> key_lt(#[trigger] self@[j].key, key@),
            forall|j: int| i <= j < self@.len() ==> !key_lt(#[trigger] self@[j].key, key@),
    {
        let ghost s = self@;
        let mut lo: usize = 0;
        let mut hi: usize = self.entries.len();
        while lo < hi
            invariant
                s == self@,
                sorted_keys(s),
                lo <= hi <= s.len(),
                forall|j: int| 0 <= j < lo ==> key_lt(#[trigger] s[j].key, key@),
                forall|j: int| hi <= j < s.len() ==> !key_lt(#[trigger] s[j].key, key@),
            decreases hi - lo,
        {
            let mid = lo + (hi - lo) / 2;
            assert(s[mid as int] == entry_model(self.entries@[mid as int]));
            match compare_keys(self.entries[mid].0.as_str(), key) {
                Ordering::Less => {
                    assert forall|j: int| 0 <= j < mid + 1 implies key_lt(
                        #[trigger] s[j].key,
                        key@,
                    ) by {
                        if lo <= j < mid {
                            lemma_key_lt_transitive(s[j].key, s[mid as int].key, key@);
                        }
                    }
                    lo = mid + 1;
                },
                _ => {
                    proof {
                        lemma_key_not_lt(s[mid as int].key, key@);
                    }
                    assert forall|j: int| mid <= j < s.len() implies !key_lt(
                        #[trigger] s[j].key,
                        key@,
                    ) by {
                        if mid < j < hi && key_lt(s[j].key, key@) {
                            lemma_key_lt_transitive(s[mid as int].key, s[j].key, key@);
                        }
                    }
                    hi = mid;
                },
            }
        }
        lo
    }

    /// Sets the record of `key` to `value`, and returns the record it replaces.
    fn upsert(&mut self, key: &str, value: Value) -> (r: Option<Value>)
        requires
            old(self).wf(),
            table_cost(old(self)@) + entry_cost(
                RecordModel { key: key@, value: value.payload(), timestamp: value.timestamp() },
            ) <= usize::MAX,
        ensures
            final(self).wf(),
            forall|m: RecordModel|
                has_record(final(self)@, m) <==> (m == RecordModel {
                    key: key@,
                    value: value.payload(),
                    timestamp: value.timestamp(),
                } || (m.key != key@ && has_record(old(self)@, m))),
            found(old(self)@, key@, r),
    {
        let ghost s = self@;
        let ghost k = key@;
        let ghost new_rec = RecordModel {
            key: key@,
            value: value.payload(),
            timestamp: value.timestamp(),
        };
        let i = self.lower_bound(key);
        let replace = if i < self.entries.len() {
            assert(s[i as int] == entry_model(self.entries@[i as int]));
            match compare_keys(self.entries[i].0.as_str(), key) {
                Ordering::Equal => true,
                _ => false,
            }
        } else {
            false
        };
        assert forall|j: int| i <= j < s.len() && !(replace && j == i) implies key_lt(
            k,
            #[trigger] s[j].key,
        ) by {
            lemma_key_lt_total(s[j].key, k);
            if j > i && replace {
                assert(key_lt(s[i as int].key, s[j].key));
            } else if s[j].key == k && j > i {
                assert(key_lt(s[i as int].key, s[j].key));
                lemma_key_lt_total(s[i as int].key, k);
                lemma_key_lt_irreflexive(k);
            }
        }
        let cost = self.cost;
        let r = if replace {
            let (_, old_value) = self.entries.remove(i);
            proof {
                lemma_table_cost_update(s, i as int, new_rec);
                assert(s[i as int] == RecordModel {
                    key: k,
                    value: old_value.payload(),
                    timestamp: old_value.timestamp(),
                });
            }
            let old_cost = entry_cost_of(key, &old_value);
            let new_cost = entry_cost_of(key, &value);
            self.cost = cost + new_cost - old_cost;
            Some(old_value)
        } else {
            proof {
                lemma_table_cost_insert(s, i as int, new_rec);
                assert forall|j: int| 0 <= j < s.len() implies #[trigger] s[j].key != k by {
                    if j < i {
                        lemma_key_lt_irreflexive(k);
                    } else {
                        lemma_key_lt_irreflexive(k);
                    }
                }
            }
            let new_cost = entry_cost_of(key, &value);
            self.cost = cost + new_cost;
            None
        };
        self.entries.insert(i, (key.to_owned(), value));
        proof {
            let t = self@;
            if replace {
                assert(t =~= s.update(i as int, new_rec));
            } else {
                assert(t =~= s.insert(i as int, new_rec));
            }
            assert forall|a: int, b: int| 0 <= a < b < t.len() implies key_lt(
                #[trigger] t[a].key,
                #[trigger] t[b].key,
            ) by {
                if a == i && b > i && !replace {
                    assert(t[b] == s[b - 1]);
                } else if a < i && b > i && !replace {
                    assert(t[b] == s[b - 1]);
                } else if a > i && !replace {
                    assert(t[a] == s[a - 1]);
                    assert(t[b] == s[b - 1]);
                }
            }
            assert forall|m: RecordModel|
                has_record(t, m) <==> (m == new_rec || (m.key != k && has_record(s, m))) by {
                if has_record(t, m) {
                    let j = choose|j: int| 0 <= j < t.len() && #[trigger] t[j] == m;
                    if j != i {
                        let js = if replace || j < i {
                            j
                        } else {
                            j - 1
                        };
                        assert(s[js] == m);
                        if js < i {
                            assert(key_lt(s[js].key, k));
                            lemma_key_lt_irreflexive(k);
                        } else {
                            assert(key_lt(k, s[js].key));
                            lemma_key_lt_irreflexive(k);
                        }
                    }
                }
                if m == new_rec {
                    assert(t[i as int] == m);
                } else if m.key != k && has_record(s, m) {
                    let js = choose|js: int| 0 <= js < s.len() && #[trigger] s[js] == m;
                    if js < i || replace {
                        assert(t[js] == m);
                    } else {
                        assert(t[js + 1] == m);
                    }
                }
            }
            if replace {
                assert(s[i as int].key == k);
                assert(has_record(s, s[i as int]));
            }
        }
        r
    }

    /// Writes `value` for `key` at `timestamp`; returns the record it replaces.
    pub fn put(&mut self, key: &str, value: &str, timestamp: u64) -> (r: Option<Value>)
        requires
            old(self).wf(),
            table_cost(old(self)@) + utf8(key@).len() + utf8(value@).len() + 8 <= usize::MAX,
        ensures
            final(self).wf(),
            forall|m: RecordModel|
                has_record(final(self)@, m) <==> (m == RecordModel {
                    key: key@,
                    value: Some(value@),
                    timestamp,
                } || (m.key != key@ && has_record(old(self)@, m))),
            found(old(self)@, key@, r),
    {
        self.upsert(key, Value::Data(value.to_owned(), timestamp))
    }

    /// Writes a tombstone for `key` at `timestamp`; returns the record it replaces.
    pub fn delete(&mut self, key: &str, timestamp: u64) -> (r: Option<Value>)
        requires
            old(self).wf(),
            table_cost(old(self)@) + utf8(key@).len() + 8 <= usize::MAX,
        ensures
            final(self).wf(),
            forall|m: RecordModel|
                has_record(final(self)@, m) <==> (m == RecordModel {
                    key: key@,
                    value: None,
                    timestamp,
                } || (m.key != key@ && has_record(old(self)@, m))),
            found(old(self)@, key@, r),
    {
        self.upsert(key, Value::Tombstone(timestamp))
    }

    /// The record of `key`: a value or a tombstone.
    pub fn get(&self, key: &str) -> (r: Option<Value>)
        requires
            self.wf(),
        ensures
            found(self@, key@, r),
    {
        let i = self.lower_bound(key);
        if i < self.entries.len() {
            assert(self@[i as int] == entry_model(self.entries@[i as int]));
            if let Ordering::Equal = compare_keys(self.entries[i].0.as_str(), key) {
                return Some(self.entries[i].1.duplicate());
            }
            proof {
                lemma_key_lt_total(self@[i as int].key, key@);
            }
        }
        assert forall|j: int| 0 <= j < self@.len() implies #[trigger] self@[j].key != key@ by {
            if j < i {
                lemma_key_lt_irreflexive(key@);
            } else if j > i {
                assert(key_lt(self@[i as int].key, self@[j].key));
                lemma_key_lt_total(self@[i as int].key, key@);
                if key_lt(key@, self@[i as int].key) && self@[j].key == key@ {
                    lemma_key_lt_transitive(key@, self@[i as int].key, key@);
                    lemma_key_lt_irreflexive(key@);
                }
            }
        }
        None
    }

    pub fn clear(&mut self)
        ensures
            final(self).wf(),
            final(self)@.len() == 0,
    {
        self.entries.clear();
        self.cost = 0;
        assert(final(self)@ =~= Seq::<RecordModel>::empty());
    }

    /// The cost of all records against the flush threshold: for each record
    /// its key, its value and eight bytes of timestamp.
    pub fn len(&self) -> (r: usize)
        requires
            self.wf(),
        ensures
            r == table_cost(self@),
    {
        self.cost
    }

    /// All records encoded back to back, in key order.
    pub fn encode(&self) -> (r: Vec<u8>)
        ensures
            r@ == encode_records(self@),
    {
        let mut buf: Vec<u8> = Vec::new();
        let mut i: usize = 0;
        while i < self.entries.len()
            invariant
                i <= self@.len(),
                buf@ == encode_records(self@.subrange(0, i as int)),
            decreases self@.len() - i,
        {
            assert(self@.subrange(0, i + 1).drop_last() =~= self@.subrange(0, i as int));
            assert(self@[i as int] == entry_model(self.entries@[i as int]));
            let (value, timestamp) = match &self.entries[i].1 {
                Value::Data(v, t) => (Some(v.as_str()), *t),
                Value::Tombstone(t) => (None, *t),
            };
            let bytes = Self::encode_key_value(self.entries[i].0.as_str(), value, timestamp);
            let mut bytes = bytes;
            buf.append(&mut bytes);
            i = i + 1;
        }
        assert(self@.subrange(0, i as int) =~= self@);
        buf
    }

    /// The encoding of one record.
    pub fn encode_key_value(key: &str, value: Option<&str>, timestamp: u64) -> (r: Vec<u8>)
        ensures
            r@ == encode_record(
                RecordModel {
                    key: key@,
                    value: match value {
                        Some(v) => Some(v@),
                        None => None,
                    },
                    timestamp,
                },
            ),
    {
        let mut buf: Vec<u8> = Vec::new();
        let kb = key.as_bytes();
        push_u64_le(&mut buf, kb.len() as u64);
        buf.extend_from_slice(kb);
        match value {
            Some(v) => {
                let vb = v.as_bytes();
                push_u64_le(&mut buf, vb.len() as u64);
                buf.extend_from_slice(vb);
            },
            None => {
                push_u64_le(&mut buf, 0);
            },
        }
        push_u64_le(&mut buf, timestamp);
        proof {
            let m = RecordModel {
                key: key@,
                value: match value {
                    Some(v) => Some(v@),
                    None => None,
                },
                timestamp,
            };
            assert(buf@ =~= encode_record(m));
        }
        buf
    }

    /// The records in ascending key order.
    pub fn iter(&self) -> (r: MemtableIterator)
        requires
            self.wf(),
        ensures
            r@ == self@,
    {
        let copy = self.duplicate();
        let r = MemtableIterator { entries: copy.entries, pos: 0 };
        assert(r@ =~= self@);
        r
    }

    /// The records as table records, in ascending key order.
    pub fn records(&self) -> (r: Vec<SSTableRecord>)
        ensures
            models(r@) == self@,
    {
        let mut out: Vec<SSTableRecord> = Vec::new();
        let mut i: usize = 0;
        while i < self.entries.len()
            invariant
                i <= self@.len(),
                models(out@) =~= self@.subrange(0, i as int),
            decreases self@.len() - i,
        {
            let ghost before = out@;
            assert(self@[i as int] == entry_model(self.entries@[i as int]));
            let value = match &self.entries[i].1 {
                Value::Data(v, t) => (Some(v.clone()), *t),
                Value::Tombstone(t) => (None, *t),
            };
            out.push(SSTableRecord(self.entries[i].0.clone(), value));
            assert(models(out@) =~= models(before).push(self@[i as int]));
            i = i + 1;
        }
        out
    }

    pub fn is_empty(&self) -> (r: bool)
        ensures
            r == (self@.len() == 0),
    {
        self.entries.len() == 0
    }
}

/// The cost of one record against the flush threshold.
fn entry_cost_of(key: &str, value: &Value) -> (r: usize)
    requires
        entry_cost(RecordModel { key: key@, value: value.payload(), timestamp: value.timestamp() })
            <= usize::MAX,
    ensures
        r == entry_cost(
            RecordModel { key: key@, value: value.payload(), timestamp: value.timestamp() },
        ),
{
    let vl: usize = match value {
        Value::Data(v, _) => v.as_str().as_bytes().len(),
        Value::Tombstone(_) => 0,
    };
    key.as_bytes().len() + vl + 8
}

/// Hands out the records of a memtable one by one, in key order.
pub struct MemtableIterator {
    entries: Vec<(String, Value)>,
    pos: usize,
}

impl View for MemtableIterator {
    type V = Seq<RecordModel>;

    /// The records not handed out yet.
    closed spec fn view(&self) -> Seq<RecordModel> {
        if self.pos <= self.entries@.len() {
            self.entries@.map_values(|e: (String, Value)| entry_model(e)).skip(self.pos as int)
        } else {
            Seq::empty()
        }
    }
}

impl MemtableIterator {
    pub fn next(&mut self) -> (r: Option<(String, Value)>)
        ensures
            old(self)@.len() > 0 ==> r is Some && entry_model(r->Some_0) == old(self)@[0]
                && final(self)@ == old(self)@.drop_first(),
            old(self)@.len() == 0 ==> r is None && final(self)@ == old(self)@,
    {
        if self.pos < self.entries.len() {
            let e = (self.entries[self.pos].0.clone(), self.entries[self.pos].1.duplicate());
            self.pos = self.pos + 1;
            assert(final(self)@ =~= old(self)@.drop_first());
            Some(e)
        } else {
            None
        }
    }
}

} // verus!
