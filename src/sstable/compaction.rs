//! Compaction: merging several tables into one, keeping for each key the
//! record with the greatest timestamp.
use vstd::prelude::*;
use crate::memtable::has_record;
use crate::sstable::{RecordModel, has_key, sorted_keys};

pub mod leveled_compaction;
pub mod size_tiered_compaction;

verus! {

/// `out` is what merging the tables `ins` gives: keys strictly ascending;
/// each record comes from one of the inputs and carries the greatest
/// timestamp any input holds for its key; and every key of every input is
/// present.
pub open spec fn merge_result(out: Seq<RecordModel>, ins: Seq<Seq<RecordModel>>) -> bool {
    &&& sorted_keys(out)
    &&& forall|m: RecordModel|
        has_record(out, m) ==> (exists|t: int| 0 <= t < ins.len() && has_record(ins[t], m))
    &&& forall|m: RecordModel, t: int, x: RecordModel|
        has_record(out, m) && 0 <= t < ins.len() && has_record(ins[t], x) && x.key == m.key
            ==> x.timestamp <= m.timestamp
    &&& forall|t: int, x: RecordModel|
        0 <= t < ins.len() && has_record(ins[t], x) ==> has_key(out, x.key)
}

/// Merging is associative in the way the compactor uses it: merging the
/// result of merging a list of tables with one more table gives the merge of
/// the longer list.
pub proof fn lemma_merge_extend(
    acc: Seq<RecordModel>,
    ins: Seq<Seq<RecordModel>>,
    next: Seq<RecordModel>,
    out: Seq<RecordModel>,
)
    requires
        merge_result(acc, ins),
        merge_result(out, seq![acc, next]),
    ensures
        merge_result(out, ins.push(next)),
{
    let all = ins.push(next);
    let pair = seq![acc, next];
    assert forall|m: RecordModel| has_record(out, m) implies (exists|t: int|
        0 <= t < all.len() && has_record(all[t], m)) by {
        let t = choose|t: int| 0 <= t < pair.len() && has_record(pair[t], m);
        if t == 0 {
            let u = choose|u: int| 0 <= u < ins.len() && has_record(ins[u], m);
            assert(all[u] == ins[u]);
        } else {
            assert(all[ins.len() as int] == next);
        }
    }
    assert forall|m: RecordModel, t: int, x: RecordModel|
        has_record(out, m) && 0 <= t < all.len() && has_record(all[t], x) && x.key == m.key
            implies x.timestamp <= m.timestamp by {
        if t < ins.len() {
            assert(all[t] == ins[t]);
            assert(has_key(acc, x.key));
            let p = choose|p: int| 0 <= p < acc.len() && #[trigger] acc[p].key == x.key;
            assert(has_record(acc, acc[p]));
            assert(has_record(pair[0], acc[p]));
        } else {
            assert(all[t] == next);
            assert(has_record(pair[1], x));
        }
    }
    assert forall|t: int, x: RecordModel| 0 <= t < all.len() && has_record(all[t], x) implies has_key(
        out,
        x.key,
    ) by {
        if t < ins.len() {
            assert(all[t] == ins[t]);
            assert(has_key(acc, x.key));
            let p = choose|p: int| 0 <= p < acc.len() && #[trigger] acc[p].key == x.key;
            assert(has_record(acc, acc[p]));
            assert(has_record(pair[0], acc[p]));
        } else {
            assert(all[t] == next);
            assert(has_record(pair[1], x));
        }
    }
}

/// A single table merges to itself.
pub proof fn lemma_merge_single(s: Seq<RecordModel>)
    requires
        sorted_keys(s),
    ensures
        merge_result(s, seq![s]),
{
    let ins = seq![s];
    assert forall|m: RecordModel| has_record(s, m) implies (exists|t: int|
        0 <= t < ins.len() && has_record(ins[t], m)) by {
        assert(ins[0] == s);
    }
    assert forall|m: RecordModel, t: int, x: RecordModel|
        has_record(s, m) && 0 <= t < ins.len() && has_record(ins[t], x) && x.key == m.key
            implies x.timestamp <= m.timestamp by {
        assert(ins[t] == s);
        crate::memtable::lemma_unique_record(s, m, x);
    }
    assert forall|t: int, x: RecordModel| 0 <= t < ins.len() && has_record(ins[t], x) implies has_key(
        s,
        x.key,
    ) by {
        assert(ins[t] == s);
        let p = choose|p: int| 0 <= p < s.len() && #[trigger] s[p] == x;
        assert(s[p].key == x.key);
    }
}

/// How a compactor is driven: it picks the tables to merge from their data
/// file sizes, then merges the data files of the picked tables into the data
/// and index files of one table.
pub trait Compaction {
    /// The positions, among `sizes`, of the tables to merge now; empty when
    /// this round merges nothing.
    fn select(&self, sizes: &Vec<u64>) -> (r: Vec<usize>)
        ensures
            r@.no_duplicates(),
            forall|i: int| 0 <= i < r@.len() ==> #[trigger] r@[i] < sizes@.len(),
    ;

    /// The data file and the index file of one table holding, for each key,
    /// the newest record among the data files `tables`.
    fn compact(&self, tables: &Vec<Vec<u8>>) -> Result<(Vec<u8>, Vec<u8>), String>;
}

} // verus!
