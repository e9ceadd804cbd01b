//! Size-tiered compaction: tables of similar size are grouped into buckets,
//! and the largest bucket is merged once it holds enough tables.
use vstd::prelude::*;
use core::cmp::Ordering;
use crate::codec::{compare_keys, key_lt, lemma_key_lt_irreflexive, lemma_key_lt_transitive};
use crate::memtable::has_record;
use crate::sstable::{
    RecordModel, SSTableData, has_key, lemma_records_size_bound,
    lemma_records_size_push, lemma_sorted_push, models, records_size, sorted_keys,
};
use crate::sstable::{SSTableWriter, decode_all, encode_records, rejected};
use crate::sstable::index::{encode_index, index_walk};
use crate::sstable::compaction::{Compaction, lemma_merge_extend, lemma_merge_single, merge_result};

verus! {

/// Size-tiered compaction settings. A table joins a bucket when its size lies
/// strictly between `min_threshold_percent` and `max_threshold_percent` of the
/// bucket's mean size.
#[derive(Debug, Clone)]
pub struct SizeTieredCompaction {
    pub index_interval: usize,
    pub min_threshold_percent: u32,
    pub max_threshold_percent: u32,
    pub bucket_threshold: usize,
}

/// The state of a two-way merge after reading `i` records of `a` and `j` of `b`.
pub open spec fn merge_progress(
    out: Seq<RecordModel>,
    a: Seq<RecordModel>,
    b: Seq<RecordModel>,
    i: int,
    j: int,
) -> bool {
    &&& 0 <= i <= a.len()
    &&& 0 <= j <= b.len()
    &&& sorted_keys(out)
    &&& forall|p: int|
        #![trigger out[p]]
        0 <= p < out.len() ==> (exists|q: int| 0 <= q < i && #[trigger] a[q] == out[p]) || (exists|
            q: int,
        | 0 <= q < j && #[trigger] b[q] == out[p])
    &&& forall|p: int, q: int|
        0 <= p < out.len() && 0 <= q < a.len() && #[trigger] a[q].key == #[trigger] out[p].key
            ==> a[q].timestamp <= out[p].timestamp
    &&& forall|p: int, q: int|
        0 <= p < out.len() && 0 <= q < b.len() && #[trigger] b[q].key == #[trigger] out[p].key
            ==> b[q].timestamp <= out[p].timestamp
    &&& forall|q: int| 0 <= q < i ==> has_key(out, #[trigger] a[q].key)
    &&& forall|q: int| 0 <= q < j ==> has_key(out, #[trigger] b[q].key)
    &&& out.len() > 0 && i < a.len() ==> key_lt(out.last().key, a[i].key)
    &&& out.len() > 0 && j < b.len() ==> key_lt(out.last().key, b[j].key)
}

/// A key already written is before every key still to be read.
proof fn lemma_written_before(out: Seq<RecordModel>, k: Seq<char>, next: Seq<char>)
    requires
        sorted_keys(out),
        has_key(out, k),
        out.len() > 0,
        key_lt(out.last().key, next),
    ensures
        key_lt(k, next),
{
    let p = choose|p: int| 0 <= p < out.len() && #[trigger] out[p].key == k;
    if p < out.len() - 1 {
        lemma_key_lt_transitive(k, out.last().key, next);
    }
}

/// Taking `w`, whose key comes before every unread key, keeps the merge
/// consistent.
proof fn lemma_merge_step(
    out: Seq<RecordModel>,
    a: Seq<RecordModel>,
    b: Seq<RecordModel>,
    i: int,
    j: int,
    i2: int,
    j2: int,
    w: RecordModel,
)
    requires
        merge_progress(out, a, b, i, j),
        sorted_keys(a),
        sorted_keys(b),
        i <= i2 <= i + 1,
        j <= j2 <= j + 1,
        i2 <= a.len(),
        j2 <= b.len(),
        i2 == i + 1 || j2 == j + 1,
        i2 == i + 1 ==> a[i].key == w.key,
        j2 == j + 1 ==> b[j].key == w.key,
        (i2 == i + 1 && w == a[i]) || (j2 == j + 1 && w == b[j]),
        i2 == i + 1 && j2 == j + 1 ==> a[i].timestamp <= w.timestamp && b[j].timestamp
            <= w.timestamp,
        i2 == i && i < a.len() ==> key_lt(w.key, a[i].key),
        j2 == j && j < b.len() ==> key_lt(w.key, b[j].key),
    ensures
        merge_progress(out.push(w), a, b, i2, j2),
{
    let o2 = out.push(w);
    if out.len() > 0 {
        if i2 == i + 1 {
            assert(key_lt(out.last().key, w.key));
        } else {
            assert(key_lt(out.last().key, w.key));
        }
    }
    lemma_sorted_push(out, w);
    assert forall|p: int|
        #![trigger o2[p]]
        0 <= p < o2.len() implies (exists|q: int| 0 <= q < i2 && #[trigger] a[q] == o2[p]) || (exists|
            q: int,
        | 0 <= q < j2 && #[trigger] b[q] == o2[p]) by {
        if p < out.len() {
            assert(o2[p] == out[p]);
        } else if i2 == i + 1 && w == a[i] {
            assert(a[i] == o2[p]);
        } else {
            assert(b[j] == o2[p]);
        }
    }
    assert forall|p: int, q: int|
        0 <= p < o2.len() && 0 <= q < a.len() && #[trigger] a[q].key == #[trigger] o2[p].key
            implies a[q].timestamp <= o2[p].timestamp by {
        if p < out.len() {
            assert(o2[p] == out[p]);
        } else {
            if i2 == i + 1 {
                if q != i {
                    lemma_key_lt_irreflexive(a[q].key);
                }
            } else {
                // w's key is not in a: it lies before a[i], and after every key read from a
                if q >= i && i < a.len() {
                    if q > i {
                        lemma_key_lt_transitive(w.key, a[i].key, a[q].key);
                    }
                    lemma_key_lt_irreflexive(w.key);
                } else if q < i {
                    assert(has_key(out, a[q].key));
                    lemma_written_before(out, a[q].key, w.key);
                    lemma_key_lt_irreflexive(w.key);
                }
            }
        }
    }
    assert forall|p: int, q: int|
        0 <= p < o2.len() && 0 <= q < b.len() && #[trigger] b[q].key == #[trigger] o2[p].key
            implies b[q].timestamp <= o2[p].timestamp by {
        if p < out.len() {
            assert(o2[p] == out[p]);
        } else {
            if j2 == j + 1 {
                if q != j {
                    lemma_key_lt_irreflexive(b[q].key);
                }
            } else {
                if q >= j && j < b.len() {
                    if q > j {
                        lemma_key_lt_transitive(w.key, b[j].key, b[q].key);
                    }
                    lemma_key_lt_irreflexive(w.key);
                } else if q < j {
                    assert(has_key(out, b[q].key));
                    lemma_written_before(out, b[q].key, w.key);
                    lemma_key_lt_irreflexive(w.key);
                }
            }
        }
    }
    assert forall|q: int| 0 <= q < i2 implies has_key(o2, #[trigger] a[q].key) by {
        if q < i {
            let p = choose|p: int| 0 <= p < out.len() && #[trigger] out[p].key == a[q].key;
            assert(o2[p] == out[p]);
        } else {
            assert(o2[out.len() as int].key == a[q].key);
        }
    }
    assert forall|q: int| 0 <= q < j2 implies has_key(o2, #[trigger] b[q].key) by {
        if q < j {
            let p = choose|p: int| 0 <= p < out.len() && #[trigger] out[p].key == b[q].key;
            assert(o2[p] == out[p]);
        } else {
            assert(o2[out.len() as int].key == b[q].key);
        }
    }
    if i2 < a.len() {
        if i2 == i + 1 {
            assert(key_lt(a[i].key, a[i2].key));
        }
    }
    if j2 < b.len() {
        if j2 == j + 1 {
            assert(key_lt(b[j].key, b[j2].key));
        }
    }
}

/// A finished two-way merge is the merge of the two tables.
proof fn lemma_merge_done(out: Seq<RecordModel>, a: Seq<RecordModel>, b: Seq<RecordModel>)
    requires
        merge_progress(out, a, b, a.len() as int, b.len() as int),
    ensures
        merge_result(out, seq![a, b]),
{
    let ins = seq![a, b];
    assert forall|m: RecordModel| has_record(out, m) implies (exists|t: int|
        0 <= t < ins.len() && has_record(ins[t], m)) by {
        let p = choose|p: int| 0 <= p < out.len() && #[trigger] out[p] == m;
        if exists|q: int| 0 <= q < a.len() && #[trigger] a[q] == out[p] {
            assert(ins[0] == a);
        } else {
            assert(ins[1] == b);
        }
    }
    assert forall|m: RecordModel, t: int, x: RecordModel|
        has_record(out, m) && 0 <= t < ins.len() && has_record(ins[t], x) && x.key == m.key
            implies x.timestamp <= m.timestamp by {
        let p = choose|p: int| 0 <= p < out.len() && #[trigger] out[p] == m;
        if t == 0 {
            assert(ins[0] == a);
            let q = choose|q: int| 0 <= q < a.len() && #[trigger] a[q] == x;
            assert(a[q].key == out[p].key);
        } else {
            assert(ins[1] == b);
            let q = choose|q: int| 0 <= q < b.len() && #[trigger] b[q] == x;
            assert(b[q].key == out[p].key);
        }
    }
    assert forall|t: int, x: RecordModel| 0 <= t < ins.len() && has_record(ins[t], x) implies has_key(
        out,
        x.key,
    ) by {
        if t == 0 {
            assert(ins[0] == a);
            let q = choose|q: int| 0 <= q < a.len() && #[trigger] a[q] == x;
            assert(has_key(out, a[q].key));
        } else {
            assert(ins[1] == b);
            let q = choose|q: int| 0 <= q < b.len() && #[trigger] b[q] == x;
            assert(has_key(out, b[q].key));
        }
    }
}

pub open spec fn views(ts: Seq<SSTableData>) -> Seq<Seq<RecordModel>> {
    ts.map_values(|t: SSTableData| t@)
}

/// The encoded size of all the tables together.
pub open spec fn total_size(ins: Seq<Seq<RecordModel>>) -> nat
    decreases ins.len(),
{
    if ins.len() == 0 {
        0
    } else {
        total_size(ins.drop_last()) + records_size(ins.last())
    }
}

proof fn lemma_total_size_step(ins: Seq<Seq<RecordModel>>, n: int)
    requires
        0 < n <= ins.len(),
    ensures
        total_size(ins.subrange(0, n)) == total_size(ins.subrange(0, n - 1)) + records_size(ins[n - 1]),
{
    assert(ins.subrange(0, n).drop_last() =~= ins.subrange(0, n - 1));
}

proof fn lemma_total_size_prefix(ins: Seq<Seq<RecordModel>>)
    ensures
        forall|n: int| 0 <= n <= ins.len() ==> total_size(#[trigger] ins.subrange(0, n)) <= total_size(ins),
    decreases ins.len(),
{
    if ins.len() > 0 {
        lemma_total_size_prefix(ins.drop_last());
        assert forall|n: int| 0 <= n <= ins.len() implies total_size(#[trigger] ins.subrange(0, n))
            <= total_size(ins) by {
            if n < ins.len() {
                assert(ins.drop_last().subrange(0, n) =~= ins.subrange(0, n));
            } else {
                assert(ins.subrange(0, n) =~= ins);
            }
        }
    } else {
        assert forall|n: int| 0 <= n <= ins.len() implies total_size(#[trigger] ins.subrange(0, n))
            <= total_size(ins) by {
            assert(ins.subrange(0, n) =~= ins);
        }
    }
}

/// `order` lists every table once, by ascending size and, among tables of
/// equal size, by position.
pub open spec fn size_order(order: Seq<usize>, sizes: Seq<u64>) -> bool {
    &&& order.len() == sizes.len()
    &&& forall|a: int| 0 <= a < order.len() ==> #[trigger] order[a] < sizes.len()
    &&& forall|a: int, b: int|
        0 <= a < b < order.len() ==> size_before(sizes, #[trigger] order[a], #[trigger] order[b])
}

pub open spec fn size_before(sizes: Seq<u64>, p: usize, q: usize) -> bool {
    sizes[p as int] < sizes[q as int] || (sizes[p as int] == sizes[q as int] && p < q)
}

/// The total size of the tables in a bucket.
pub open spec fn bucket_sum(b: Seq<usize>, sizes: Seq<u64>) -> nat
    decreases b.len(),
{
    if b.len() == 0 {
        0
    } else {
        bucket_sum(b.drop_last(), sizes) + sizes[b.last() as int] as nat
    }
}

/// A table of size `s` joins bucket `b` when `s` lies strictly between
/// `min`% and `max`% of the bucket's mean size.
pub open spec fn joins(b: Seq<usize>, sizes: Seq<u64>, s: u64, min: u32, max: u32) -> bool {
    &&& bucket_sum(b, sizes) * (min as nat) < (s as nat) * b.len() * 100
    &&& (s as nat) * b.len() * 100 < bucket_sum(b, sizes) * (max as nat)
}

/// The first bucket from `i` on that a table of size `s` joins, or the
/// number of buckets when none does.
pub open spec fn first_fit(
    bs: Seq<Seq<usize>>,
    sizes: Seq<u64>,
    s: u64,
    min: u32,
    max: u32,
    i: int,
) -> int
    decreases bs.len() - i,
{
    if i < 0 || i >= bs.len() {
        bs.len() as int
    } else if joins(bs[i], sizes, s, min, max) {
        i
    } else {
        first_fit(bs, sizes, s, min, max, i + 1)
    }
}

/// The buckets formed by taking the tables in `order`, each joining the first
/// bucket it fits or opening a new one.
pub open spec fn bucketize(order: Seq<usize>, sizes: Seq<u64>, min: u32, max: u32) -> Seq<
    Seq<usize>,
>
    decreases order.len(),
{
    if order.len() == 0 {
        Seq::empty()
    } else {
        let bs = bucketize(order.drop_last(), sizes, min, max);
        let t = order.last();
        let f = first_fit(bs, sizes, sizes[t as int], min, max, 0);
        if f < bs.len() {
            bs.update(f, bs[f].push(t))
        } else {
            bs.push(seq![t])
        }
    }
}

/// The bucket with the most tables; the later one on a tie.
pub open spec fn largest(bs: Seq<Seq<usize>>) -> Seq<usize>
    decreases bs.len(),
{
    if bs.len() == 0 {
        Seq::empty()
    } else {
        let l = largest(bs.drop_last());
        if bs.last().len() >= l.len() {
            bs.last()
        } else {
            l
        }
    }
}

proof fn lemma_bucket_sum_bound(b: Seq<usize>, sizes: Seq<u64>)
    requires
        forall|a: int| 0 <= a < b.len() ==> #[trigger] b[a] < sizes.len(),
    ensures
        bucket_sum(b, sizes) <= b.len() * (u64::MAX as nat),
    decreases b.len(),
{
    if b.len() > 0 {
        lemma_bucket_sum_bound(b.drop_last(), sizes);
    }
}

proof fn lemma_first_fit_range(bs: Seq<Seq<usize>>, sizes: Seq<u64>, s: u64, min: u32, max: u32, i: int)
    requires
        0 <= i <= bs.len(),
    ensures
        i <= first_fit(bs, sizes, s, min, max, i) <= bs.len(),
    decreases bs.len() - i,
{
    if i < bs.len() {
        lemma_first_fit_range(bs, sizes, s, min, max, i + 1);
    }
}

/// The records of each data file.
pub open spec fn decoded(tables: Seq<Vec<u8>>) -> Seq<Seq<RecordModel>> {
    tables.map_values(|b: Vec<u8>| decode_all(b@)->Some_0)
}

proof fn lemma_decoded_push(tables: Seq<Vec<u8>>, t: int)
    requires
        0 <= t < tables.len(),
    ensures
        decoded(tables.subrange(0, t + 1)) =~= decoded(tables.subrange(0, t)).push(
            decode_all(tables[t]@)->Some_0,
        ),
{
}

proof fn lemma_total_size_monotone(ins: Seq<Seq<RecordModel>>, n: int)
    requires
        0 <= n <= ins.len(),
    ensures
        total_size(ins.subrange(0, n)) <= total_size(ins),
{
    lemma_total_size_prefix(ins);
}

/// Compaction converges: a lone table forms a bucket of one, which a bucket
/// threshold above one never merges, so compacting it again changes nothing.
pub proof fn law_single_table_left_alone(
    sizes: Seq<u64>,
    order: Seq<usize>,
    min: u32,
    max: u32,
    bucket_threshold: usize,
)
    requires
        sizes.len() == 1,
        size_order(order, sizes),
        bucket_threshold > 1,
    ensures
        largest(bucketize(order, sizes, min, max)).len() < bucket_threshold,
{
    let bs0 = bucketize(order.drop_last(), sizes, min, max);
    assert(order.drop_last().len() == 0);
    assert(bs0.len() == 0);
    assert(first_fit(bs0, sizes, sizes[order.last() as int], min, max, 0) == 0);
    let bs = bucketize(order, sizes, min, max);
    assert(bs == bs0.push(seq![order.last()]));
    assert(bs.drop_last() =~= bs0);
    assert(largest(bs0) == Seq::<usize>::empty());
}

/// Every bucket lists tables of `order`, none twice.
proof fn lemma_bucketize_members(order: Seq<usize>, sizes: Seq<u64>, min: u32, max: u32)
    requires
        forall|a: int, b: int| 0 <= a < b < order.len() ==> order[a] != order[b],
    ensures
        forall|b: int| 0 <= b < bucketize(order, sizes, min, max).len() ==> (#[trigger] bucketize(
            order,
            sizes,
            min,
            max,
        )[b]).no_duplicates(),
        forall|b: int, a: int|
            0 <= b < bucketize(order, sizes, min, max).len() && 0 <= a < bucketize(
                order,
                sizes,
                min,
                max,
            )[b].len() ==> order.contains(#[trigger] bucketize(order, sizes, min, max)[b][a]),
    decreases order.len(),
{
    if order.len() > 0 {
        let prev = order.drop_last();
        lemma_bucketize_members(prev, sizes, min, max);
        let bs = bucketize(prev, sizes, min, max);
        let t = order.last();
        let f = first_fit(bs, sizes, sizes[t as int], min, max, 0);
        lemma_first_fit_range(bs, sizes, sizes[t as int], min, max, 0);
        let nb = bucketize(order, sizes, min, max);
        // t is not in any earlier bucket: every member there is an earlier table
        assert forall|b: int, a: int| 0 <= b < bs.len() && 0 <= a < bs[b].len() implies #[trigger] bs[b][a] != t by {
            let m = choose|m: int| 0 <= m < prev.len() && prev[m] == bs[b][a];
            assert(prev[m] == order[m]);
            assert(order[m] != order[order.len() - 1]);
        }
        assert forall|b: int| 0 <= b < nb.len() implies (#[trigger] nb[b]).no_duplicates() by {
            if f < bs.len() && b == f {
                assert forall|x: int, y: int| 0 <= x < y < nb[b].len() implies nb[b][x] != nb[b][y] by {
                    if y < bs[b].len() {
                        assert(bs[b].no_duplicates());
                    } else {
                        assert(nb[b][x] == bs[b][x]);
                    }
                }
            } else if b == bs.len() {
            } else {
                assert(nb[b] == bs[b]);
            }
        }
        assert forall|b: int, a: int| 0 <= b < nb.len() && 0 <= a < nb[b].len() implies order.contains(
            #[trigger] nb[b][a],
        ) by {
            if (f < bs.len() && b == f && a == bs[b].len()) || b == bs.len() {
                assert(order[order.len() - 1] == t);
            } else {
                let x = bs[b][a];
                assert(nb[b][a] == x);
                let m = choose|m: int| 0 <= m < prev.len() && prev[m] == x;
                assert(order[m] == x);
            }
        }
    }
}

/// The largest bucket is one of the buckets, or empty.
proof fn lemma_largest_is_bucket(bs: Seq<Seq<usize>>)
    ensures
        largest(bs).len() == 0 || exists|b: int| 0 <= b < bs.len() && largest(bs) == #[trigger] bs[b],
    decreases bs.len(),
{
    if bs.len() > 0 {
        lemma_largest_is_bucket(bs.drop_last());
        if largest(bs.drop_last()).len() > 0 && bs.last().len() < largest(bs.drop_last()).len() {
            let b = choose|b: int| 0 <= b < bs.drop_last().len() && largest(bs.drop_last()) == bs.drop_last()[b];
            assert(bs[b] == bs.drop_last()[b]);
        }
    }
}

/// The tables a size order picks lie among the given tables, none twice.
proof fn lemma_largest_members(order: Seq<usize>, sizes: Seq<u64>, min: u32, max: u32)
    requires
        size_order(order, sizes),
    ensures
        largest(bucketize(order, sizes, min, max)).no_duplicates(),
        forall|i: int|
            0 <= i < largest(bucketize(order, sizes, min, max)).len() ==> #[trigger] largest(
                bucketize(order, sizes, min, max),
            )[i] < sizes.len(),
{
    assert forall|a: int, b: int| 0 <= a < b < order.len() implies order[a] != order[b] by {
        assert(size_before(sizes, order[a], order[b]));
    }
    lemma_bucketize_members(order, sizes, min, max);
    let bs = bucketize(order, sizes, min, max);
    lemma_largest_is_bucket(bs);
    if largest(bs).len() > 0 {
        let b = choose|b: int| 0 <= b < bs.len() && largest(bs) == #[trigger] bs[b];
        assert(bs[b].no_duplicates());
        assert forall|i: int| 0 <= i < largest(bs).len() implies #[trigger] largest(bs)[i] < sizes.len() by {
            assert(order.contains(bs[b][i]));
            let m = choose|m: int| 0 <= m < order.len() && order[m] == bs[b][i];
        }
    }
}

impl SizeTieredCompaction {
    /// Settings with the defaults where none is given: 50 and 150 percent of
    /// a bucket's mean size, and four tables to a bucket.
    pub fn new(
        index_interval: usize,
        min_threshold_percent: Option<u32>,
        max_threshold_percent: Option<u32>,
        bucket_threshold: Option<usize>,
    ) -> (r: SizeTieredCompaction)
        ensures
            r.index_interval == index_interval,
            r.min_threshold_percent == match min_threshold_percent {
                Some(p) => p,
                None => 50,
            },
            r.max_threshold_percent == match max_threshold_percent {
                Some(p) => p,
                None => 150,
            },
            r.bucket_threshold == match bucket_threshold {
                Some(n) => n,
                None => 4,
            },
    {
        SizeTieredCompaction {
            index_interval,
            min_threshold_percent: match min_threshold_percent {
                Some(p) => p,
                None => 50,
            },
            max_threshold_percent: match max_threshold_percent {
                Some(p) => p,
                None => 150,
            },
            bucket_threshold: match bucket_threshold {
                Some(n) => n,
                None => 4,
            },
        }
    }

    /// Merges two tables; where both hold a key, the record with the greater
    /// timestamp is kept (the right one on a tie).
    pub fn merge_impl(&self, left: &SSTableData, right: &SSTableData) -> (r: SSTableData)
        requires
            left.wf(),
            right.wf(),
            records_size(left@) + records_size(right@) <= usize::MAX,
        ensures
            r.wf(),
            merge_result(r@, seq![left@, right@]),
            records_size(r@) <= records_size(left@) + records_size(right@),
    {
        let a = left.records();
        let b = right.records();
        let ghost sa = left@;
        let ghost sb = right@;
        let mut merged = SSTableData::new(self.chunk_size());
        let mut i: usize = 0;
        let mut j: usize = 0;
        proof {
            lemma_records_size_bound(sa);
            lemma_records_size_bound(sb);
            assert(sa.subrange(0, 0).len() == 0);
            assert(sb.subrange(0, 0).len() == 0);
        }
        while i < a.len() || j < b.len()
            invariant
                models(a@) == sa,
                models(b@) == sb,
                sorted_keys(sa),
                sorted_keys(sb),
                merged.wf(),
                merge_progress(merged@, sa, sb, i as int, j as int),
                records_size(merged@) <= records_size(sa.subrange(0, i as int)) + records_size(
                    sb.subrange(0, j as int),
                ),
                records_size(sa) + records_size(sb) <= usize::MAX,
                forall|k: int|
                    0 <= k <= sa.len() ==> records_size(#[trigger] sa.subrange(0, k))
                        <= records_size(sa),
                forall|k: int|
                    0 <= k <= sb.len() ==> records_size(#[trigger] sb.subrange(0, k))
                        <= records_size(sb),
            decreases sa.len() + sb.len() - i - j,
        {
            let order = if i == a.len() {
                Ordering::Greater
            } else if j == b.len() {
                Ordering::Less
            } else {
                compare_keys(a[i].0.as_str(), b[j].0.as_str())
            };
            proof {
                if i < a.len() {
                    assert(sa[i as int] == a@[i as int]@);
                    assert(sa.subrange(0, i + 1).drop_last() =~= sa.subrange(0, i as int));
                }
                if j < b.len() {
                    assert(sb[j as int] == b@[j as int]@);
                    assert(sb.subrange(0, j + 1).drop_last() =~= sb.subrange(0, j as int));
                }
            }
            let (w, ni, nj) = match order {
                Ordering::Less => (a[i].duplicate(), i + 1, j),
                Ordering::Greater => (b[j].duplicate(), i, j + 1),
                Ordering::Equal => {
                    if a[i].1.1 > b[j].1.1 {
                        (a[i].duplicate(), i + 1, j + 1)
                    } else {
                        (b[j].duplicate(), i + 1, j + 1)
                    }
                },
            };
            proof {
                lemma_merge_step(merged@, sa, sb, i as int, j as int, ni as int, nj as int, w@);
                lemma_records_size_push(merged@, w@);
            }
            let pushed = merged.push(w);
            assert(pushed is Ok);
            i = ni;
            j = nj;
        }
        proof {
            assert(sa.subrange(0, i as int) =~= sa);
            assert(sb.subrange(0, j as int) =~= sb);
            lemma_merge_done(merged@, sa, sb);
        }
        merged
    }

    /// Merges a non-empty list of tables into one, keeping for every key the
    /// record with the greatest timestamp.
    pub fn merge(&self, sstables: Vec<SSTableData>) -> (r: SSTableData)
        requires
            sstables@.len() > 0,
            forall|t: int| 0 <= t < sstables@.len() ==> #[trigger] sstables@[t].wf(),
            total_size(views(sstables@)) <= usize::MAX,
        ensures
            r.wf(),
            merge_result(r@, views(sstables@)),
    {
        let ghost orig = sstables@;
        let ghost all = views(sstables@);
        let mut rest = sstables;
        let first = rest.remove(0);
        proof {
            lemma_total_size_prefix(all);
            assert(orig[0].wf());
            first.lemma_wf();
            lemma_merge_single(first@);
            assert(all.subrange(0, 1) =~= seq![first@]);
            assert(rest@ =~= orig.subrange(1, orig.len() as int));
        }
        let mut acc = first;
        let mut k: usize = 0;
        while k < rest.len()
            invariant
                all == views(orig),
                orig.len() > 0,
                all.len() == orig.len(),
                rest@ == orig.subrange(1, orig.len() as int),
                k <= rest@.len(),
                forall|t: int| 0 <= t < orig.len() ==> #[trigger] orig[t].wf(),
                acc.wf(),
                merge_result(acc@, all.subrange(0, k + 1)),
                records_size(acc@) <= total_size(all.subrange(0, k + 1)),
                total_size(all) <= usize::MAX,
                forall|n: int| 0 <= n <= all.len() ==> total_size(#[trigger] all.subrange(0, n)) <= total_size(all),
            decreases rest@.len() - k,
        {
            proof {
                assert(rest@[k as int] == orig[k + 1]);
                assert(orig[k + 1].wf());
                assert(all.subrange(0, k + 2).drop_last() =~= all.subrange(0, k + 1));
                assert(all[k + 1] == rest@[k as int]@);
                assert(all.subrange(0, k + 1).push(rest@[k as int]@) =~= all.subrange(0, k + 2));
            }
            proof {
                lemma_total_size_step(all, k + 2);
                assert(total_size(all.subrange(0, k + 2)) <= total_size(all));
            }
            let merged = self.merge_impl(&acc, &rest[k]);
            proof {
                lemma_merge_extend(acc@, all.subrange(0, k + 1), rest@[k as int]@, merged@);
            }
            acc = merged;
            k = k + 1;
        }
        proof {
            assert(all.subrange(0, k + 1) =~= all);
        }
        acc
    }

    /// The positions of the tables, by ascending size and then by position.
    fn order_by_size(sizes: &Vec<u64>) -> (order: Vec<usize>)
        ensures
            size_order(order@, sizes@),
    {
        let mut order: Vec<usize> = Vec::new();
        let mut p: usize = 0;
        while p < sizes.len()
            invariant
                p <= sizes@.len(),
                order@.len() == p,
                forall|a: int| 0 <= a < order@.len() ==> #[trigger] order@[a] < p,
                forall|a: int, b: int|
                    0 <= a < b < order@.len() ==> size_before(
                        sizes@,
                        #[trigger] order@[a],
                        #[trigger] order@[b],
                    ),
            decreases sizes@.len() - p,
        {
            let mut a: usize = 0;
            while a < order.len() && sizes[order[a]] <= sizes[p]
                invariant
                    a <= order@.len(),
                    p < sizes@.len(),
                    forall|c: int| 0 <= c < order@.len() ==> #[trigger] order@[c] < p,
                    forall|c: int| 0 <= c < a ==> sizes@[#[trigger] order@[c] as int] <= sizes@[p as int],
                decreases order@.len() - a,
            {
                a = a + 1;
            }
            let ghost before = order@;
            order.insert(a, p);
            proof {
                assert(order@ =~= before.insert(a as int, p));
                assert forall|c: int, d: int|
                    0 <= c < d < order@.len() implies size_before(
                        sizes@,
                        #[trigger] order@[c],
                        #[trigger] order@[d],
                    ) by {
                    if c < a && d == a {
                        assert(before[c] < p);
                    } else if c == a && d > a {
                        assert(order@[d] == before[d - 1]);
                        if d - 1 > a {
                            assert(size_before(sizes@, before[a as int], before[d - 1]));
                        }
                    } else if c < a && d > a {
                        assert(order@[d] == before[d - 1]);
                    } else if c > a {
                        assert(order@[c] == before[c - 1]);
                        assert(order@[d] == before[d - 1]);
                    }
                }
                assert forall|c: int| 0 <= c < order@.len() implies #[trigger] order@[c] < p + 1 by {
                    if c < a {
                    } else if c > a {
                        assert(order@[c] == before[c - 1]);
                    }
                }
            }
            p = p + 1;
        }
        order
    }

    /// Groups the tables, given their data-file sizes, into buckets of
    /// similar size and returns the positions of the tables in the bucket
    /// with the most tables.
    pub fn get_interesting_bucket(&self, sizes: &Vec<u64>) -> (r: Vec<usize>)
        requires
            sizes@.len() <= u32::MAX,
        ensures
            exists|order: Seq<usize>|
                #[trigger] size_order(order, sizes@) && r@ == largest(
                    bucketize(order, sizes@, self.min_threshold_percent, self.max_threshold_percent),
                ),
    {
        let order = Self::order_by_size(sizes);
        let min = self.min_threshold_percent;
        let max = self.max_threshold_percent;
        let ghost sz = sizes@;
        let mut buckets: Vec<Vec<usize>> = Vec::new();
        let mut sums: Vec<u128> = Vec::new();
        let mut k: usize = 0;
        proof {
            assert(order@.subrange(0, 0) =~= Seq::<usize>::empty());
        }
        while k < order.len()
            invariant
                size_order(order@, sz),
                sz == sizes@,
                sz.len() <= u32::MAX,
                k <= order@.len(),
                buckets@.map_values(|b: Vec<usize>| b@) == bucketize(order@.subrange(0, k as int), sz, min, max),
                sums@.len() == buckets@.len(),
                buckets@.len() <= k,
                forall|f: int| 0 <= f < buckets@.len() ==> #[trigger] sums@[f] == bucket_sum(buckets@[f]@, sz),
                forall|f: int| 0 <= f < buckets@.len() ==> #[trigger] buckets@[f]@.len() <= k,
                forall|f: int, a: int| 0 <= f < buckets@.len() && 0 <= a < buckets@[f]@.len() ==> #[trigger] buckets@[f]@[a] < sz.len(),
            decreases order@.len() - k,
        {
            let t = order[k];
            let s = sizes[t];
            let ghost bs = buckets@.map_values(|b: Vec<usize>| b@);
            let mut f: usize = 0;
            while f < buckets.len()
                invariant
                    f <= buckets@.len(),
                    bs == buckets@.map_values(|b: Vec<usize>| b@),
                    sums@.len() == buckets@.len(),
                    first_fit(bs, sz, s, min, max, 0) == first_fit(bs, sz, s, min, max, f as int),
                    forall|g: int| 0 <= g < buckets@.len() ==> #[trigger] sums@[g] == bucket_sum(buckets@[g]@, sz),
                    forall|g: int| 0 <= g < buckets@.len() ==> #[trigger] buckets@[g]@.len() <= k,
                    forall|g: int, a: int| 0 <= g < buckets@.len() && 0 <= a < buckets@[g]@.len() ==> #[trigger] buckets@[g]@[a] < sz.len(),
                    k < sz.len(),
                    sz.len() <= u32::MAX,
                ensures
                    f <= buckets@.len(),
                    f < buckets@.len() ==> joins(bs[f as int], sz, s, min, max),
                    first_fit(bs, sz, s, min, max, 0) == first_fit(bs, sz, s, min, max, f as int),
                decreases buckets@.len() - f,
            {
                let count = buckets[f].len() as u128;
                proof {
                    assert(bs[f as int] == buckets@[f as int]@);
                    lemma_bucket_sum_bound(buckets@[f as int]@, sz);
                    assert(count <= u32::MAX);
                    assert(sums@[f as int] <= (u32::MAX as nat) * (u64::MAX as nat)) by (nonlinear_arith)
                        requires sums@[f as int] <= count * (u64::MAX as nat), count <= u32::MAX;
                    assert(sums@[f as int] * (max as nat) <= (u32::MAX as nat) * (u64::MAX as nat) * (u32::MAX as nat)) by (nonlinear_arith)
                        requires sums@[f as int] <= (u32::MAX as nat) * (u64::MAX as nat), max <= u32::MAX;
                    assert(sums@[f as int] * (min as nat) <= (u32::MAX as nat) * (u64::MAX as nat) * (u32::MAX as nat)) by (nonlinear_arith)
                        requires sums@[f as int] <= (u32::MAX as nat) * (u64::MAX as nat), min <= u32::MAX;
                    assert((s as nat) * (count as nat) <= (u64::MAX as nat) * (u32::MAX as nat)) by (nonlinear_arith)
                        requires s <= u64::MAX, count <= u32::MAX;
                }
                let scaled = (s as u128) * count * 100;
                let low = sums[f] * (min as u128);
                let high = sums[f] * (max as u128);
                assert(scaled as nat == (s as nat) * bs[f as int].len() * 100);
                if low < scaled && scaled < high {
                    assert(joins(bs[f as int], sz, s, min, max));
                    break ;
                }
                assert(!joins(bs[f as int], sz, s, min, max));
                f = f + 1;
            }
            proof {
                lemma_first_fit_range(bs, sz, s, min, max, f as int);
                assert(order@.subrange(0, k + 1).drop_last() =~= order@.subrange(0, k as int));
                assert(order@.subrange(0, k + 1).last() == t);
            }
            if f < buckets.len() {
                let ghost old_b = buckets@[f as int]@;
                let ghost old_sums = sums@;
                proof {
                    lemma_bucket_sum_bound(old_b, sz);
                    assert(old_b.len() <= k);
                    assert(bucket_sum(old_b, sz) <= (u32::MAX as nat) * (u64::MAX as nat)) by (nonlinear_arith)
                        requires bucket_sum(old_b, sz) <= old_b.len() * (u64::MAX as nat), old_b.len() <= u32::MAX;
                }
                buckets[f].push(t);
                let grown = sums[f] + s as u128;
                sums.set(f, grown);
                proof {
                    assert(buckets@[f as int]@ == old_b.push(t));
                    assert(old_b.push(t).drop_last() =~= old_b);
                    assert(bucket_sum(old_b.push(t), sz) == bucket_sum(old_b, sz) + sz[t as int]);
                    assert forall|g: int| 0 <= g < buckets@.len() implies #[trigger] sums@[g] == bucket_sum(buckets@[g]@, sz) by {
                        if g != f {
                            assert(sums@[g] == old_sums[g]);
                        }
                    }
                    assert(buckets@.map_values(|b: Vec<usize>| b@) =~= bs.update(f as int, bs[f as int].push(t)));
                }
            } else {
                let ghost old_sums = sums@;
                let ghost old_buckets = buckets@;
                let mut single: Vec<usize> = Vec::new();
                single.push(t);
                buckets.push(single);
                sums.push(s as u128);
                proof {
                    assert(seq![t].drop_last() =~= Seq::<usize>::empty());
                    assert(buckets@[buckets@.len() - 1]@ =~= seq![t]);
                    assert(bucket_sum(seq![t], sz) == bucket_sum(Seq::<usize>::empty(), sz) + sz[t as int]);
                    assert forall|g: int| 0 <= g < buckets@.len() implies #[trigger] sums@[g] == bucket_sum(buckets@[g]@, sz) by {
                        if g < old_buckets.len() {
                            assert(sums@[g] == old_sums[g]);
                            assert(buckets@[g] == old_buckets[g]);
                        }
                    }
                    assert(buckets@.map_values(|b: Vec<usize>| b@) =~= bs.push(seq![t]));
                }
            }
            k = k + 1;
        }
        // the bucket with the most tables, the later one on a tie
        let ghost bs = buckets@.map_values(|b: Vec<usize>| b@);
        let mut best: usize = 0;
        let mut g: usize = 0;
        proof {
            assert(order@.subrange(0, k as int) =~= order@);
            assert(bs.subrange(0, 0) =~= Seq::<Seq<usize>>::empty());
        }
        while g < buckets.len()
            invariant
                g <= buckets@.len(),
                bs == buckets@.map_values(|b: Vec<usize>| b@),
                best <= g,
                best < buckets@.len() || g == 0,
                g > 0 ==> largest(bs.subrange(0, g as int)) == bs[best as int],
            decreases buckets@.len() - g,
        {
            proof {
                assert(bs.subrange(0, g + 1).drop_last() =~= bs.subrange(0, g as int));
                assert(bs.subrange(0, g + 1).last() == bs[g as int]);
                assert(bs[g as int] == buckets@[g as int]@);
                assert(bs[best as int] == buckets@[best as int]@);
                if g == 0 {
                    assert(largest(bs.subrange(0, 0)) == Seq::<usize>::empty());
                }
            }
            if g == 0 || buckets[g].len() >= buckets[best].len() {
                best = g;
            }
            g = g + 1;
        }
        if buckets.len() == 0 {
            proof {
                assert(bs =~= Seq::<Seq<usize>>::empty());
            }
            return Vec::new();
        }
        proof {
            assert(bs.subrange(0, g as int) =~= bs);
            assert(bs[best as int] == buckets@[best as int]@);
        }
        let result = buckets[best].clone();
        assert(result@ =~= buckets@[best as int]@);
        result
    }

    /// The tables to merge this round: the largest bucket when it holds at
    /// least `bucket_threshold` tables, and none otherwise.
    pub fn select_bucket(&self, sizes: &Vec<u64>) -> (r: Vec<usize>)
        requires
            sizes@.len() <= u32::MAX,
        ensures
            exists|order: Seq<usize>|
                #![trigger size_order(order, sizes@)]
                {
                    let b = largest(
                        bucketize(order, sizes@, self.min_threshold_percent, self.max_threshold_percent),
                    );
                    &&& size_order(order, sizes@)
                    &&& b.len() >= self.bucket_threshold ==> r@ == b
                    &&& b.len() < self.bucket_threshold ==> r@.len() == 0
                },
            r@.no_duplicates(),
            forall|i: int| 0 <= i < r@.len() ==> #[trigger] r@[i] < sizes@.len(),
    {
        let bucket = self.get_interesting_bucket(sizes);
        proof {
            let order = choose|order: Seq<usize>|
                #[trigger] size_order(order, sizes@) && bucket@ == largest(
                    bucketize(order, sizes@, self.min_threshold_percent, self.max_threshold_percent),
                );
            lemma_largest_members(order, sizes@, self.min_threshold_percent, self.max_threshold_percent);
        }
        if bucket.len() < self.bucket_threshold {
            Vec::new()
        } else {
            bucket
        }
    }

    /// Merges the data files `tables` into the data file and the index file
    /// of one table. Fails when there is no table, when one does not decode,
    /// or when the tables together are too large.
    pub fn compact_files(&self, tables: &Vec<Vec<u8>>) -> (r: Result<(Vec<u8>, Vec<u8>), String>)
        ensures
            r is Ok <==> (tables@.len() > 0 && (forall|t: int|
                0 <= t < tables@.len() ==> !rejected(#[trigger] tables@[t]@)) && total_size(
                decoded(tables@),
            ) <= usize::MAX),
            r is Ok ==> exists|merged: Seq<RecordModel>|
                merge_result(merged, decoded(tables@)) && r->Ok_0.0@ == encode_records(merged)
                    && r->Ok_0.1@ == encode_index(
                    index_walk(merged, self.chunk_size_spec() as nat).0,
                ),
    {
        if tables.len() == 0 {
            return Err("no table to compact".to_owned());
        }
        let mut data: Vec<SSTableData> = Vec::new();
        let mut total: usize = 0;
        let mut t: usize = 0;
        while t < tables.len()
            invariant
                t <= tables@.len(),
                data@.len() == t,
                forall|u: int| 0 <= u < t ==> #[trigger] data@[u].wf(),
                views(data@) =~= decoded(tables@.subrange(0, t as int)),
                total == total_size(views(data@)),
                forall|u: int| 0 <= u < t ==> !rejected(#[trigger] tables@[u]@),
            decreases tables@.len() - t,
        {
            let table = match SSTableData::decode(tables[t].as_slice(), self.chunk_size()) {
                Ok(d) => d,
                Err(e) => {
                    return Err(e);
                },
            };
            let n = table.len();
            let ghost before = data@;
            proof {
                lemma_decoded_push(tables@, t as int);
                assert(views(before.push(table)) =~= views(before).push(table@));
                assert(views(before).push(table@).drop_last() =~= views(before));
            }
            if n > usize::MAX - total {
                proof {
                    lemma_total_size_monotone(decoded(tables@), t as int + 1);
                    assert(decoded(tables@).subrange(0, t + 1) =~= decoded(tables@.subrange(0, t + 1)));
                }
                return Err("tables are too large to merge".to_owned());
            }
            data.push(table);
            total = total + n;
            t = t + 1;
        }
        proof {
            assert(tables@.subrange(0, t as int) =~= tables@);
        }
        let merged = self.merge(data);
        Ok(SSTableWriter::write_with_index(&merged, self.chunk_size()))
    }

    pub open spec fn chunk_size_spec(&self) -> usize {
        if self.index_interval > 0 {
            self.index_interval
        } else {
            crate::sstable::DEFAULT_CHUNK_SIZE
        }
    }

    /// The chunk size of merged tables.
    fn chunk_size(&self) -> (r: usize)
        ensures
            r > 0,
            r == self.chunk_size_spec(),
    {
        if self.index_interval > 0 {
            self.index_interval
        } else {
            crate::sstable::DEFAULT_CHUNK_SIZE
        }
    }
}


impl Compaction for SizeTieredCompaction {
    fn select(&self, sizes: &Vec<u64>) -> (r: Vec<usize>) {
        if sizes.len() > u32::MAX as usize {
            return Vec::new();
        }
        self.select_bucket(sizes)
    }

    fn compact(&self, tables: &Vec<Vec<u8>>) -> Result<(Vec<u8>, Vec<u8>), String> {
        self.compact_files(tables)
    }
}

} // verus!
