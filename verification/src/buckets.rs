//! Bucket assignment and ordering: every key goes to the bucket its primary
//! lane selects, and buckets are processed largest first.
use vstd::prelude::*;
use crate::lanes::lane_into_usize;
use crate::lanes::Hashes;
use crate::placement::bucket_keys;
use crate::placement::bucket_size;
use crate::placement::in_bucket;
use crate::placement::is_processing_order;
use crate::placement::precedes;
use crate::placement::processing_order;
use crate::placement::spec_num_buckets;
use crate::placement::LAMBDA;

verus! {

/// A bucket under construction: its index and the keys assigned to it, each
/// key named by its position in the input.
pub struct Bucket {
    pub index: usize,
    pub keys: Vec<usize>,
}

impl Bucket {
    /// The keys of this bucket as mathematical integers.
    pub open spec fn keys_view(&self) -> Seq<int> {
        Seq::new(self.keys@.len(), |t: int| self.keys@[t] as int)
    }

    /// Whether this bucket holds exactly the keys that `hashes` assigns to
    /// its index, in increasing order.
    pub open spec fn holds(&self, hashes: Seq<Hashes>) -> bool {
        self.keys_view() == bucket_keys(hashes, self.index as int, hashes.len() as int)
    }

    /// An empty bucket with the given index.
    pub fn new(index: usize) -> (bucket: Self)
        ensures
            bucket.index == index,
            bucket.keys@ == Seq::<usize>::empty(),
    {
        Self { index, keys: Vec::new() }
    }

    /// Whether `self` is processed before `other`: the larger bucket first,
    /// the smaller index first among equals.
    pub fn goes_before(&self, other: &Bucket) -> (before: bool)
        ensures
            before == (self.keys@.len() > other.keys@.len() || (self.keys@.len()
                == other.keys@.len() && self.index < other.index)),
    {
        self.keys.len() > other.keys.len() || (self.keys.len() == other.keys.len() && self.index
            < other.index)
    }
}

/// The indices of a sequence of buckets, in sequence order.
pub open spec fn bucket_indices(buckets: Seq<Bucket>) -> Seq<int> {
    Seq::new(buckets.len(), |t: int| buckets[t].index as int)
}

/// Whether some bucket of the sequence has index `b`.
pub open spec fn lists(buckets: Seq<Bucket>, b: int) -> bool {
    exists|t: int| 0 <= t < buckets.len() && (#[trigger] buckets[t]).index == b
}

/// The keys listed for a bucket are exactly its members below `m`, and they
/// are listed in strictly increasing order.
pub proof fn lemma_bucket_keys(hashes: Seq<Hashes>, b: int, m: int)
    requires
        m <= hashes.len(),
    ensures
        forall|i: int|
            bucket_keys(hashes, b, m).contains(i) <==> (i < m && in_bucket(hashes, i, b)),
        forall|s: int, t: int|
            0 <= s < t < bucket_keys(hashes, b, m).len() ==> bucket_keys(hashes, b, m)[s]
                < bucket_keys(hashes, b, m)[t],
        forall|t: int|
            0 <= t < bucket_keys(hashes, b, m).len() ==> 0 <= #[trigger] bucket_keys(
                hashes,
                b,
                m,
            )[t] < m,
    decreases m,
{
    if m > 0 {
        lemma_bucket_keys(hashes, b, m - 1);
        let prev = bucket_keys(hashes, b, m - 1);
        let cur = bucket_keys(hashes, b, m);
        if in_bucket(hashes, m - 1, b) {
            assert(cur == prev.push(m - 1));
            assert(cur[prev.len() as int] == m - 1);
            assert forall|i: int| cur.contains(i) <==> (i < m && in_bucket(hashes, i, b)) by {
                if cur.contains(i) {
                    let t = choose|t: int| 0 <= t < cur.len() && cur[t] == i;
                    if t < prev.len() {
                        assert(prev[t] == i);
                        assert(prev.contains(i));
                    }
                }
                if i < m && in_bucket(hashes, i, b) {
                    if i == m - 1 {
                        assert(cur[prev.len() as int] == i);
                    } else {
                        assert(prev.contains(i));
                        let t = choose|t: int| 0 <= t < prev.len() && prev[t] == i;
                        assert(cur[t] == i);
                    }
                }
            }
        } else {
            assert(cur == prev);
        }
    } else {
        assert(bucket_keys(hashes, b, m) =~= Seq::<int>::empty());
    }
}

/// The keys of a bucket that holds its keys belong to it and are listed in
/// strictly increasing order.
pub proof fn lemma_holds(hashes: Seq<Hashes>, bucket: Bucket)
    requires
        bucket.holds(hashes),
    ensures
        forall|u: int|
            0 <= u < bucket.keys@.len() ==> in_bucket(
                hashes,
                (#[trigger] bucket.keys@[u]) as int,
                bucket.index as int,
            ),
        forall|u: int, v: int|
            0 <= u < v < bucket.keys@.len() ==> #[trigger] bucket.keys@[u]
                < #[trigger] bucket.keys@[v],
{
    let b = bucket.index as int;
    let listed = bucket_keys(hashes, b, hashes.len() as int);
    lemma_bucket_keys(hashes, b, hashes.len() as int);
    assert(bucket.keys_view().len() == bucket.keys@.len());
    assert forall|u: int| 0 <= u < bucket.keys@.len() implies in_bucket(
        hashes,
        (#[trigger] bucket.keys@[u]) as int,
        b,
    ) by {
        assert(bucket.keys_view()[u] == bucket.keys@[u] as int);
        assert(listed.contains(bucket.keys@[u] as int));
    }
    assert forall|u: int, v: int| 0 <= u < v < bucket.keys@.len() implies #[trigger] bucket.keys@[u]
        < #[trigger] bucket.keys@[v] by {
        assert(bucket.keys_view()[u] == bucket.keys@[u] as int);
        assert(bucket.keys_view()[v] == bucket.keys@[v] as int);
    }
}

/// The position, in a bucket that holds its keys, of a key that belongs to it.
pub proof fn key_position(hashes: Seq<Hashes>, bucket: &Bucket, i: int) -> (u: int)
    requires
        bucket.holds(hashes),
        in_bucket(hashes, i, bucket.index as int),
    ensures
        0 <= u < bucket.keys@.len(),
        bucket.keys@[u] == i,
{
    lemma_bucket_keys(hashes, bucket.index as int, hashes.len() as int);
    assert(bucket.keys_view().contains(i));
    let u = choose|u: int| 0 <= u < bucket.keys_view().len() && bucket.keys_view()[u] == i;
    u
}

/// Only one sequence is a processing order: two of them agree on their
/// first `k` positions, for every `k`.
pub proof fn lemma_processing_order_prefix(
    hashes: Seq<Hashes>,
    first: Seq<int>,
    second: Seq<int>,
    k: int,
)
    requires
        is_processing_order(hashes, first),
        is_processing_order(hashes, second),
        0 <= k <= first.len(),
    ensures
        forall|j: int| 0 <= j < k ==> first[j] == second[j],
    decreases k,
{
    if k > 0 {
        lemma_processing_order_prefix(hashes, first, second, k - 1);
        let m = k - 1;
        let a = first[m];
        let b = second[m];
        assert(second.contains(a));
        let t = choose|t: int| 0 <= t < second.len() && second[t] == a;
        assert(first.contains(b));
        let u = choose|u: int| 0 <= u < first.len() && first[u] == b;
        if t < m {
            assert(first[t] == second[t]);
            assert(precedes(hashes, first[t], first[m]));
        }
        if u < m {
            assert(first[u] == second[u]);
            assert(precedes(hashes, second[u], second[m]));
        }
        if t > m {
            assert(precedes(hashes, second[m], second[t]));
        }
        if u > m {
            assert(precedes(hashes, first[m], first[u]));
        }
        assert(a == b);
    }
}

/// The processing order is unique: any sequence that lists every bucket
/// once, larger buckets first and smaller indices first among equals, is the
/// processing order.
pub proof fn lemma_processing_order_unique(hashes: Seq<Hashes>, order: Seq<int>)
    requires
        is_processing_order(hashes, order),
    ensures
        processing_order(hashes) == order,
{
    let chosen = processing_order(hashes);
    assert(is_processing_order(hashes, chosen));
    lemma_processing_order_prefix(hashes, chosen, order, order.len() as int);
    assert(chosen =~= order);
}

/// Number of buckets for `n` keys: `n / LAMBDA`, rounded up.
pub fn num_buckets(n: usize) -> (count: usize)
    ensures
        count == spec_num_buckets(n as int),
        n > 0 ==> 0 < count <= n,
        n == 0 ==> count == 0,
{
    if n % LAMBDA == 0 {
        n / LAMBDA
    } else {
        n / LAMBDA + 1
    }
}

/// Assigns every key to the bucket that its primary lane selects.
///
/// The result has one bucket per index, in index order, each holding its
/// keys in increasing order.
pub fn assign_buckets(hashes: &Vec<Hashes>) -> (buckets: Vec<Bucket>)
    ensures
        buckets@.len() == spec_num_buckets(hashes@.len() as int),
        forall|b: int| 0 <= b < buckets@.len() ==> (#[trigger] buckets@[b]).index == b,
        forall|b: int| 0 <= b < buckets@.len() ==> (#[trigger] buckets@[b]).holds(hashes@),
{
    let table_len: usize = hashes.len();
    let count: usize = num_buckets(table_len);
    let mut buckets: Vec<Bucket> = Vec::new();
    let mut b: usize = 0;
    while b < count
        invariant
            b <= count,
            buckets@.len() == b,
            forall|c: int| 0 <= c < b ==> (#[trigger] buckets@[c]).index == c,
            forall|c: int| 0 <= c < b ==> (#[trigger] buckets@[c]).keys@.len() == 0,
        decreases count - b,
    {
        buckets.push(Bucket::new(b));
        b += 1;
    }
    let mut i: usize = 0;
    while i < table_len
        invariant
            i <= table_len,
            table_len == hashes@.len(),
            count == spec_num_buckets(table_len as int),
            table_len > 0 ==> count > 0,
            buckets@.len() == count,
            forall|c: int| 0 <= c < count ==> (#[trigger] buckets@[c]).index == c,
            forall|c: int|
                0 <= c < count ==> (#[trigger] buckets@[c]).keys_view() == bucket_keys(
                    hashes@,
                    c,
                    i as int,
                ),
        decreases table_len - i,
    {
        let target: usize = lane_into_usize(hashes[i].0) % count;
        let ghost before = buckets@;
        buckets[target].keys.push(i);
        proof {
            assert(in_bucket(hashes@, i as int, target as int));
            assert forall|c: int| 0 <= c < count implies (#[trigger] buckets@[c]).keys_view()
                == bucket_keys(hashes@, c, i + 1) by {
                if c == target {
                    assert(buckets@[c].keys_view() =~= before[c].keys_view().push(i as int));
                } else {
                    assert(buckets@[c] == before[c]);
                    assert(!in_bucket(hashes@, i as int, c));
                }
            }
        }
        i += 1;
    }
    buckets
}

/// Puts buckets in processing order: larger buckets first, and buckets of
/// one size in index order.
pub fn sort_buckets(buckets: Vec<Bucket>, hashes: &Vec<Hashes>) -> (sorted: Vec<Bucket>)
    requires
        buckets@.len() == spec_num_buckets(hashes@.len() as int),
        forall|b: int| 0 <= b < buckets@.len() ==> (#[trigger] buckets@[b]).index == b,
        forall|b: int| 0 <= b < buckets@.len() ==> (#[trigger] buckets@[b]).holds(hashes@),
    ensures
        bucket_indices(sorted@) == processing_order(hashes@),
        is_processing_order(hashes@, bucket_indices(sorted@)),
        forall|t: int| 0 <= t < sorted@.len() ==> (#[trigger] sorted@[t]).holds(hashes@),
{
    let ghost given = buckets@;
    let ghost hashes = hashes@;
    let mut buckets = buckets;
    let mut sorted: Vec<Bucket> = Vec::new();
    while buckets.len() > 0
        invariant
            given.len() == spec_num_buckets(hashes.len() as int),
            forall|b: int| 0 <= b < given.len() ==> (#[trigger] given[b]).index == b,
            forall|b: int| 0 <= b < given.len() ==> (#[trigger] given[b]).holds(hashes),
            buckets@.len() <= given.len(),
            buckets@ == given.take(buckets@.len() as int),
            sorted@.len() + buckets@.len() == given.len(),
            forall|t: int|
                0 <= t < sorted@.len() ==> buckets@.len() <= (#[trigger] sorted@[t]).index
                    < given.len(),
            forall|t: int| 0 <= t < sorted@.len() ==> (#[trigger] sorted@[t]).holds(hashes),
            forall|s: int, t: int|
                0 <= s < t < sorted@.len() ==> precedes(
                    hashes,
                    (#[trigger] sorted@[s]).index as int,
                    (#[trigger] sorted@[t]).index as int,
                ),
            forall|b: int| buckets@.len() <= b < given.len() ==> #[trigger] lists(sorted@, b),
        decreases buckets@.len(),
    {
        let ghost before_pop = buckets@;
        let bucket: Bucket = buckets.pop().unwrap();
        assert(bucket == given[buckets@.len() as int]);
        assert(buckets@ =~= given.take(buckets@.len() as int));
        let mut j: usize = 0;
        while j < sorted.len() && sorted[j].goes_before(&bucket)
            invariant
                j <= sorted@.len(),
                bucket.holds(hashes),
                forall|t: int| 0 <= t < sorted@.len() ==> (#[trigger] sorted@[t]).holds(hashes),
                forall|t: int|
                    0 <= t < j ==> precedes(
                        hashes,
                        (#[trigger] sorted@[t]).index as int,
                        bucket.index as int,
                    ),
            decreases sorted@.len() - j,
        {
            proof {
                lemma_sizes(hashes, sorted@[j as int], bucket);
            }
            j += 1;
        }
        let ghost before = sorted@;
        proof {
            assert forall|t: int| j <= t < before.len() implies precedes(
                hashes,
                bucket.index as int,
                (#[trigger] before[t]).index as int,
            ) by {
                lemma_sizes(hashes, before[j as int], bucket);
                lemma_sizes(hashes, before[t], bucket);
                if t > j {
                    assert(precedes(hashes, before[j as int].index as int, before[t].index as int));
                }
            }
        }
        sorted.insert(j, bucket);
        proof {
            assert forall|b: int| buckets@.len() <= b < given.len() implies #[trigger] lists(
                sorted@,
                b,
            ) by {
                if b == buckets@.len() {
                    assert(sorted@[j as int].index == b);
                } else {
                    assert(lists(before, b));
                    let t = choose|t: int| 0 <= t < before.len() && (#[trigger] before[t]).index == b;
                    if t < j {
                        assert(sorted@[t].index == b);
                    } else {
                        assert(sorted@[t + 1].index == b);
                    }
                }
            }
            assert forall|s: int, t: int| 0 <= s < t < sorted@.len() implies precedes(
                hashes,
                (#[trigger] sorted@[s]).index as int,
                (#[trigger] sorted@[t]).index as int,
            ) by {
                let s0 = if s < j { s } else { s - 1 };
                let t0 = if t < j { t } else { t - 1 };
                if s != j && t != j {
                    assert(sorted@[s] == before[s0]);
                    assert(sorted@[t] == before[t0]);
                    assert(precedes(hashes, before[s0].index as int, before[t0].index as int));
                } else if s == j {
                    assert(sorted@[t] == before[t0]);
                } else {
                    assert(sorted@[s] == before[s0]);
                }
            }
        }
    }
    proof {
        let order = bucket_indices(sorted@);
        assert forall|b: int| 0 <= b < order.len() implies #[trigger] order.contains(b) by {
            assert(lists(sorted@, b));
            let t = choose|t: int| 0 <= t < sorted@.len() && (#[trigger] sorted@[t]).index == b;
            assert(order[t] == b);
        }
        assert forall|j: int, k: int| 0 <= j < k < order.len() implies precedes(
            hashes,
            #[trigger] order[j],
            #[trigger] order[k],
        ) by {
            assert(precedes(hashes, sorted@[j].index as int, sorted@[k].index as int));
        }
        assert(is_processing_order(hashes, order));
        lemma_processing_order_unique(hashes, order);
    }
    sorted
}

/// For two buckets that hold their keys, comparing lengths and indices is
/// comparing by `precedes`.
proof fn lemma_sizes(hashes: Seq<Hashes>, a: Bucket, b: Bucket)
    requires
        a.holds(hashes),
        b.holds(hashes),
    ensures
        bucket_size(hashes, a.index as int) == a.keys@.len(),
        bucket_size(hashes, b.index as int) == b.keys@.len(),
        precedes(hashes, a.index as int, b.index as int) == (a.keys@.len() > b.keys@.len() || (
        a.keys@.len() == b.keys@.len() && a.index < b.index)),
{
    assert(a.keys_view().len() == a.keys@.len());
    assert(b.keys_view().len() == b.keys@.len());
}

} // verus!
