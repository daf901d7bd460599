//! What a placement is: the mathematical description of bucket assignment,
//! of the order in which buckets are processed, and of the first-fit search
//! for displacement pairs.
use vstd::prelude::*;
use crate::lanes::spec_bucket;
use crate::lanes::spec_lane_of;
use crate::lanes::spec_slot;
use crate::lanes::Displacement;
use crate::lanes::Hashes;

verus! {

/// Target average number of keys per bucket.
pub const LAMBDA: usize = 5;

/// Number of buckets for `n` keys: `n / LAMBDA`, rounded up.
pub open spec fn spec_num_buckets(n: int) -> int {
    (n + 4) / 5
}

/// Whether key `i` belongs to bucket `b`.
pub open spec fn in_bucket(hashes: Seq<Hashes>, i: int, b: int) -> bool {
    0 <= i < hashes.len() && spec_bucket(hashes[i], spec_num_buckets(hashes.len() as int)) == b
}

/// The keys below `m` that belong to bucket `b`, in increasing order.
pub open spec fn bucket_keys(hashes: Seq<Hashes>, b: int, m: int) -> Seq<int>
    decreases m,
{
    if m <= 0 {
        Seq::empty()
    } else if in_bucket(hashes, m - 1, b) {
        bucket_keys(hashes, b, m - 1).push(m - 1)
    } else {
        bucket_keys(hashes, b, m - 1)
    }
}

/// Number of keys in bucket `b`.
pub open spec fn bucket_size(hashes: Seq<Hashes>, b: int) -> int {
    bucket_keys(hashes, b, hashes.len() as int).len() as int
}

/// Whether bucket `a` is processed before bucket `b`: larger buckets first,
/// and among buckets of one size the one with the smaller index.
pub open spec fn precedes(hashes: Seq<Hashes>, a: int, b: int) -> bool {
    bucket_size(hashes, a) > bucket_size(hashes, b) || (bucket_size(hashes, a) == bucket_size(
        hashes,
        b,
    ) && a < b)
}

/// Whether `order` lists every bucket once, each before all those it
/// precedes.
pub open spec fn is_processing_order(hashes: Seq<Hashes>, order: Seq<int>) -> bool {
    &&& order.len() == spec_num_buckets(hashes.len() as int)
    &&& forall|k: int| 0 <= k < order.len() ==> 0 <= #[trigger] order[k] < order.len()
    &&& forall|j: int, k: int|
        0 <= j < k < order.len() ==> precedes(hashes, #[trigger] order[j], #[trigger] order[k])
    &&& forall|b: int| 0 <= b < order.len() ==> #[trigger] order.contains(b)
}

/// The order in which buckets are processed.
pub open spec fn processing_order(hashes: Seq<Hashes>) -> Seq<int> {
    choose|order: Seq<int>| is_processing_order(hashes, order)
}

/// Whether the displacement pair `d` places every key of bucket `b` in a slot
/// outside `occupied`, no two of them in the same slot.
pub open spec fn fits(hashes: Seq<Hashes>, b: int, d: Displacement, occupied: Set<int>) -> bool {
    &&& forall|i: int|
        in_bucket(hashes, i, b) ==> !occupied.contains(
            #[trigger] spec_slot(hashes[i], d, hashes.len() as int),
        )
    &&& forall|i: int, j: int|
        in_bucket(hashes, i, b) && in_bucket(hashes, j, b) && i != j ==> #[trigger] spec_slot(
            hashes[i],
            d,
            hashes.len() as int,
        ) != #[trigger] spec_slot(hashes[j], d, hashes.len() as int)
}

/// The displacement pair that the candidate `(d1, d2)` stands for.
pub open spec fn candidate(d1: int, d2: int) -> Displacement {
    (spec_lane_of(d1), spec_lane_of(d2))
}

/// Whether candidate `(e1, e2)` is tried before candidate `(d1, d2)`.
pub open spec fn tried_before(e1: int, e2: int, d1: int, d2: int) -> bool {
    e1 < d1 || (e1 == d1 && e2 < d2)
}

/// Whether `(d1, d2)` is the first candidate, in the order in which they are
/// tried, that fits bucket `b`.
pub open spec fn is_first_fit(
    hashes: Seq<Hashes>,
    b: int,
    occupied: Set<int>,
    d1: int,
    d2: int,
) -> bool {
    &&& 0 <= d1 < hashes.len()
    &&& 0 <= d2 < hashes.len()
    &&& fits(hashes, b, candidate(d1, d2), occupied)
    &&& forall|e1: int, e2: int|
        0 <= e1 < hashes.len() && 0 <= e2 < hashes.len() && tried_before(e1, e2, d1, d2)
            ==> !#[trigger] fits(hashes, b, candidate(e1, e2), occupied)
}

/// Whether any candidate fits bucket `b`.
pub open spec fn has_fit(hashes: Seq<Hashes>, b: int, occupied: Set<int>) -> bool {
    exists|d1: int, d2: int|
        0 <= d1 < hashes.len() && 0 <= d2 < hashes.len() && #[trigger] fits(
            hashes,
            b,
            candidate(d1, d2),
            occupied,
        )
}

/// The first candidate that fits bucket `b`, if there is one.
pub open spec fn first_fit(hashes: Seq<Hashes>, b: int, occupied: Set<int>) -> Option<(int, int)> {
    if has_fit(hashes, b, occupied) {
        Some(choose|d: (int, int)| is_first_fit(hashes, b, occupied, d.0, d.1))
    } else {
        None
    }
}

/// The slots taken once the buckets `order[0]`, .., `order[chosen.len() - 1]`
/// have been placed with the displacement pairs `chosen`.
pub open spec fn occupied_slots(hashes: Seq<Hashes>, order: Seq<int>, chosen: Seq<Displacement>) -> Set<
    int,
> {
    Set::new(
        |s: int|
            exists|p: int, i: int|
                0 <= p < chosen.len() && p < order.len() && in_bucket(hashes, i, order[p])
                    && #[trigger] spec_slot(hashes[i], chosen[p], hashes.len() as int) == s,
    )
}

/// The displacement pairs chosen for the first `k` buckets of `order`, each
/// the first fit against the slots taken by the buckets before it; `None` if
/// one of those buckets has no fit.
pub open spec fn first_fits(hashes: Seq<Hashes>, order: Seq<int>, k: int) -> Option<
    Seq<Displacement>,
>
    decreases k,
{
    if k <= 0 {
        Some(Seq::empty())
    } else {
        match first_fits(hashes, order, k - 1) {
            None => None,
            Some(chosen) => match first_fit(
                hashes,
                order[k - 1],
                occupied_slots(hashes, order, chosen),
            ) {
                None => None,
                Some(d) => Some(chosen.push(candidate(d.0, d.1))),
            },
        }
    }
}

/// The displacement table: for each bucket, by its index, the pair chosen
/// for it.
pub open spec fn displacement_table(order: Seq<int>, chosen: Seq<Displacement>) -> Seq<
    Displacement,
> {
    Seq::new(order.len(), |b: int| chosen[order.index_of(b)])
}

/// The slot of key `i` under a displacement table.
pub open spec fn key_slot(hashes: Seq<Hashes>, table: Seq<Displacement>, i: int) -> int {
    spec_slot(hashes[i], table[spec_bucket(hashes[i], table.len() as int)], hashes.len() as int)
}

/// The slot permutation: for each slot, the key that the table sends there.
pub open spec fn slot_permutation(hashes: Seq<Hashes>, table: Seq<Displacement>) -> Seq<int> {
    Seq::new(
        hashes.len(),
        |s: int| choose|i: int| 0 <= i < hashes.len() && key_slot(hashes, table, i) == s,
    )
}

/// Whether `table` and `permutation` resolve every key to itself: the table
/// has one pair per bucket, the permutation one entry per slot, and the slot
/// of key `i` holds `i`.
pub open spec fn is_perfect(hashes: Seq<Hashes>, table: Seq<Displacement>, permutation: Seq<int>) -> bool {
    &&& table.len() == spec_num_buckets(hashes.len() as int)
    &&& permutation.len() == hashes.len()
    &&& forall|s: int| 0 <= s < permutation.len() ==> 0 <= #[trigger] permutation[s] < hashes.len()
    &&& forall|i: int|
        0 <= i < hashes.len() ==> permutation[#[trigger] key_slot(hashes, table, i)] == i
}

/// The outcome of the search for a given sequence of hash triples: the
/// displacement table and slot permutation, or `None` if some bucket, taken
/// in processing order, has no fit.
pub open spec fn spec_placement(hashes: Seq<Hashes>) -> Option<(Seq<Displacement>, Seq<int>)> {
    let order = processing_order(hashes);
    match first_fits(hashes, order, order.len() as int) {
        None => None,
        Some(chosen) => {
            let table = displacement_table(order, chosen);
            Some((table, slot_permutation(hashes, table)))
        },
    }
}

} // verus!
