//! Construction: one attempt at a placement for given hash triples, and the
//! driver that retries with fresh seeds.
use rand::Rng;
use rand::SeedableRng;
use vstd::prelude::*;
use crate::buckets::assign_buckets;
use crate::buckets::bucket_indices;
use crate::buckets::lemma_holds;
use crate::buckets::key_position;
use crate::buckets::sort_buckets;
use crate::buckets::Bucket;
use crate::hash::hash;
use crate::hash::ChdHasher;
use crate::keys::PhfKey;
use crate::lanes::lane_from_usize;
use crate::lanes::lane_zero;
use crate::lanes::spec_bucket;
use crate::lanes::spec_slot;
use crate::lanes::Displacement;
use crate::lanes::Hashes;
use crate::lanes::LANE_MAX;
use crate::placement::candidate;
use crate::placement::displacement_table;
use crate::placement::first_fit;
use crate::placement::first_fits;
use crate::placement::fits;
use crate::placement::has_fit;
use crate::placement::in_bucket;
use crate::placement::is_first_fit;
use crate::placement::is_perfect;
use crate::placement::is_processing_order;
use crate::placement::key_slot;
use crate::placement::occupied_slots;
use crate::placement::precedes;
use crate::placement::slot_permutation;
use crate::placement::spec_num_buckets;
use crate::placement::spec_placement;
use crate::placement::tried_before;
use crate::search::commit;
use crate::search::find_displacement;
use crate::search::lists_trial;
use crate::search::taken;
use crate::search::targets;
use crate::search::trial_slot;

verus! {

/// The outcome of a successful attempt: the displacement pair of each
/// bucket, and for each slot the key placed there.
pub struct MapState {
    pub displacements: Vec<Displacement>,
    pub indices: Vec<usize>,
}

impl MapState {
    /// The slot permutation as mathematical integers.
    pub open spec fn indices_view(&self) -> Seq<int> {
        Seq::new(self.indices@.len(), |s: int| self.indices@[s] as int)
    }
}

/// Whether `key` belongs to one of the buckets placed so far and is sent to
/// slot `s` by the pair chosen for that bucket.
pub open spec fn justified(
    hashes: Seq<Hashes>,
    order: Seq<int>,
    chosen: Seq<Displacement>,
    s: int,
    key: int,
) -> bool {
    exists|p: int|
        0 <= p < chosen.len() && #[trigger] in_bucket(hashes, key, order[p]) && spec_slot(
            hashes[key],
            chosen[p],
            hashes.len() as int,
        ) == s
}

/// Whether `map` records exactly the keys of the buckets placed so far, each
/// in the slot that the pair chosen for its bucket sends it to.
pub open spec fn records(
    hashes: Seq<Hashes>,
    order: Seq<int>,
    chosen: Seq<Displacement>,
    map: Seq<Option<usize>>,
) -> bool {
    &&& map.len() == hashes.len()
    &&& chosen.len() <= order.len()
    &&& forall|p: int, i: int|
        0 <= p < chosen.len() && #[trigger] in_bucket(hashes, i, order[p]) ==> map[spec_slot(
            hashes[i],
            chosen[p],
            hashes.len() as int,
        )] == Some(i as usize)
    &&& forall|s: int|
        0 <= s < map.len() && (#[trigger] map[s]).is_some() ==> justified(
            hashes,
            order,
            chosen,
            s,
            map[s].unwrap() as int,
        )
}

/// The keys of the first `k` buckets of `order`.
pub open spec fn placed_keys(hashes: Seq<Hashes>, order: Seq<int>, k: int) -> Set<int> {
    Set::new(|i: int| exists|p: int| 0 <= p < k && #[trigger] in_bucket(hashes, i, order[p]))
}

/// A recorded map takes exactly the slots that the chosen pairs occupy.
proof fn lemma_taken_is_occupied(
    hashes: Seq<Hashes>,
    order: Seq<int>,
    chosen: Seq<Displacement>,
    map: Seq<Option<usize>>,
)
    requires
        records(hashes, order, chosen, map),
    ensures
        taken(map) == occupied_slots(hashes, order, chosen),
{
    let n = hashes.len() as int;
    assert forall|s: int| taken(map).contains(s) implies occupied_slots(
        hashes,
        order,
        chosen,
    ).contains(s) by {
        let key = map[s].unwrap() as int;
        assert(justified(hashes, order, chosen, s, key));
        let p = choose|p: int|
            0 <= p < chosen.len() && #[trigger] in_bucket(hashes, key, order[p]) && spec_slot(
                hashes[key],
                chosen[p],
                n,
            ) == s;
        assert(spec_slot(hashes[key], chosen[p], n) == s);
    }
    assert forall|s: int| occupied_slots(hashes, order, chosen).contains(s) implies taken(
        map,
    ).contains(s) by {
        let (p, i) = choose|p: int, i: int|
            0 <= p < chosen.len() && p < order.len() && in_bucket(hashes, i, order[p])
                && #[trigger] spec_slot(hashes[i], chosen[p], n) == s;
        assert(in_bucket(hashes, i, order[p]));
        assert(map[s] == Some(i as usize));
    }
    assert(taken(map) =~= occupied_slots(hashes, order, chosen));
}

/// There is at most one first fit, so a first fit is the first fit.
proof fn lemma_first_fit(hashes: Seq<Hashes>, b: int, occupied: Set<int>, d1: int, d2: int)
    requires
        is_first_fit(hashes, b, occupied, d1, d2),
    ensures
        first_fit(hashes, b, occupied) == Some((d1, d2)),
{
    assert(fits(hashes, b, candidate(d1, d2), occupied));
    assert(has_fit(hashes, b, occupied));
    let pair = (d1, d2);
    assert(is_first_fit(hashes, b, occupied, pair.0, pair.1));
    let d = choose|d: (int, int)| is_first_fit(hashes, b, occupied, d.0, d.1);
    assert(is_first_fit(hashes, b, occupied, d.0, d.1));
    if tried_before(d.0, d.1, d1, d2) {
        assert(!fits(hashes, b, candidate(d.0, d.1), occupied));
    }
    if tried_before(d1, d2, d.0, d.1) {
        assert(!fits(hashes, b, candidate(d1, d2), occupied));
    }
    assert(d == pair);
}

/// Once a bucket has no fit, no longer prefix of the order has a placement.
proof fn lemma_no_fit_stays(hashes: Seq<Hashes>, order: Seq<int>, k: int, m: int)
    requires
        0 <= k <= m,
        first_fits(hashes, order, k).is_none(),
    ensures
        first_fits(hashes, order, m).is_none(),
    decreases m - k,
{
    if k < m {
        lemma_no_fit_stays(hashes, order, k, m - 1);
    }
}

/// The slots listed for a fitting pair are in range and pairwise distinct.
proof fn lemma_additions(
    hashes: Seq<Hashes>,
    bucket: Bucket,
    d: Displacement,
    occupied: Set<int>,
    additions: Seq<(usize, usize)>,
)
    requires
        hashes.len() <= LANE_MAX,
        bucket.holds(hashes),
        fits(hashes, bucket.index as int, d, occupied),
        lists_trial(hashes, bucket.keys@, d, additions),
    ensures
        forall|u: int|
            0 <= u < additions.len() ==> (#[trigger] additions[u]).0 == trial_slot(
                hashes,
                bucket.keys@,
                d,
                u,
            ) && 0 <= trial_slot(hashes, bucket.keys@, d, u) < hashes.len() && !occupied.contains(
                trial_slot(hashes, bucket.keys@, d, u),
            ),
        forall|u: int, v: int|
            0 <= u < v < additions.len() ==> (#[trigger] additions[u]).0
                != (#[trigger] additions[v]).0,
{
    lemma_holds(hashes, bucket);
    let keys = bucket.keys@;
    let n = hashes.len() as int;
    assert forall|u: int| 0 <= u < additions.len() implies (#[trigger] additions[u]).0
        == trial_slot(hashes, keys, d, u) && 0 <= trial_slot(hashes, keys, d, u) < n
        && !occupied.contains(trial_slot(hashes, keys, d, u)) by {
        assert(in_bucket(hashes, keys[u] as int, bucket.index as int));
        assert(trial_slot(hashes, keys, d, u) == spec_slot(hashes[keys[u] as int], d, n));
    }
    assert forall|u: int, v: int| 0 <= u < v < additions.len() implies (#[trigger] additions[u]).0
        != (#[trigger] additions[v]).0 by {
        assert(in_bucket(hashes, keys[u] as int, bucket.index as int));
        assert(in_bucket(hashes, keys[v] as int, bucket.index as int));
        assert(keys[u] < keys[v]);
        assert(trial_slot(hashes, keys, d, u) == spec_slot(hashes[keys[u] as int], d, n));
        assert(trial_slot(hashes, keys, d, v) == spec_slot(hashes[keys[v] as int], d, n));
    }
}

/// Committing the slots of a fitting pair extends the record by one bucket.
proof fn lemma_records_step(
    hashes: Seq<Hashes>,
    order: Seq<int>,
    chosen: Seq<Displacement>,
    map: Seq<Option<usize>>,
    after: Seq<Option<usize>>,
    bucket: Bucket,
    d: Displacement,
    additions: Seq<(usize, usize)>,
)
    requires
        hashes.len() <= LANE_MAX,
        records(hashes, order, chosen, map),
        chosen.len() < order.len(),
        bucket.index == order[chosen.len() as int],
        bucket.holds(hashes),
        fits(hashes, bucket.index as int, d, taken(map)),
        lists_trial(hashes, bucket.keys@, d, additions),
        after.len() == map.len(),
        forall|u: int|
            0 <= u < additions.len() ==> after[(#[trigger] additions[u]).0 as int] == Some(
                additions[u].1,
            ),
        forall|s: int|
            0 <= s < map.len() && !targets(additions, s) ==> #[trigger] after[s] == map[s],
    ensures
        records(hashes, order, chosen.push(d), after),
{
    let n = hashes.len() as int;
    let k = chosen.len() as int;
    let keys = bucket.keys@;
    let next = chosen.push(d);
    lemma_holds(hashes, bucket);
    lemma_additions(hashes, bucket, d, taken(map), additions);
    assert forall|p: int, i: int|
        0 <= p < next.len() && #[trigger] in_bucket(hashes, i, order[p]) implies after[spec_slot(
        hashes[i],
        next[p],
        n,
    )] == Some(i as usize) by {
        let s = spec_slot(hashes[i], next[p], n);
        if p < k {
            assert(next[p] == chosen[p]);
            assert(map[s] == Some(i as usize));
            assert(taken(map).contains(s));
            if targets(additions, s) {
                let u = choose|u: int| 0 <= u < additions.len() && (#[trigger] additions[u]).0 == s;
                assert(additions[u].0 == trial_slot(hashes, keys, d, u));
            }
            assert(after[s] == map[s]);
        } else {
            let u = key_position(hashes, &bucket, i);
            assert(additions[u].0 == trial_slot(hashes, keys, d, u));
            assert(additions[u].1 == keys[u]);
            assert(after[additions[u].0 as int] == Some(additions[u].1));
        }
    }
    assert forall|s: int| 0 <= s < after.len() && (#[trigger] after[s]).is_some() implies justified(
        hashes,
        order,
        next,
        s,
        after[s].unwrap() as int,
    ) by {
        if targets(additions, s) {
            let u = choose|u: int| 0 <= u < additions.len() && (#[trigger] additions[u]).0 == s;
            assert(additions[u].0 == trial_slot(hashes, keys, d, u));
            assert(after[additions[u].0 as int] == Some(additions[u].1));
            let key = keys[u] as int;
            assert(in_bucket(hashes, key, order[k]));
            assert(next[k] == d);
        } else {
            assert(after[s] == map[s]);
            let key = map[s].unwrap() as int;
            assert(justified(hashes, order, chosen, s, key));
            let p = choose|p: int|
                0 <= p < chosen.len() && #[trigger] in_bucket(hashes, key, order[p]) && spec_slot(
                    hashes[key],
                    chosen[p],
                    n,
                ) == s;
            assert(next[p] == chosen[p]);
            assert(in_bucket(hashes, key, order[p]));
        }
    }
}

/// Two positions of a processing order hold different buckets.
proof fn lemma_order_distinct(hashes: Seq<Hashes>, order: Seq<int>, p: int, q: int)
    requires
        is_processing_order(hashes, order),
        0 <= p < order.len(),
        0 <= q < order.len(),
        p != q,
    ensures
        order[p] != order[q],
{
    if p < q {
        assert(precedes(hashes, order[p], order[q]));
    } else {
        assert(precedes(hashes, order[q], order[p]));
    }
}

/// Committing a bucket adds as many taken slots as placed keys.
proof fn lemma_count_step(
    hashes: Seq<Hashes>,
    order: Seq<int>,
    k: int,
    map: Seq<Option<usize>>,
    after: Seq<Option<usize>>,
    bucket: Bucket,
    d: Displacement,
    additions: Seq<(usize, usize)>,
)
    requires
        hashes.len() <= LANE_MAX,
        is_processing_order(hashes, order),
        0 <= k < order.len(),
        bucket.index == order[k],
        bucket.holds(hashes),
        fits(hashes, bucket.index as int, d, taken(map)),
        lists_trial(hashes, bucket.keys@, d, additions),
        map.len() == hashes.len(),
        after.len() == map.len(),
        forall|u: int|
            0 <= u < additions.len() ==> after[(#[trigger] additions[u]).0 as int] == Some(
                additions[u].1,
            ),
        forall|s: int|
            0 <= s < map.len() && !targets(additions, s) ==> #[trigger] after[s] == map[s],
        taken(map).finite(),
        placed_keys(hashes, order, k).finite(),
        taken(map).len() == placed_keys(hashes, order, k).len(),
    ensures
        taken(after).finite(),
        placed_keys(hashes, order, k + 1).finite(),
        taken(after).len() == placed_keys(hashes, order, k + 1).len(),
{
    broadcast use vstd::seq_lib::seq_to_set_is_finite;

    let keys = bucket.keys@;
    let n = hashes.len() as int;
    let slots = Seq::new(keys.len(), |u: int| trial_slot(hashes, keys, d, u));
    let listed = bucket.keys_view();
    lemma_holds(hashes, bucket);
    lemma_additions(hashes, bucket, d, taken(map), additions);
    assert(slots.no_duplicates()) by {
        assert forall|u: int, v: int| 0 <= u < slots.len() && 0 <= v < slots.len() && u != v implies slots[u]
            != slots[v] by {
            if u < v {
                assert(additions[u].0 != additions[v].0);
            } else {
                assert(additions[v].0 != additions[u].0);
            }
        }
    }
    assert(listed.no_duplicates()) by {
        assert forall|u: int, v: int|
            0 <= u < listed.len() && 0 <= v < listed.len() && u != v implies listed[u]
            != listed[v] by {
            if u < v {
                assert(keys[u] < keys[v]);
            } else {
                assert(keys[v] < keys[u]);
            }
        }
    }
    slots.unique_seq_to_set();
    listed.unique_seq_to_set();
    assert(taken(after) =~= taken(map) + slots.to_set()) by {
        assert forall|s: int| taken(after).contains(s) implies (taken(map) + slots.to_set()).contains(
            s,
        ) by {
            if targets(additions, s) {
                let u = choose|u: int| 0 <= u < additions.len() && (#[trigger] additions[u]).0 == s;
                assert(slots[u] == s);
                assert(slots.contains(s));
            } else {
                assert(after[s] == map[s]);
            }
        }
        assert forall|s: int| (taken(map) + slots.to_set()).contains(s) implies taken(
            after,
        ).contains(s) by {
            if slots.to_set().contains(s) {
                assert(slots.contains(s));
                let u = choose|u: int| 0 <= u < slots.len() && slots[u] == s;
                assert(additions[u].0 == s);
                assert(after[additions[u].0 as int] == Some(additions[u].1));
            } else {
                if targets(additions, s) {
                    let u = choose|u: int|
                        0 <= u < additions.len() && (#[trigger] additions[u]).0 == s;
                    assert(additions[u].0 == trial_slot(hashes, keys, d, u));
                }
                assert(after[s] == map[s]);
            }
        }
    }
    assert(taken(map).disjoint(slots.to_set())) by {
        assert forall|s: int| taken(map).contains(s) && slots.to_set().contains(s) implies false by {
            assert(slots.contains(s));
            let u = choose|u: int| 0 <= u < slots.len() && slots[u] == s;
            assert(additions[u].0 == trial_slot(hashes, keys, d, u));
        }
    }
    let before = placed_keys(hashes, order, k);
    assert(placed_keys(hashes, order, k + 1) =~= before + listed.to_set()) by {
        assert forall|i: int| placed_keys(hashes, order, k + 1).contains(i) implies (before
            + listed.to_set()).contains(i) by {
            let p = choose|p: int| 0 <= p < k + 1 && #[trigger] in_bucket(hashes, i, order[p]);
            if p == k {
                let u = key_position(hashes, &bucket, i);
                assert(listed[u] == i);
                assert(listed.contains(i));
            } else {
                assert(in_bucket(hashes, i, order[p]));
            }
        }
        assert forall|i: int| (before + listed.to_set()).contains(i) implies placed_keys(
            hashes,
            order,
            k + 1,
        ).contains(i) by {
            if listed.to_set().contains(i) {
                assert(listed.contains(i));
                let u = choose|u: int| 0 <= u < listed.len() && listed[u] == i;
                assert(keys[u] == i);
                assert(in_bucket(hashes, i, order[k]));
            } else {
                let p = choose|p: int| 0 <= p < k && #[trigger] in_bucket(hashes, i, order[p]);
                assert(in_bucket(hashes, i, order[p]));
            }
        }
    }
    assert(before.disjoint(listed.to_set())) by {
        assert forall|i: int| before.contains(i) && listed.to_set().contains(i) implies false by {
            assert(listed.contains(i));
            let u = choose|u: int| 0 <= u < listed.len() && listed[u] == i;
            assert(keys[u] == i);
            assert(in_bucket(hashes, i, order[k]));
            let p = choose|p: int| 0 <= p < k && #[trigger] in_bucket(hashes, i, order[p]);
            lemma_order_distinct(hashes, order, p, k);
        }
    }
    vstd::set_lib::lemma_set_disjoint_lens(taken(map), slots.to_set());
    vstd::set_lib::lemma_set_disjoint_lens(before, listed.to_set());
    assert(slots.len() == listed.len());
}

/// Once every bucket has been placed, every slot holds a key.
proof fn lemma_all_taken(
    hashes: Seq<Hashes>,
    order: Seq<int>,
    map: Seq<Option<usize>>,
)
    requires
        is_processing_order(hashes, order),
        map.len() == hashes.len(),
        taken(map).finite(),
        placed_keys(hashes, order, order.len() as int).finite(),
        taken(map).len() == placed_keys(hashes, order, order.len() as int).len(),
    ensures
        forall|s: int| 0 <= s < map.len() ==> (#[trigger] map[s]).is_some(),
{
    let n = hashes.len() as int;
    let all = vstd::set_lib::set_int_range(0, n);
    let placed = placed_keys(hashes, order, order.len() as int);
    vstd::set_lib::lemma_int_range(0, n);
    assert(placed =~= all) by {
        assert forall|i: int| all.contains(i) implies placed.contains(i) by {
            let b = spec_bucket(hashes[i], spec_num_buckets(n));
            assert(0 <= b < order.len());
            assert(order.contains(b));
            let p = choose|p: int| 0 <= p < order.len() && order[p] == b;
            assert(in_bucket(hashes, i, order[p]));
        }
        assert forall|i: int| placed.contains(i) implies all.contains(i) by {
            let p = choose|p: int|
                0 <= p < order.len() && #[trigger] in_bucket(hashes, i, order[p]);
            assert(in_bucket(hashes, i, order[p]));
        }
    }
    assert(taken(map).subset_of(all));
    vstd::set_lib::lemma_subset_equality(taken(map), all);
    assert forall|s: int| 0 <= s < map.len() implies (#[trigger] map[s]).is_some() by {
        assert(all.contains(s));
        assert(taken(map).contains(s));
    }
}

/// A complete record is the placement: its table and permutation are the
/// ones the search is defined to give, and they resolve every key to itself.
proof fn lemma_result(
    hashes: Seq<Hashes>,
    order: Seq<int>,
    chosen: Seq<Displacement>,
    map: Seq<Option<usize>>,
    table: Seq<Displacement>,
    permutation: Seq<int>,
)
    requires
        hashes.len() <= LANE_MAX,
        is_processing_order(hashes, order),
        records(hashes, order, chosen, map),
        chosen.len() == order.len(),
        first_fits(hashes, order, order.len() as int) == Some(chosen),
        table.len() == order.len(),
        forall|p: int| 0 <= p < order.len() ==> table[#[trigger] order[p]] == chosen[p],
        permutation.len() == hashes.len(),
        forall|s: int|
            0 <= s < map.len() ==> (#[trigger] map[s]) == Some(permutation[s] as usize) && 0
                <= permutation[s] <= usize::MAX,
    ensures
        spec_placement(hashes) == Some((table, permutation)),
        is_perfect(hashes, table, permutation),
{
    let n = hashes.len() as int;
    crate::buckets::lemma_processing_order_unique(hashes, order);
    let expected = displacement_table(order, chosen);
    assert(table =~= expected) by {
        assert forall|b: int| 0 <= b < order.len() implies table[b] == expected[b] by {
            assert(order.contains(b));
            let p = order.index_of(b);
            assert(order[p] == b);
        }
    }
    assert forall|i: int| 0 <= i < n implies permutation[#[trigger] key_slot(hashes, table, i)]
        == i && 0 <= key_slot(hashes, table, i) < n by {
        let b = spec_bucket(hashes[i], table.len() as int);
        assert(0 <= b < order.len());
        assert(order.contains(b));
        let p = choose|p: int| 0 <= p < order.len() && order[p] == b;
        assert(in_bucket(hashes, i, order[p]));
        assert(table[order[p]] == chosen[p]);
        let s = key_slot(hashes, table, i);
        assert(map[s] == Some(i as usize));
    }
    assert forall|s: int| 0 <= s < n implies 0 <= #[trigger] permutation[s] < n && key_slot(
        hashes,
        table,
        permutation[s],
    ) == s by {
        let key = permutation[s];
        assert(map[s] == Some(key as usize));
        assert(justified(hashes, order, chosen, s, key));
        let p = choose|p: int|
            0 <= p < chosen.len() && #[trigger] in_bucket(hashes, key, order[p]) && spec_slot(
                hashes[key],
                chosen[p],
                n,
            ) == s;
        assert(table[order[p]] == chosen[p]);
    }
    let wanted = slot_permutation(hashes, table);
    assert(permutation =~= wanted) by {
        assert forall|s: int| 0 <= s < n implies permutation[s] == wanted[s] by {
            let key = permutation[s];
            assert(0 <= key < n && key_slot(hashes, table, key) == s);
            let i = choose|i: int| 0 <= i < n && key_slot(hashes, table, i) == s;
            assert(permutation[key_slot(hashes, table, i)] == i);
        }
    }
}

/// One attempt at a placement for the given hash triples.
///
/// Buckets are taken largest first; each gets the first displacement pair,
/// in the order in which pairs are tried, that sends its keys to free and
/// pairwise distinct slots. The attempt fails as soon as a bucket has no
/// such pair.
pub fn try_generate(hashes: &Vec<Hashes>) -> (result: Option<MapState>)
    requires
        hashes@.len() <= LANE_MAX,
    ensures
        match result {
            Some(state) => spec_placement(hashes@) == Some(
                (state.displacements@, state.indices_view()),
            ) && is_perfect(hashes@, state.displacements@, state.indices_view()),
            None => spec_placement(hashes@).is_none(),
        },
{
    let table_len: usize = hashes.len();
    let unsorted: Vec<Bucket> = assign_buckets(hashes);
    let buckets: Vec<Bucket> = sort_buckets(unsorted, hashes);
    let count: usize = buckets.len();
    let ghost order = bucket_indices(buckets@);
    assert(order.len() == count);

    let mut displacements: Vec<Displacement> = Vec::new();
    let mut b: usize = 0;
    while b < count
        invariant
            b <= count,
            displacements@.len() == b,
        decreases count - b,
    {
        displacements.push((lane_zero(), lane_zero()));
        b += 1;
    }
    let mut map: Vec<Option<usize>> = Vec::new();
    let mut scratch: Vec<u64> = Vec::new();
    let mut s: usize = 0;
    while s < table_len
        invariant
            s <= table_len,
            map@.len() == s,
            scratch@.len() == s,
            forall|r: int| 0 <= r < s ==> (#[trigger] map@[r]).is_none(),
            forall|r: int| 0 <= r < s ==> (#[trigger] scratch@[r]) == 0,
        decreases table_len - s,
    {
        map.push(None);
        scratch.push(0u64);
        s += 1;
    }
    let mut generation: u64 = 0;
    let mut additions: Vec<(usize, usize)> = Vec::with_capacity(crate::placement::LAMBDA);
    let ghost mut chosen: Seq<Displacement> = Seq::empty();
    proof {
        assert(taken(map@) =~= Set::<int>::empty());
        assert(placed_keys(hashes@, order, 0) =~= Set::<int>::empty());
    }

    let mut k: usize = 0;
    while k < count
        invariant
            k <= count,
            count == buckets@.len(),
            count <= LANE_MAX,
            table_len == hashes@.len(),
            table_len <= LANE_MAX,
            order == bucket_indices(buckets@),
            is_processing_order(hashes@, order),
            forall|t: int| 0 <= t < buckets@.len() ==> (#[trigger] buckets@[t]).holds(hashes@),
            displacements@.len() == count,
            scratch@.len() == table_len,
            forall|r: int| 0 <= r < table_len ==> (#[trigger] scratch@[r]) <= generation,
            generation <= k * 0x1_0000_0000,
            chosen.len() == k,
            first_fits(hashes@, order, k as int) == Some(chosen),
            records(hashes@, order, chosen, map@),
            forall|p: int| 0 <= p < k ==> displacements@[#[trigger] order[p]] == chosen[p],
            taken(map@).finite(),
            placed_keys(hashes@, order, k as int).finite(),
            taken(map@).len() == placed_keys(hashes@, order, k as int).len(),
        decreases count - k,
    {
        let bucket: &Bucket = &buckets[k];
        assert(bucket.index == order[k as int]);
        assert(0 <= order[k as int] < order.len());
        proof {
            lemma_taken_is_occupied(hashes@, order, chosen, map@);
        }
        let found: Option<(usize, usize)> = find_displacement(
            hashes,
            bucket,
            &map,
            &mut scratch,
            &mut generation,
            &mut additions,
        );
        match found {
            None => {
                proof {
                    assert(first_fit(hashes@, order[k as int], taken(map@)).is_none());
                    assert(first_fits(hashes@, order, k + 1).is_none());
                    lemma_no_fit_stays(hashes@, order, k + 1, order.len() as int);
                    crate::buckets::lemma_processing_order_unique(hashes@, order);
                }
                return None;
            },
            Some((d1, d2)) => {
                let pair: Displacement = (lane_from_usize(d1), lane_from_usize(d2));
                let ghost before = map@;
                let ghost table_before = displacements@;
                proof {
                    assert(pair == candidate(d1 as int, d2 as int));
                    lemma_first_fit(hashes@, order[k as int], taken(before), d1 as int, d2 as int);
                    lemma_additions(hashes@, *bucket, pair, taken(before), additions@);
                }
                displacements.set(bucket.index, pair);
                commit(&mut map, &additions);
                proof {
                    lemma_records_step(
                        hashes@,
                        order,
                        chosen,
                        before,
                        map@,
                        *bucket,
                        pair,
                        additions@,
                    );
                    lemma_count_step(
                        hashes@,
                        order,
                        k as int,
                        before,
                        map@,
                        *bucket,
                        pair,
                        additions@,
                    );
                    assert forall|p: int| 0 <= p < k + 1 implies displacements@[#[trigger] order[p]]
                        == chosen.push(pair)[p] by {
                        if p < k {
                            lemma_order_distinct(hashes@, order, p, k as int);
                            assert(table_before[order[p]] == chosen[p]);
                        }
                    }
                    chosen = chosen.push(pair);
                }
            },
        }
        k += 1;
    }
    proof {
        lemma_all_taken(hashes@, order, map@);
    }
    let mut indices: Vec<usize> = Vec::new();
    let mut s: usize = 0;
    while s < table_len
        invariant
            s <= table_len,
            map@.len() == table_len,
            indices@.len() == s,
            forall|r: int| 0 <= r < map@.len() ==> (#[trigger] map@[r]).is_some(),
            forall|r: int| 0 <= r < s ==> map@[r] == Some(#[trigger] indices@[r]),
        decreases table_len - s,
    {
        let key: usize = map[s].unwrap();
        indices.push(key);
        s += 1;
    }
    let state = MapState { displacements, indices };
    proof {
        lemma_result(hashes@, order, chosen, map@, state.displacements@, state.indices_view());
    }
    Some(state)
}

/// Root of the seed stream.
pub const FIXED_SEED: u64 = 42;

/// Number of seeds tried when no other bound is given.
pub const DEFAULT_MAX_ATTEMPTS: usize = 1000;

/// The generator that the seed stream is drawn from.
#[verifier::external_type_specification]
#[verifier::external_body]
pub struct ExSmallRng(rand::rngs::SmallRng);

/// Calls `rand::rngs::SmallRng::seed_from_u64`. Which generator that is
/// depends on the platform, so nothing is stated of it.
#[verifier::external_body]
fn seed_stream(root: u64) -> (stream: rand::rngs::SmallRng) {
    rand::rngs::SmallRng::seed_from_u64(root)
}

/// Draws the next seed from the stream with `rand::Rng::sample` and the
/// `Standard` distribution: four words, each any 64-bit value.
#[verifier::external_body]
fn next_seed(stream: &mut rand::rngs::SmallRng) -> (seed: (u64, u64, u64, u64)) {
    stream.sample(rand::distributions::Standard)
}

/// The hash triples of a list of keys under a seed.
pub open spec fn key_hashes<K: PhfKey, H: ChdHasher>(keys: Seq<K>, seed: H::Seed) -> Seq<Hashes> {
    Seq::new(keys.len(), |i: int| H::spec_triple(seed, keys[i].key_bytes()))
}

/// Hashes every key under `seed`.
pub fn hash_all<K: PhfKey, H: ChdHasher>(keys: &[K], seed: &H::Seed) -> (hashes: Vec<Hashes>)
    ensures
        hashes@ == key_hashes::<K, H>(keys@, *seed),
{
    let mut hashes: Vec<Hashes> = Vec::with_capacity(keys.len());
    let mut i: usize = 0;
    while i < keys.len()
        invariant
            i <= keys@.len(),
            hashes@.len() == i,
            forall|j: int|
                0 <= j < i ==> #[trigger] hashes@[j] == H::spec_triple(*seed, keys@[j].key_bytes()),
        decreases keys@.len() - i,
    {
        hashes.push(hash::<K, H>(&keys[i], seed));
        i += 1;
    }
    assert(hashes@ =~= key_hashes::<K, H>(keys@, *seed));
    hashes
}

/// At most one key can always be placed: with no key there is nothing to
/// do, and a single key fits its bucket under the first candidate.
pub proof fn lemma_small_placement(hashes: Seq<Hashes>)
    requires
        hashes.len() <= 1,
    ensures
        spec_placement(hashes).is_some(),
{
    reveal_with_fuel(first_fits, 3);
    if hashes.len() == 0 {
        let order = Seq::<int>::empty();
        assert(is_processing_order(hashes, order));
        crate::buckets::lemma_processing_order_unique(hashes, order);
    } else {
        let order = seq![0int];
        assert(order[0] == 0);
        assert(order.contains(0));
        assert(is_processing_order(hashes, order));
        crate::buckets::lemma_processing_order_unique(hashes, order);
        let occupied = occupied_slots(hashes, order, Seq::<Displacement>::empty());
        assert(fits(hashes, 0, candidate(0, 0), occupied));
        assert(has_fit(hashes, 0, occupied));
    }
}

/// One attempt under one seed: hashes every key and searches for a
/// placement of the resulting triples.
pub fn try_seed<K: PhfKey, H: ChdHasher>(keys: &[K], seed: &H::Seed) -> (result: Option<MapState>)
    requires
        keys@.len() <= LANE_MAX,
    ensures
        match result {
            Some(state) => spec_placement(key_hashes::<K, H>(keys@, *seed)) == Some(
                (state.displacements@, state.indices_view()),
            ) && is_perfect(
                key_hashes::<K, H>(keys@, *seed),
                state.displacements@,
                state.indices_view(),
            ),
            None => spec_placement(key_hashes::<K, H>(keys@, *seed)).is_none(),
        },
{
    let hashes: Vec<Hashes> = hash_all::<K, H>(keys, seed);
    try_generate(&hashes)
}

/// Whether the search succeeds for `keys` under `seed`.
pub open spec fn succeeds<K: PhfKey, H: ChdHasher>(keys: Seq<K>, seed: H::Seed) -> bool {
    spec_placement(key_hashes::<K, H>(keys, seed)).is_some()
}

/// Whether `seeds[i]` is the first of the seeds under which the search
/// succeeds.
pub open spec fn first_success<K: PhfKey, H: ChdHasher>(
    keys: Seq<K>,
    seeds: Seq<H::Seed>,
    i: int,
) -> bool {
    &&& 0 <= i < seeds.len()
    &&& succeeds::<K, H>(keys, seeds[i])
    &&& forall|j: int| 0 <= j < i ==> !succeeds::<K, H>(keys, #[trigger] seeds[j])
}

/// The same keys and the same seeds give the same first success.
pub proof fn lemma_first_success_unique<K: PhfKey, H: ChdHasher>(
    keys: Seq<K>,
    seeds: Seq<H::Seed>,
    i: int,
    j: int,
)
    requires
        first_success::<K, H>(keys, seeds, i),
        first_success::<K, H>(keys, seeds, j),
    ensures
        i == j,
{
    if i < j {
        assert(!succeeds::<K, H>(keys, seeds[i]));
    }
    if j < i {
        assert(!succeeds::<K, H>(keys, seeds[j]));
    }
}

/// Tries the given seeds in order and stops at the first under which the
/// search succeeds.
///
/// Returns the position of that seed and the placement found under it, or
/// `None` if the search fails under every seed. The outcome is determined by
/// the keys and the seeds.
pub fn generate_with_seeds<K: PhfKey, H: ChdHasher>(keys: &[K], seeds: &[H::Seed]) -> (result:
    Option<(usize, MapState)>)
    requires
        keys@.len() <= LANE_MAX,
    ensures
        match result {
            Some((i, state)) => first_success::<K, H>(keys@, seeds@, i as int) && spec_placement(
                key_hashes::<K, H>(keys@, seeds@[i as int]),
            ) == Some((state.displacements@, state.indices_view())) && is_perfect(
                key_hashes::<K, H>(keys@, seeds@[i as int]),
                state.displacements@,
                state.indices_view(),
            ),
            None => forall|j: int| 0 <= j < seeds@.len() ==> !succeeds::<K, H>(keys@, #[trigger] seeds@[j]),
        },
        keys@.len() <= 1 && seeds@.len() > 0 ==> result.is_some(),
{
    let mut attempt: usize = 0;
    while attempt < seeds.len()
        invariant
            attempt <= seeds@.len(),
            keys@.len() <= LANE_MAX,
            forall|j: int| 0 <= j < attempt ==> !succeeds::<K, H>(keys@, #[trigger] seeds@[j]),
            attempt > 0 ==> keys@.len() > 1,
        decreases seeds@.len() - attempt,
    {
        match try_seed::<K, H>(keys, &seeds[attempt]) {
            Some(state) => {
                return Some((attempt, state));
            },
            None => {
                proof {
                    if keys@.len() <= 1 {
                        lemma_small_placement(key_hashes::<K, H>(keys@, seeds@[attempt as int]));
                    }
                }
            },
        }
        attempt += 1;
    }
    None
}

/// The first `count` seeds of the stream rooted at `FIXED_SEED`.
///
/// Which seeds these are depends on the generator behind the stream.
pub fn draw_seeds(count: usize) -> (seeds: Vec<(u64, u64, u64, u64)>)
    ensures
        seeds@.len() == count,
{
    let mut stream: rand::rngs::SmallRng = seed_stream(FIXED_SEED);
    let mut seeds: Vec<(u64, u64, u64, u64)> = Vec::new();
    let mut drawn: usize = 0;
    while drawn < count
        invariant
            drawn <= count,
            seeds@.len() == drawn,
        decreases count - drawn,
    {
        seeds.push(next_seed(&mut stream));
        drawn += 1;
    }
    seeds
}

/// Draws `max_attempts` seeds from the stream rooted at `FIXED_SEED` and
/// tries them in order.
///
/// Returns the first seed under which the search succeeds, with the
/// placement found under it. Which seeds the stream yields is not known
/// here, so failure is excluded only where every seed succeeds: for at most
/// one key, if any attempt is allowed.
pub fn generate<K: PhfKey, H: ChdHasher<Seed = (u64, u64, u64, u64)>>(
    keys: &[K],
    max_attempts: usize,
) -> (result: Option<((u64, u64, u64, u64), MapState)>)
    requires
        keys@.len() <= LANE_MAX,
    ensures
        match result {
            Some((seed, state)) => spec_placement(key_hashes::<K, H>(keys@, seed)) == Some(
                (state.displacements@, state.indices_view()),
            ) && is_perfect(
                key_hashes::<K, H>(keys@, seed),
                state.displacements@,
                state.indices_view(),
            ),
            None => max_attempts == 0 || keys@.len() > 1,
        },
{
    let seeds: Vec<(u64, u64, u64, u64)> = draw_seeds(max_attempts);
    match generate_with_seeds::<K, H>(keys, seeds.as_slice()) {
        Some((i, state)) => Some((seeds[i], state)),
        None => None,
    }
}

} // verus!
