//! Displacement search: for each bucket, in processing order, the first
//! displacement pair that places its keys in free, pairwise distinct slots.
use vstd::prelude::*;
use crate::buckets::key_position;
use crate::buckets::lemma_holds;
use crate::buckets::Bucket;
use crate::lanes::displace;
use crate::lanes::lane_from_usize;
use crate::lanes::lane_into_usize;
use crate::lanes::spec_slot;
use crate::lanes::Displacement;
use crate::lanes::Hashes;
use crate::lanes::LANE_MAX;
use crate::placement::candidate;
use crate::placement::fits;
use crate::placement::has_fit;
use crate::placement::in_bucket;
use crate::placement::is_first_fit;
use crate::placement::tried_before;

verus! {

/// The slots that hold a key.
pub open spec fn taken(map: Seq<Option<usize>>) -> Set<int> {
    Set::new(|s: int| 0 <= s < map.len() && map[s].is_some())
}

/// The slot of the `t`-th key of a bucket under the pair `d`.
pub open spec fn trial_slot(hashes: Seq<Hashes>, keys: Seq<usize>, d: Displacement, t: int) -> int {
    spec_slot(hashes[keys[t] as int], d, hashes.len() as int)
}

/// Whether one of the first `t` keys of a bucket lands in slot `s` under the
/// pair `d`.
pub open spec fn marked(hashes: Seq<Hashes>, keys: Seq<usize>, d: Displacement, t: int, s: int) -> bool {
    exists|u: int| 0 <= u < t && trial_slot(hashes, keys, d, u) == s
}

/// Whether `additions` lists, for each key of the bucket in turn, the slot it
/// gets under `d` together with the key.
pub open spec fn lists_trial(
    hashes: Seq<Hashes>,
    keys: Seq<usize>,
    d: Displacement,
    additions: Seq<(usize, usize)>,
) -> bool {
    &&& additions.len() == keys.len()
    &&& forall|u: int|
        0 <= u < keys.len() ==> (#[trigger] additions[u]) == (
            trial_slot(hashes, keys, d, u) as usize,
            keys[u],
        )
}

/// The slot of a key with the given hash triple under the pair `d`.
pub fn slot_of(hash: &Hashes, d: &Displacement, table_len: usize) -> (slot: usize)
    requires
        table_len > 0,
    ensures
        slot == spec_slot(*hash, *d, table_len as int),
        slot < table_len,
{
    lane_into_usize(displace(hash.1, hash.2, d.0, d.1)) % table_len
}

/// Tries one displacement pair on one bucket.
///
/// Returns whether the pair fits: every key of the bucket lands in a slot
/// that `map` leaves free, and no two land in the same slot. `scratch` marks
/// the slots used in this trial with `generation`; on success `additions`
/// lists the slot of each key.
pub fn try_candidate(
    hashes: &Vec<Hashes>,
    bucket: &Bucket,
    d: &Displacement,
    map: &Vec<Option<usize>>,
    scratch: &mut Vec<u64>,
    generation: u64,
    additions: &mut Vec<(usize, usize)>,
) -> (accepted: bool)
    requires
        bucket.holds(hashes@),
        map@.len() == hashes@.len(),
        old(scratch)@.len() == hashes@.len(),
        forall|s: int| 0 <= s < old(scratch)@.len() ==> old(scratch)@[s] < generation,
    ensures
        accepted == fits(hashes@, bucket.index as int, *d, taken(map@)),
        final(scratch)@.len() == hashes@.len(),
        forall|s: int| 0 <= s < final(scratch)@.len() ==> final(scratch)@[s] <= generation,
        accepted ==> lists_trial(hashes@, bucket.keys@, *d, final(additions)@),
{
    let table_len: usize = hashes.len();
    let ghost b = bucket.index as int;
    let ghost keys = bucket.keys@;
    proof {
        lemma_holds(hashes@, *bucket);
    }
    additions.clear();
    let mut t: usize = 0;
    while t < bucket.keys.len()
        invariant
            t <= keys.len(),
            keys == bucket.keys@,
            b == bucket.index as int,
            table_len == hashes@.len(),
            map@.len() == table_len,
            scratch@.len() == table_len,
            bucket.holds(hashes@),
            forall|u: int| 0 <= u < keys.len() ==> in_bucket(hashes@, #[trigger] keys[u] as int, b),
            forall|u: int, v: int| 0 <= u < v < keys.len() ==> #[trigger] keys[u] < #[trigger] keys[v],
            additions@.len() == t,
            forall|u: int|
                0 <= u < t ==> (#[trigger] additions@[u]) == (
                    trial_slot(hashes@, keys, *d, u) as usize,
                    keys[u],
                ),
            forall|s: int| 0 <= s < table_len ==> scratch@[s] <= generation,
            forall|s: int|
                0 <= s < table_len ==> ((#[trigger] scratch@[s]) == generation <==> marked(
                    hashes@,
                    keys,
                    *d,
                    t as int,
                    s,
                )),
            forall|u: int|
                0 <= u < t ==> !taken(map@).contains(#[trigger] trial_slot(hashes@, keys, *d, u)),
            forall|u: int, v: int|
                0 <= u < v < t ==> #[trigger] trial_slot(hashes@, keys, *d, u)
                    != #[trigger] trial_slot(hashes@, keys, *d, v),
        decreases keys.len() - t,
    {
        let key: usize = bucket.keys[t];
        assert(in_bucket(hashes@, keys[t as int] as int, b));
        let index: usize = slot_of(&hashes[key], d, table_len);
        assert(index == trial_slot(hashes@, keys, *d, t as int));
        if map[index].is_some() || scratch[index] == generation {
            proof {
                if map@[index as int].is_some() {
                    assert(taken(map@).contains(index as int));
                } else {
                    assert(marked(hashes@, keys, *d, t as int, index as int));
                    let u = choose|u: int| 0 <= u < t && trial_slot(hashes@, keys, *d, u) == index;
                    assert(keys[u] < keys[t as int]);
                    assert(in_bucket(hashes@, keys[u] as int, b));
                }
            }
            return false;
        }
        let ghost scratch_before = scratch@;
        scratch.set(index, generation);
        additions.push((index, key));
        proof {
            assert forall|s: int| 0 <= s < table_len implies ((#[trigger] scratch@[s]) == generation
                <==> marked(hashes@, keys, *d, t + 1, s)) by {
                if s == index {
                    assert(trial_slot(hashes@, keys, *d, t as int) == s);
                } else {
                    if marked(hashes@, keys, *d, t + 1, s) {
                        let u = choose|u: int| 0 <= u < t + 1 && trial_slot(hashes@, keys, *d, u) == s;
                        assert(u < t);
                        assert(marked(hashes@, keys, *d, t as int, s));
                    }
                    if scratch_before[s] == generation {
                        assert(marked(hashes@, keys, *d, t as int, s));
                        let u = choose|u: int| 0 <= u < t && trial_slot(hashes@, keys, *d, u) == s;
                        assert(trial_slot(hashes@, keys, *d, u) == s);
                    }
                }
            }
            assert forall|u: int, v: int| 0 <= u < v < t + 1 implies #[trigger] trial_slot(
                hashes@,
                keys,
                *d,
                u,
            ) != #[trigger] trial_slot(hashes@, keys, *d, v) by {
                if v == t {
                    if trial_slot(hashes@, keys, *d, u) == index {
                        assert(marked(hashes@, keys, *d, t as int, index as int));
                    }
                }
            }
        }
        t += 1;
    }
    proof {
        let n = hashes@.len() as int;
        assert forall|i: int| in_bucket(hashes@, i, b) implies !taken(map@).contains(
            #[trigger] spec_slot(hashes@[i], *d, n),
        ) by {
            let u = key_position(hashes@, bucket, i);
            assert(trial_slot(hashes@, keys, *d, u) == spec_slot(hashes@[i], *d, n));
        }
        assert forall|i: int, j: int|
            in_bucket(hashes@, i, b) && in_bucket(hashes@, j, b) && i != j implies #[trigger] spec_slot(
            hashes@[i],
            *d,
            n,
        ) != #[trigger] spec_slot(hashes@[j], *d, n) by {
            let u = key_position(hashes@, bucket, i);
            let v = key_position(hashes@, bucket, j);
            assert(trial_slot(hashes@, keys, *d, u) == spec_slot(hashes@[i], *d, n));
            assert(trial_slot(hashes@, keys, *d, v) == spec_slot(hashes@[j], *d, n));
            if u < v {
                assert(trial_slot(hashes@, keys, *d, u) != trial_slot(hashes@, keys, *d, v));
            } else {
                assert(trial_slot(hashes@, keys, *d, v) != trial_slot(hashes@, keys, *d, u));
            }
        }
    }
    true
}

/// Searches the candidates, in the order in which they are tried, for the
/// first displacement pair that fits `bucket`.
///
/// Every trial gets a generation of its own. On success `additions` lists
/// the slot of each key of the bucket under the pair found.
pub fn find_displacement(
    hashes: &Vec<Hashes>,
    bucket: &Bucket,
    map: &Vec<Option<usize>>,
    scratch: &mut Vec<u64>,
    generation: &mut u64,
    additions: &mut Vec<(usize, usize)>,
) -> (found: Option<(usize, usize)>)
    requires
        hashes@.len() <= LANE_MAX,
        bucket.holds(hashes@),
        map@.len() == hashes@.len(),
        old(scratch)@.len() == hashes@.len(),
        forall|s: int| 0 <= s < old(scratch)@.len() ==> old(scratch)@[s] <= *old(generation),
        *old(generation) <= u64::MAX - 0x1_0000_0000,
    ensures
        final(scratch)@.len() == hashes@.len(),
        forall|s: int| 0 <= s < final(scratch)@.len() ==> final(scratch)@[s] <= *final(generation),
        *old(generation) <= *final(generation) <= *old(generation) + 0x1_0000_0000,
        match found {
            Some((d1, d2)) => is_first_fit(
                hashes@,
                bucket.index as int,
                taken(map@),
                d1 as int,
                d2 as int,
            ) && lists_trial(
                hashes@,
                bucket.keys@,
                candidate(d1 as int, d2 as int),
                final(additions)@,
            ),
            None => !has_fit(hashes@, bucket.index as int, taken(map@)),
        },
{
    let table_len: usize = hashes.len();
    let ghost start = *generation;
    let ghost b = bucket.index as int;
    let mut d1: usize = 0;
    while d1 < table_len
        invariant
            d1 <= table_len,
            table_len == hashes@.len(),
            table_len <= LANE_MAX,
            b == bucket.index as int,
            bucket.holds(hashes@),
            map@.len() == table_len,
            scratch@.len() == table_len,
            start == *old(generation),
            start <= u64::MAX - 0x1_0000_0000,
            start <= *generation <= start + d1 * 0x1_0000,
            forall|s: int| 0 <= s < table_len ==> scratch@[s] <= *generation,
            forall|e1: int, e2: int|
                0 <= e1 < table_len && 0 <= e2 < table_len && tried_before(e1, e2, d1 as int, 0)
                    ==> !#[trigger] fits(hashes@, b, candidate(e1, e2), taken(map@)),
        decreases table_len - d1,
    {
        let mut d2: usize = 0;
        while d2 < table_len
            invariant
                d1 < table_len,
                d2 <= table_len,
                table_len == hashes@.len(),
                table_len <= LANE_MAX,
                b == bucket.index as int,
                bucket.holds(hashes@),
                map@.len() == table_len,
                scratch@.len() == table_len,
                start == *old(generation),
                start <= u64::MAX - 0x1_0000_0000,
                start <= *generation <= start + d1 * 0x1_0000 + d2,
                forall|s: int| 0 <= s < table_len ==> scratch@[s] <= *generation,
                forall|e1: int, e2: int|
                    0 <= e1 < table_len && 0 <= e2 < table_len && tried_before(
                        e1,
                        e2,
                        d1 as int,
                        d2 as int,
                    ) ==> !#[trigger] fits(hashes@, b, candidate(e1, e2), taken(map@)),
            decreases table_len - d2,
        {
            let pair: Displacement = (lane_from_usize(d1), lane_from_usize(d2));
            assert(pair == candidate(d1 as int, d2 as int));
            *generation += 1;
            if try_candidate(hashes, bucket, &pair, map, scratch, *generation, additions) {
                return Some((d1, d2));
            }
            d2 += 1;
        }
        d1 += 1;
    }
    None
}

/// Whether `additions` names slot `s`.
pub open spec fn targets(additions: Seq<(usize, usize)>, s: int) -> bool {
    exists|u: int| 0 <= u < additions.len() && (#[trigger] additions[u]).0 == s
}

/// Stores each listed key in its slot.
pub fn commit(map: &mut Vec<Option<usize>>, additions: &Vec<(usize, usize)>)
    requires
        forall|u: int| 0 <= u < additions@.len() ==> (#[trigger] additions@[u]).0 < old(map)@.len(),
        forall|u: int, v: int|
            0 <= u < v < additions@.len() ==> (#[trigger] additions@[u]).0
                != (#[trigger] additions@[v]).0,
    ensures
        final(map)@.len() == old(map)@.len(),
        forall|u: int|
            0 <= u < additions@.len() ==> final(map)@[(#[trigger] additions@[u]).0 as int] == Some(
                additions@[u].1,
            ),
        forall|s: int|
            0 <= s < old(map)@.len() && !targets(additions@, s) ==> #[trigger] final(map)@[s]
                == old(map)@[s],
{
    let mut u: usize = 0;
    while u < additions.len()
        invariant
            u <= additions@.len(),
            map@.len() == old(map)@.len(),
            forall|v: int| 0 <= v < additions@.len() ==> (#[trigger] additions@[v]).0 < map@.len(),
            forall|v: int, w: int|
                0 <= v < w < additions@.len() ==> (#[trigger] additions@[v]).0
                    != (#[trigger] additions@[w]).0,
            forall|v: int|
                0 <= v < u ==> map@[(#[trigger] additions@[v]).0 as int] == Some(additions@[v].1),
            forall|s: int|
                0 <= s < map@.len() && !targets(additions@, s) ==> #[trigger] map@[s] == old(
                    map,
                )@[s],
        decreases additions@.len() - u,
    {
        let (index, key): (usize, usize) = additions[u];
        assert(targets(additions@, index as int));
        map.set(index, Some(key));
        u += 1;
    }
}

} // verus!
