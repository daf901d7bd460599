//! The immutable map: construction from a list of entries, and lookup.
use vstd::prelude::*;
use crate::dedup::has_duplicates;
use crate::dedup::spec_has_duplicates;
use crate::generate::generate;
use crate::generate::key_hashes;
use crate::generate::DEFAULT_MAX_ATTEMPTS;
use crate::hash::hash;
use crate::hash::ChdHasher;
use crate::keys::PhfKey;
use crate::buckets::num_buckets;
use crate::lanes::lane_into_usize;
use crate::lanes::lane_max_value;
use crate::lanes::Displacement;
use crate::lanes::Hashes;
use crate::lanes::LANE_MAX;
use crate::placement::is_perfect;
use crate::placement::key_slot;
use crate::placement::spec_num_buckets;
use crate::placement::spec_placement;
use crate::search::slot_of;

verus! {

/// Why a map could not be built.
#[derive(Debug, Clone, Copy, PartialEq, Eq)]
pub enum BuildError {
    /// There are more entries than a hash lane has values.
    KeyspaceExceeded,
    /// Two entries have the same key.
    DuplicateKey,
    /// No seed among those tried gave a placement.
    ConstructionExhausted,
}

/// The keys of a list of entries, in entry order.
pub open spec fn entry_keys<K, V>(entries: Seq<(K, V)>) -> Seq<K> {
    Seq::new(entries.len(), |i: int| entries[i].0)
}

/// Whether entry `i` has the key `key`.
pub open spec fn holds_key<K: PhfKey, V>(entries: Seq<(K, V)>, key: K, i: int) -> bool {
    0 <= i < entries.len() && entries[i].0.key_bytes() == key.key_bytes()
}

/// The entry with the key `key`, if there is one.
pub open spec fn spec_lookup<K: PhfKey, V>(entries: Seq<(K, V)>, key: K) -> Option<(K, V)> {
    if exists|i: int| holds_key(entries, key, i) {
        Some(entries[choose|i: int| holds_key(entries, key, i)])
    } else {
        None
    }
}

/// Whether seed, displacement table and slot permutation resolve the key of
/// every entry to that entry.
pub open spec fn resolves<K: PhfKey, V, H: ChdHasher>(
    seed: H::Seed,
    disps: Seq<Displacement>,
    indices: Seq<int>,
    entries: Seq<(K, V)>,
) -> bool {
    &&& entries.len() <= LANE_MAX
    &&& is_perfect(key_hashes::<K, H>(entry_keys(entries), seed), disps, indices)
}

/// Entries that are resolved have pairwise distinct keys.
pub proof fn lemma_resolved_keys_distinct<K: PhfKey, V, H: ChdHasher>(
    seed: H::Seed,
    disps: Seq<Displacement>,
    indices: Seq<int>,
    entries: Seq<(K, V)>,
    i: int,
    j: int,
)
    requires
        resolves::<K, V, H>(seed, disps, indices, entries),
        holds_key(entries, entries[i].0, j),
        0 <= i < entries.len(),
    ensures
        i == j,
{
    let hashes = key_hashes::<K, H>(entry_keys(entries), seed);
    assert(hashes[i] == hashes[j]);
    assert(indices[key_slot(hashes, disps, i)] == i);
    assert(indices[key_slot(hashes, disps, j)] == j);
}

/// A map with a lookup by key.
pub trait PhfMap {
    type Key;

    type Value;

    /// The entry that a lookup of `key` gives.
    spec fn spec_get_entry(&self, key: Self::Key) -> Option<(Self::Key, Self::Value)>;

    /// Looks `key` up.
    fn get_entry(&self, key: &Self::Key) -> (found: Option<(&Self::Key, &Self::Value)>)
        ensures
            match found {
                Some((k, v)) => self.spec_get_entry(*key) == Some((*k, *v)),
                None => self.spec_get_entry(*key).is_none(),
            },
    ;
}

/// An immutable map from keys to values in which every key has a slot of its
/// own.
///
/// A lookup hashes the key once under the map's seed, applies the
/// displacement pair of the key's bucket and compares the one entry that the
/// resulting slot names.
pub struct ChdMap<K: PhfKey, V, H: ChdHasher> {
    seed: H::Seed,
    disps: Vec<Displacement>,
    indices: Vec<usize>,
    entries: Vec<(K, V)>,
}

impl<K: PhfKey, V, H: ChdHasher> ChdMap<K, V, H> {
    /// The seed of the keyed hash.
    pub closed spec fn spec_seed(&self) -> H::Seed {
        self.seed
    }

    /// The displacement pair of each bucket.
    pub closed spec fn spec_disps(&self) -> Seq<Displacement> {
        self.disps@
    }

    /// For each slot, the position of the entry placed there.
    pub closed spec fn spec_indices(&self) -> Seq<int> {
        Seq::new(self.indices@.len(), |s: int| self.indices@[s] as int)
    }

    /// The entries, in the order in which they were given.
    pub closed spec fn spec_entries(&self) -> Seq<(K, V)> {
        self.entries@
    }

    /// The invariant of a map: the key of every entry resolves to that
    /// entry.
    #[verifier::type_invariant]
    pub open spec fn wf(&self) -> bool {
        resolves::<K, V, H>(
            self.spec_seed(),
            self.spec_disps(),
            self.spec_indices(),
            self.spec_entries(),
        )
    }

    /// The seed of the keyed hash.
    pub fn seed(&self) -> (seed: &H::Seed)
        ensures
            *seed == self.spec_seed(),
            self.wf(),
    {
        proof {
            use_type_invariant(self);
        }
        &self.seed
    }

    /// The displacement pair of each bucket.
    pub fn disps(&self) -> (disps: &Vec<Displacement>)
        ensures
            disps@ == self.spec_disps(),
            disps@.len() == spec_num_buckets(self.spec_entries().len() as int),
            self.wf(),
    {
        proof {
            use_type_invariant(self);
        }
        &self.disps
    }

    /// For each slot, the position of the entry placed there.
    pub fn indices(&self) -> (indices: &Vec<usize>)
        ensures
            indices@.len() == self.spec_indices().len(),
            forall|s: int| 0 <= s < indices@.len() ==> indices@[s] == self.spec_indices()[s],
            indices@.len() == self.spec_entries().len(),
            self.wf(),
    {
        proof {
            use_type_invariant(self);
        }
        &self.indices
    }

    /// The entries, in the order in which they were given.
    pub fn entries(&self) -> (entries: &Vec<(K, V)>)
        ensures
            entries@ == self.spec_entries(),
            self.wf(),
    {
        proof {
            use_type_invariant(self);
        }
        &self.entries
    }

    /// Number of entries.
    pub fn len(&self) -> (len: usize)
        ensures
            len == self.spec_entries().len(),
    {
        self.entries.len()
    }

    /// Looks `key` up: the entry with that key, or `None` if no entry has it.
    pub fn get(&self, key: &K) -> (found: Option<(&K, &V)>)
        ensures
            match found {
                Some((k, v)) => spec_lookup(self.spec_entries(), *key) == Some((*k, *v))
                    && k.key_bytes() == key.key_bytes(),
                None => spec_lookup(self.spec_entries(), *key).is_none(),
            },
    {
        proof {
            use_type_invariant(self);
        }
        if self.disps.len() == 0 {
            return None;
        }
        let ghost entries = self.entries@;
        let ghost hashes = key_hashes::<K, H>(entry_keys(entries), self.seed);
        let triple: Hashes = hash::<K, H>(key, &self.seed);
        let d: Displacement = self.disps[lane_into_usize(triple.0) % self.disps.len()];
        let slot: usize = slot_of(&triple, &d, self.indices.len());
        assert(0 <= self.spec_indices()[slot as int] < entries.len());
        let index: usize = self.indices[slot];
        let entry: &(K, V) = &self.entries[index];
        proof {
            assert forall|i: int| holds_key(entries, *key, i) implies i == index by {
                assert(hashes[i] == triple);
                assert(key_slot(hashes, self.spec_disps(), i) == slot);
                assert(self.spec_indices()[key_slot(hashes, self.spec_disps(), i)] == i);
            }
        }
        if entry.0.same_key(key) {
            assert(holds_key(entries, *key, index as int));
            Some((&entry.0, &entry.1))
        } else {
            None
        }
    }
}

/// Every entry of a map is found under its own key.
pub proof fn lemma_map_finds_its_entries<K: PhfKey, V, H: ChdHasher>(map: ChdMap<K, V, H>, i: int)
    requires
        map.wf(),
        0 <= i < map.spec_entries().len(),
    ensures
        map.spec_get_entry(map.spec_entries()[i].0) == Some(map.spec_entries()[i]),
{
    lemma_present_key_found::<K, V, H>(
        map.spec_seed(),
        map.spec_disps(),
        map.spec_indices(),
        map.spec_entries(),
        i,
    );
}

/// What a map finds under a key is one of its entries and has that key.
pub proof fn lemma_map_finds_only_the_key<K: PhfKey, V, H: ChdHasher>(map: ChdMap<K, V, H>, key: K)
    ensures
        map.spec_get_entry(key) matches Some(entry) ==> entry.0.key_bytes() == key.key_bytes()
            && map.spec_entries().contains(entry),
{
    lemma_lookup_sound(map.spec_entries(), key);
}

/// A map without entries has no buckets and finds nothing.
pub proof fn lemma_empty_map<K: PhfKey, V, H: ChdHasher>(map: ChdMap<K, V, H>, key: K)
    requires
        map.wf(),
        map.spec_entries().len() == 0,
    ensures
        map.spec_disps().len() == 0,
        map.spec_indices().len() == 0,
        map.spec_get_entry(key).is_none(),
{
}

/// A list of entry positions as mathematical integers.
pub open spec fn positions(indices: Seq<usize>) -> Seq<int> {
    Seq::new(indices.len(), |s: int| indices[s] as int)
}

impl<K: PhfKey, V, H: ChdHasher> ChdMap<K, V, H> {
    /// Puts a map together from its parts, if they form one.
    ///
    /// The parts form a map exactly when there are no more entries than a
    /// hash lane has values, there is one displacement pair per bucket and
    /// one position per slot, and the key of every entry resolves to that
    /// entry.
    pub fn from_parts(
        seed: H::Seed,
        disps: Vec<Displacement>,
        indices: Vec<usize>,
        entries: Vec<(K, V)>,
    ) -> (result: Option<Self>)
        ensures
            result.is_some() <==> resolves::<K, V, H>(seed, disps@, positions(indices@), entries@),
            result matches Some(map) ==> map.wf() && map.spec_seed() == seed && map.spec_disps()
                == disps@ && map.spec_indices() == positions(indices@) && map.spec_entries()
                == entries@,
    {
        let table_len: usize = entries.len();
        if table_len > lane_into_usize(lane_max_value()) {
            return None;
        }
        if disps.len() != num_buckets(table_len) || indices.len() != table_len {
            return None;
        }
        let ghost hashes = key_hashes::<K, H>(entry_keys(entries@), seed);
        let ghost listed = positions(indices@);
        let mut s: usize = 0;
        while s < table_len
            invariant
                s <= table_len,
                table_len == indices@.len(),
                table_len == hashes.len(),
                listed == positions(indices@),
                forall|r: int| 0 <= r < s ==> 0 <= #[trigger] listed[r] < table_len,
            decreases table_len - s,
        {
            if indices[s] >= table_len {
                assert(!(0 <= listed[s as int] < hashes.len()));
                return None;
            }
            s += 1;
        }
        let mut i: usize = 0;
        while i < table_len
            invariant
                i <= table_len,
                table_len == entries@.len(),
                table_len == indices@.len(),
                table_len <= LANE_MAX,
                disps@.len() == spec_num_buckets(table_len as int),
                hashes == key_hashes::<K, H>(entry_keys(entries@), seed),
                listed == positions(indices@),
                forall|j: int| 0 <= j < i ==> listed[#[trigger] key_slot(hashes, disps@, j)] == j,
            decreases table_len - i,
        {
            let triple: Hashes = hash::<K, H>(&entries[i].0, &seed);
            assert(triple == hashes[i as int]);
            let d: Displacement = disps[lane_into_usize(triple.0) % disps.len()];
            let slot: usize = slot_of(&triple, &d, table_len);
            assert(slot == key_slot(hashes, disps@, i as int));
            if indices[slot] != i {
                assert(listed[key_slot(hashes, disps@, i as int)] != i);
                return None;
            }
            i += 1;
        }
        proof {
            assert(is_perfect(hashes, disps@, listed));
        }
        Some(ChdMap { seed, disps, indices, entries })
    }
}

impl<K: PhfKey, V, H: ChdHasher> PhfMap for ChdMap<K, V, H> {
    type Key = K;

    type Value = V;

    open spec fn spec_get_entry(&self, key: K) -> Option<(K, V)> {
        spec_lookup(self.spec_entries(), key)
    }

    fn get_entry(&self, key: &K) -> (found: Option<(&K, &V)>) {
        self.get(key)
    }
}

/// A key that was given at construction is found, with its value.
pub proof fn lemma_present_key_found<K: PhfKey, V, H: ChdHasher>(
    seed: H::Seed,
    disps: Seq<Displacement>,
    indices: Seq<int>,
    entries: Seq<(K, V)>,
    i: int,
)
    requires
        resolves::<K, V, H>(seed, disps, indices, entries),
        0 <= i < entries.len(),
    ensures
        spec_lookup(entries, entries[i].0) == Some(entries[i]),
{
    assert(holds_key(entries, entries[i].0, i));
    let j = choose|j: int| holds_key(entries, entries[i].0, j);
    lemma_resolved_keys_distinct::<K, V, H>(seed, disps, indices, entries, i, j);
}

/// A lookup never gives an entry with another key: what is found is one of
/// the entries, and its key is the key that was asked for.
pub proof fn lemma_lookup_sound<K: PhfKey, V>(entries: Seq<(K, V)>, key: K)
    ensures
        match spec_lookup(entries, key) {
            Some(entry) => entry.0.key_bytes() == key.key_bytes() && entries.contains(entry),
            None => forall|i: int| 0 <= i < entries.len() ==> (#[trigger] entries[i]).0.key_bytes()
                != key.key_bytes(),
        },
{
    if exists|i: int| holds_key(entries, key, i) {
        let i = choose|i: int| holds_key(entries, key, i);
        assert(entries[i] == spec_lookup(entries, key).unwrap());
    } else {
        assert forall|i: int| 0 <= i < entries.len() implies (#[trigger] entries[i]).0.key_bytes()
            != key.key_bytes() by {
            assert(!holds_key(entries, key, i));
        }
    }
}

/// The number of buckets is the number of entries divided by `LAMBDA`,
/// rounded up: the least count whose `LAMBDA`-fold covers every entry.
pub proof fn lemma_num_buckets_is_ceiling(n: int)
    requires
        0 <= n,
    ensures
        5 * spec_num_buckets(n) >= n,
        5 * (spec_num_buckets(n) - 1) < n,
        n == 0 ==> spec_num_buckets(n) == 0,
        n == 1 ==> spec_num_buckets(n) == 1,
{
}

/// A map under construction: what a finished map holds, ready to be turned
/// into a map or written out.
pub struct MapGenerator<K: PhfKey, V, H: ChdHasher> {
    map: ChdMap<K, V, H>,
}

impl<K: PhfKey, V, H: ChdHasher> MapGenerator<K, V, H> {
    /// The map that was generated.
    pub closed spec fn spec_map(&self) -> ChdMap<K, V, H> {
        self.map
    }

    /// The map that was generated.
    pub fn map(&self) -> (map: &ChdMap<K, V, H>)
        ensures
            *map == self.spec_map(),
            map.wf(),
    {
        proof {
            use_type_invariant(&self.map);
        }
        &self.map
    }

    /// Hands the generated map over.
    pub fn into_map(self) -> (map: ChdMap<K, V, H>)
        ensures
            map == self.spec_map(),
            map.wf(),
    {
        proof {
            use_type_invariant(&self.map);
        }
        self.map
    }
}

impl<K: PhfKey, V, H: ChdHasher<Seed = (u64, u64, u64, u64)>> MapGenerator<K, V, H> {
    /// Generates a map from `entries`, trying at most `DEFAULT_MAX_ATTEMPTS`
    /// seeds.
    pub fn from(entries: Vec<(K, V)>) -> (result: Result<Self, BuildError>)
        ensures
            entries@.len() > LANE_MAX <==> result matches Err(BuildError::KeyspaceExceeded),
            entries@.len() <= LANE_MAX && spec_has_duplicates(entry_keys(entries@))
                <==> result matches Err(BuildError::DuplicateKey),
            result matches Err(BuildError::ConstructionExhausted) ==> entries@.len() > 1,
            entries@.len() <= 1 ==> result.is_ok(),
            result matches Ok(generator) ==> generator.spec_map().wf()
                && generator.spec_map().spec_entries() == entries@
                && generator.spec_map().spec_disps().len() == spec_num_buckets(
                entries@.len() as int,
            ) && generator.spec_map().spec_indices().len() == entries@.len() && placed(
                generator.spec_map(),
            ),
    {
        Self::with_max_attempts(entries, DEFAULT_MAX_ATTEMPTS)
    }

    /// Generates a map from `entries`, trying at most `max_attempts` seeds.
    ///
    /// Too many entries are rejected first, then a repeated key. Otherwise
    /// seeds are tried in stream order; the map is generated under the first
    /// that gives a placement, and holds the entries in the order given.
    pub fn with_max_attempts(entries: Vec<(K, V)>, max_attempts: usize) -> (result: Result<
        Self,
        BuildError,
    >)
        ensures
            entries@.len() > LANE_MAX <==> result matches Err(BuildError::KeyspaceExceeded),
            entries@.len() <= LANE_MAX && spec_has_duplicates(entry_keys(entries@))
                <==> result matches Err(BuildError::DuplicateKey),
            result matches Err(BuildError::ConstructionExhausted) ==> max_attempts == 0
                || entries@.len() > 1,
            entries@.len() <= 1 && max_attempts > 0 ==> result.is_ok(),
            result matches Ok(generator) ==> generator.spec_map().wf()
                && generator.spec_map().spec_entries() == entries@
                && generator.spec_map().spec_disps().len() == spec_num_buckets(
                entries@.len() as int,
            ) && generator.spec_map().spec_indices().len() == entries@.len() && placed(
                generator.spec_map(),
            ),
    {
        if entries.len() > lane_into_usize(lane_max_value()) {
            return Err(BuildError::KeyspaceExceeded);
        }
        let mut keys: Vec<&K> = Vec::with_capacity(entries.len());
        let mut i: usize = 0;
        while i < entries.len()
            invariant
                i <= entries@.len(),
                keys@.len() == i,
                forall|j: int| 0 <= j < i ==> *(#[trigger] keys@[j]) == entries@[j].0,
            decreases entries@.len() - i,
        {
            keys.push(&entries[i].0);
            i += 1;
        }
        proof {
            let given = entry_keys(entries@);
            assert forall|a: int, b: int|
                0 <= a < b < given.len() && (#[trigger] given[a]).key_bytes()
                    == (#[trigger] given[b]).key_bytes() implies spec_has_duplicates(keys@) by {
                assert(keys@[a].key_bytes() == keys@[b].key_bytes());
            }
            if spec_has_duplicates(keys@) {
                let (a, b) = choose|a: int, b: int|
                    0 <= a < b < keys@.len() && (#[trigger] keys@[a]).key_bytes()
                        == (#[trigger] keys@[b]).key_bytes();
                assert(given[a].key_bytes() == given[b].key_bytes());
            }
        }
        if has_duplicates(keys.as_slice()) {
            return Err(BuildError::DuplicateKey);
        }
        match generate::<&K, H>(keys.as_slice(), max_attempts) {
            None => Err(BuildError::ConstructionExhausted),
            Some((seed, state)) => {
                proof {
                    assert(key_hashes::<&K, H>(keys@, seed) =~= key_hashes::<K, H>(
                        entry_keys(entries@),
                        seed,
                    ));
                }
                let map = ChdMap {
                    seed,
                    disps: state.displacements,
                    indices: state.indices,
                    entries,
                };
                Ok(MapGenerator { map })
            },
        }
    }
}

/// Whether the table and permutation of `map` are the ones that the search
/// gives for the map's keys under the map's seed.
pub open spec fn placed<K: PhfKey, V, H: ChdHasher>(map: ChdMap<K, V, H>) -> bool {
    spec_placement(key_hashes::<K, H>(entry_keys(map.spec_entries()), map.spec_seed())) == Some(
        (map.spec_disps(), map.spec_indices()),
    )
}

impl<K: PhfKey, V, H: ChdHasher<Seed = (u64, u64, u64, u64)>> ChdMap<K, V, H> {
    /// Builds a map from `entries`.
    ///
    /// Too many entries are rejected first, then a repeated key. The map
    /// holds the entries in the order given.
    pub fn from_iter(entries: Vec<(K, V)>) -> (result: Result<Self, BuildError>)
        ensures
            entries@.len() > LANE_MAX <==> result matches Err(BuildError::KeyspaceExceeded),
            entries@.len() <= LANE_MAX && spec_has_duplicates(entry_keys(entries@))
                <==> result matches Err(BuildError::DuplicateKey),
            result matches Err(BuildError::ConstructionExhausted) ==> entries@.len() > 1,
            entries@.len() <= 1 ==> result.is_ok(),
            result matches Ok(map) ==> map.wf() && map.spec_entries() == entries@
                && map.spec_disps().len() == spec_num_buckets(entries@.len() as int)
                && map.spec_indices().len() == entries@.len() && placed(map),
    {
        match MapGenerator::<K, V, H>::from(entries) {
            Ok(generator) => Ok(generator.into_map()),
            Err(error) => Err(error),
        }
    }
}

} // verus!
