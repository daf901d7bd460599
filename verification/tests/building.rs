use phf_chd::generate::draw_seeds;
use phf_chd::generate::generate;
use phf_chd::generate::generate_with_seeds;
use phf_chd::generate::hash_all;
use phf_chd::generate::try_generate;
use phf_chd::generate::try_seed;
use phf_chd::generate::DEFAULT_MAX_ATTEMPTS;
use phf_chd::generate::FIXED_SEED;
use phf_chd::hash::hash;
use phf_chd::hash::AHasher;
use phf_chd::lanes::displace;
use phf_chd::map::BuildError;
use phf_chd::map::ChdMap;
use phf_chd::map::MapGenerator;
use phf_chd::map::PhfMap;
use rand::distributions::Standard;
use rand::rngs::SmallRng;
use rand::Rng;
use rand::SeedableRng;

fn numbered(count: u32) -> Vec<(u32, u32)> {
    (0..count).map(|i| (i.wrapping_mul(2654435761), i)).collect()
}

fn build(entries: Vec<(u32, u32)>) -> ChdMap<u32, u32, AHasher> {
    ChdMap::from_iter(entries).unwrap()
}

#[test]
fn every_given_key_is_found_with_its_value() {
    for count in [0u32, 1, 2, 3, 4, 5, 6, 7, 16, 100, 333] {
        let entries = numbered(count);
        let map = build(entries.clone());
        for (key, value) in &entries {
            assert_eq!(map.get_entry(key), Some((key, value)));
        }
    }
}

#[test]
fn lookup_never_gives_another_key() {
    let map = build(numbered(200));
    let mut found = 0;
    for query in 0..5000u32 {
        match map.get_entry(&query) {
            Some((key, _)) => {
                assert_eq!(*key, query);
                found += 1;
            }
            None => assert!(numbered(200).iter().all(|(key, _)| *key != query)),
        }
    }
    assert_eq!(found, numbered(200).iter().filter(|(key, _)| *key < 5000).count());
}

#[test]
fn get_and_get_entry_agree() {
    let map = build(numbered(50));
    for query in 0..300u32 {
        assert_eq!(map.get(&query), map.get_entry(&query));
    }
}

#[test]
fn building_twice_gives_the_same_map() {
    let first = build(numbered(300));
    let second = build(numbered(300));
    assert_eq!(first.seed(), second.seed());
    assert_eq!(first.disps(), second.disps());
    assert_eq!(first.indices(), second.indices());
    assert_eq!(first.entries(), second.entries());
}

#[test]
fn entries_keep_their_order_and_bucket_count_is_rounded_up() {
    for count in [0u32, 1, 4, 5, 6, 10, 11, 99, 100, 101] {
        let entries = numbered(count);
        let map = build(entries.clone());
        assert_eq!(map.entries(), &entries);
        assert_eq!(map.len(), count as usize);
        assert_eq!(map.indices().len(), count as usize);
        assert_eq!(map.disps().len(), (count as usize + 4) / 5);
    }
}

#[test]
fn indices_are_a_permutation_that_resolves_every_key() {
    let entries = numbered(250);
    let map = build(entries.clone());
    let mut seen = vec![false; entries.len()];
    for &index in map.indices() {
        assert!(!seen[index]);
        seen[index] = true;
    }
    for (i, (key, _)) in entries.iter().enumerate() {
        let triple = hash::<u32, AHasher>(key, map.seed());
        let d = map.disps()[triple.0 as usize % map.disps().len()];
        let slot = displace(triple.1, triple.2, d.0, d.1) as usize % entries.len();
        assert_eq!(map.indices()[slot], i);
    }
}

#[test]
fn duplicate_key_is_rejected() {
    let result = ChdMap::<u32, u32, AHasher>::from_iter(vec![(1, 10), (2, 20), (1, 30)]);
    assert_eq!(result.err(), Some(BuildError::DuplicateKey));
    let result = MapGenerator::<&str, u8, AHasher>::from(vec![("a", 1), ("a", 1)]);
    assert_eq!(result.err(), Some(BuildError::DuplicateKey));
    let result = MapGenerator::<u8, u8, AHasher>::with_max_attempts(vec![(9, 1), (9, 2)], 0);
    assert_eq!(result.err(), Some(BuildError::DuplicateKey));
}

#[test]
fn too_many_entries_are_rejected() {
    let entries: Vec<(u32, u32)> = (0..65536).map(|i| (i, i)).collect();
    let result = ChdMap::<u32, u32, AHasher>::from_iter(entries);
    assert_eq!(result.err(), Some(BuildError::KeyspaceExceeded));
}

#[test]
fn size_is_checked_before_duplicates() {
    let entries: Vec<(u32, u32)> = (0..65536).map(|i| (i % 7, i)).collect();
    let result = ChdMap::<u32, u32, AHasher>::from_iter(entries);
    assert_eq!(result.err(), Some(BuildError::KeyspaceExceeded));
}

#[test]
fn no_attempts_means_exhausted() {
    let result = MapGenerator::<u32, u32, AHasher>::with_max_attempts(numbered(2), 0);
    assert_eq!(result.err(), Some(BuildError::ConstructionExhausted));
    let result = MapGenerator::<u32, u32, AHasher>::with_max_attempts(numbered(0), 0);
    assert_eq!(result.err(), Some(BuildError::ConstructionExhausted));
}

#[test]
fn one_attempt_is_enough_for_at_most_one_key() {
    let empty = MapGenerator::<u32, u32, AHasher>::with_max_attempts(numbered(0), 1).unwrap();
    assert_eq!(empty.map().len(), 0);
    let single = MapGenerator::<u32, u32, AHasher>::with_max_attempts(vec![(77, 88)], 1).unwrap();
    assert_eq!(single.map().get_entry(&77), Some((&77, &88)));
}

#[test]
fn empty_map_has_no_buckets_and_finds_nothing() {
    let map = build(Vec::new());
    assert_eq!(map.disps().len(), 0);
    assert_eq!(map.indices().len(), 0);
    assert_eq!(map.entries().len(), 0);
    for query in [0u32, 1, 42, u32::MAX] {
        assert_eq!(map.get_entry(&query), None);
    }
}

#[test]
fn single_entry_has_one_bucket() {
    let map = build(vec![(5, 6)]);
    assert_eq!(map.disps(), &vec![(0, 0)]);
    assert_eq!(map.indices(), &vec![0]);
    assert_eq!(map.get_entry(&5), Some((&5, &6)));
    assert_eq!(map.get_entry(&6), None);
}

#[test]
fn generator_and_map_hold_the_same() {
    let generator = MapGenerator::<u32, u32, AHasher>::from(numbered(40)).unwrap();
    let seed = *generator.map().seed();
    let disps = generator.map().disps().clone();
    let indices = generator.map().indices().clone();
    let map = generator.into_map();
    assert_eq!(*map.seed(), seed);
    assert_eq!(*map.disps(), disps);
    assert_eq!(*map.indices(), indices);
    assert_eq!(*map.entries(), numbered(40));
}

#[test]
fn seeds_come_from_the_fixed_stream() {
    let expected: Vec<(u64, u64, u64, u64)> =
        SmallRng::seed_from_u64(FIXED_SEED).sample_iter(Standard).take(5).collect();
    assert_eq!(draw_seeds(5), expected);
    assert_eq!(draw_seeds(0), Vec::new());
    assert_eq!(draw_seeds(3), expected[..3].to_vec());
    assert_eq!(FIXED_SEED, 42);
    assert_eq!(DEFAULT_MAX_ATTEMPTS, 1000);
}

#[test]
fn map_seed_is_the_first_that_succeeds() {
    let entries = numbered(400);
    let keys: Vec<u32> = entries.iter().map(|entry| entry.0).collect();
    let map = build(entries);
    let seeds = draw_seeds(DEFAULT_MAX_ATTEMPTS);
    let position = seeds.iter().position(|seed| seed == map.seed()).unwrap();
    for seed in &seeds[..position] {
        assert!(try_seed::<u32, AHasher>(&keys, seed).is_none());
    }
    let state = try_seed::<u32, AHasher>(&keys, &seeds[position]).unwrap();
    assert_eq!(&state.displacements, map.disps());
    assert_eq!(&state.indices, map.indices());
}

#[test]
fn first_success_among_given_seeds() {
    let keys: Vec<u32> = numbered(120).iter().map(|entry| entry.0).collect();
    let seeds = draw_seeds(20);
    let (position, state) = generate_with_seeds::<u32, AHasher>(&keys, &seeds).unwrap();
    for seed in &seeds[..position] {
        assert!(try_seed::<u32, AHasher>(&keys, seed).is_none());
    }
    let direct = try_generate(&hash_all::<u32, AHasher>(&keys, &seeds[position])).unwrap();
    assert_eq!(state.displacements, direct.displacements);
    assert_eq!(state.indices, direct.indices);

    let (seed, same) = generate::<u32, AHasher>(&keys, 20).unwrap();
    assert_eq!(seed, seeds[position]);
    assert_eq!(same.displacements, state.displacements);
    assert_eq!(same.indices, state.indices);
}

#[test]
fn no_seed_places_equal_keys() {
    let keys = vec![5u32, 5];
    let seeds = draw_seeds(8);
    assert!(generate_with_seeds::<u32, AHasher>(&keys, &seeds).is_none());
    assert!(generate_with_seeds::<u32, AHasher>(&keys, &[]).is_none());
    assert!(generate::<u32, AHasher>(&keys, 8).is_none());
    assert!(generate::<u32, AHasher>(&[1, 2, 3], 0).is_none());
}

#[test]
fn hashes_of_all_keys() {
    let seed = (1, 2, 3, 4);
    let keys = vec![10u32, 20, 30];
    let hashes = hash_all::<u32, AHasher>(&keys, &seed);
    assert_eq!(hashes.len(), 3);
    for (key, triple) in keys.iter().zip(&hashes) {
        assert_eq!(*triple, hash::<u32, AHasher>(key, &seed));
    }
    assert!(hash_all::<u32, AHasher>(&[], &seed).is_empty());
}

#[test]
fn keys_of_several_types() {
    let strings = ChdMap::<String, u8, AHasher>::from_iter(vec![
        (String::from("one"), 1),
        (String::from("two"), 2),
        (String::from("three"), 3),
    ])
    .unwrap();
    assert_eq!(strings.get_entry(&String::from("two")), Some((&String::from("two"), &2)));
    assert_eq!(strings.get_entry(&String::from("four")), None);

    let bytes =
        ChdMap::<Vec<u8>, u8, AHasher>::from_iter(vec![(vec![], 0), (vec![0], 1), (vec![0, 0], 2)])
            .unwrap();
    assert_eq!(bytes.get_entry(&vec![0]), Some((&vec![0], &1)));
    assert_eq!(bytes.get_entry(&vec![]), Some((&vec![], &0)));
    assert_eq!(bytes.get_entry(&vec![1]), None);

    let wide = ChdMap::<u64, &str, AHasher>::from_iter(vec![(1 << 40, "high"), (1, "low")]).unwrap();
    assert_eq!(wide.get_entry(&(1 << 40)), Some((&(1 << 40), &"high")));
    assert_eq!(wide.get_entry(&2), None);

    let short = ChdMap::<u16, u16, AHasher>::from_iter(vec![(256, 1), (1, 256)]).unwrap();
    assert_eq!(short.get_entry(&256), Some((&256, &1)));
    assert_eq!(short.get_entry(&1), Some((&1, &256)));
}

#[test]
fn parts_of_a_built_map_form_a_map() {
    let built = build(numbered(60));
    let map = ChdMap::<u32, u32, AHasher>::from_parts(
        *built.seed(),
        built.disps().clone(),
        built.indices().clone(),
        built.entries().clone(),
    )
    .unwrap();
    assert_eq!(map.seed(), built.seed());
    assert_eq!(map.disps(), built.disps());
    assert_eq!(map.indices(), built.indices());
    assert_eq!(map.entries(), built.entries());
    for query in 0..500u32 {
        assert_eq!(map.get_entry(&query), built.get_entry(&query));
    }
    let empty = ChdMap::<u32, u32, AHasher>::from_parts((0, 0, 0, 0), vec![], vec![], vec![]);
    assert_eq!(empty.unwrap().get_entry(&1), None);
}

#[test]
fn parts_that_do_not_resolve_are_refused() {
    let built = build(numbered(60));
    let seed = *built.seed();
    let disps = built.disps().clone();
    let indices = built.indices().clone();
    let entries = built.entries().clone();

    let mut swapped = indices.clone();
    swapped.swap(0, 1);
    assert!(ChdMap::<u32, u32, AHasher>::from_parts(seed, disps.clone(), swapped, entries.clone())
        .is_none());

    let mut out_of_range = indices.clone();
    out_of_range[3] = 60;
    assert!(ChdMap::<u32, u32, AHasher>::from_parts(
        seed,
        disps.clone(),
        out_of_range,
        entries.clone()
    )
    .is_none());

    let mut short = disps.clone();
    short.pop();
    assert!(ChdMap::<u32, u32, AHasher>::from_parts(seed, short, indices.clone(), entries.clone())
        .is_none());

    let mut fewer = indices.clone();
    fewer.pop();
    assert!(ChdMap::<u32, u32, AHasher>::from_parts(seed, disps.clone(), fewer, entries.clone())
        .is_none());

    let mut other_key = entries.clone();
    other_key[5].0 = 123456789;
    assert!(ChdMap::<u32, u32, AHasher>::from_parts(seed, disps.clone(), indices.clone(), other_key)
        .is_none());

    let mut other_value = entries.clone();
    other_value[5].1 = 1;
    let map = ChdMap::<u32, u32, AHasher>::from_parts(seed, disps, indices, other_value).unwrap();
    assert_eq!(map.get_entry(&entries[5].0), Some((&entries[5].0, &1)));
}

#[test]
fn too_many_parts_are_refused() {
    let entries: Vec<(u32, u32)> = (0..65536).map(|i| (i, i)).collect();
    let indices: Vec<usize> = (0..65536).collect();
    let disps = vec![(0, 0); 13108];
    assert!(ChdMap::<u32, u32, AHasher>::from_parts((1, 2, 3, 4), disps, indices, entries).is_none());
}
