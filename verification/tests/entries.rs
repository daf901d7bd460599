use phf_chd::generate::FIXED_SEED;
use phf_chd::hash::AHasher;
use phf_chd::map::ChdMap;
use phf_chd::map::MapGenerator;
use phf_chd::map::PhfMap;
use rand::distributions::Standard;
use rand::rngs::SmallRng;
use rand::Rng;
use rand::SeedableRng;

fn one() -> Vec<(u8, u8)> {
    vec![(123, 45)]
}

fn multiple() -> Vec<(&'static str, u32)> {
    vec![("foo", 1234), ("bar", 5678), ("baz", 42424242), ("qux", 0)]
}

fn many(count: usize) -> Vec<(u32, u32)> {
    SmallRng::seed_from_u64(FIXED_SEED)
        .sample_iter(Standard)
        .take(count)
        .collect()
}

fn arrays(count: usize) -> Vec<(Vec<u8>, u32)> {
    let pairs: Vec<([u8; 8], u32)> = SmallRng::seed_from_u64(FIXED_SEED)
        .sample_iter(Standard)
        .take(count)
        .collect();
    pairs.into_iter().map(|(key, value)| (key.to_vec(), value)).collect()
}

#[test]
fn entry_one_entry_one() {
    let entries = one();

    let map = ChdMap::<_, _, AHasher>::from_iter(one()).unwrap();

    assert_eq!(map.indices().len(), entries.len());
    assert_eq!(map.entries().len(), entries.len());
    assert_eq!(map.get_entry(&123), Some((&123, &45)));
}

#[test]
fn entry_multiple_entry_multiple() {
    let entries = multiple();

    let map = ChdMap::<_, _, AHasher>::from_iter(multiple()).unwrap();

    assert_eq!(map.indices().len(), entries.len());
    assert_eq!(map.entries().len(), entries.len());
    assert_eq!(map.get_entry(&"foo"), Some((&"foo", &1234)));
    assert_eq!(map.get_entry(&"bar"), Some((&"bar", &5678)));
    assert_eq!(map.get_entry(&"baz"), Some((&"baz", &42424242)));
    assert_eq!(map.get_entry(&"qux"), Some((&"qux", &0)));
    assert_eq!(map.get_entry(&"other"), None);
}

#[test]
fn entry_10k_entry_many() {
    const MAP_LENGTH: usize = 10000;

    let map = ChdMap::<u32, u32, AHasher>::from_iter(many(MAP_LENGTH)).unwrap();

    assert_eq!(map.indices().len(), MAP_LENGTH);
    assert_eq!(map.entries().len(), MAP_LENGTH);
    for entry in map.entries() {
        assert_eq!(map.get_entry(&entry.0), Some((&entry.0, &entry.1)))
    }
}

#[test]
fn mod_entry_one() {
    let entries = one();

    let map = ChdMap::<_, _, AHasher>::from_iter(one()).unwrap();

    assert_eq!(map.indices().len(), entries.len());
    assert_eq!(map.entries().len(), entries.len());
    assert_eq!(map.get_entry(&123), Some((&123, &45)));
}

#[test]
fn mod_entry_multiple() {
    let entries = multiple();

    let map = ChdMap::<_, _, AHasher>::from_iter(multiple()).unwrap();

    assert_eq!(map.indices().len(), entries.len());
    assert_eq!(map.entries().len(), entries.len());
    assert_eq!(map.get_entry(&"foo"), Some((&"foo", &1234)));
    assert_eq!(map.get_entry(&"bar"), Some((&"bar", &5678)));
    assert_eq!(map.get_entry(&"baz"), Some((&"baz", &42424242)));
    assert_eq!(map.get_entry(&"qux"), Some((&"qux", &0)));
    assert_eq!(map.get_entry(&"other"), None);
}

#[test]
fn mod_entry_many() {
    const MAP_LENGTH: usize = 10000;

    let map = ChdMap::<u32, u32, AHasher>::from_iter(many(MAP_LENGTH)).unwrap();

    assert_eq!(map.indices().len(), MAP_LENGTH);
    assert_eq!(map.entries().len(), MAP_LENGTH);
    for entry in map.entries() {
        assert_eq!(map.get_entry(&entry.0), Some((&entry.0, &entry.1)))
    }
}

#[test]
fn map_one() {
    let map = MapGenerator::<u8, u8, AHasher>::from(one()).unwrap().into_map();

    assert_eq!(map.get_entry(&123), Some((&123, &45)));
    assert_eq!(map.get_entry(&0), None);
}

#[test]
fn map_multiple() {
    let map = MapGenerator::<&'static str, u32, AHasher>::from(multiple()).unwrap().into_map();

    assert_eq!(map.get_entry(&"foo"), Some((&"foo", &1234)));
    assert_eq!(map.get_entry(&"bar"), Some((&"bar", &5678)));
    assert_eq!(map.get_entry(&"baz"), Some((&"baz", &42424242)));
    assert_eq!(map.get_entry(&"qux"), Some((&"qux", &0)));
    assert_eq!(map.get_entry(&"other"), None);
}

#[test]
fn map_arrays() {
    let map = MapGenerator::<Vec<u8>, u32, AHasher>::from(arrays(1000)).unwrap().into_map();

    assert_eq!(map.entries().len(), 1000);

    for entry in map.entries() {
        assert_eq!(map.get_entry(&entry.0), Some((&entry.0, &entry.1)));
    }
}

#[test]
fn map_many() {
    let map = MapGenerator::<u32, u32, AHasher>::from(many(10000)).unwrap().into_map();

    assert_eq!(map.entries().len(), 10000);

    for entry in map.entries() {
        assert_eq!(map.get_entry(&entry.0), Some((&entry.0, &entry.1)));
    }
}
