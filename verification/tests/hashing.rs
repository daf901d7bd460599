use core::hash::BuildHasher;
use core::hash::Hasher;
use phf_chd::dedup::has_duplicates;
use phf_chd::hash::hash;
use phf_chd::hash::split;
use phf_chd::hash::AHasher;
use phf_chd::hash::ChdHasher;
use phf_chd::hash::Seedable;
use phf_chd::keys::bytes_equal;
use phf_chd::keys::copy_bytes;
use phf_chd::keys::PhfKey;
use phf_chd::lanes::displace;
use phf_chd::search::slot_of;

const SEED: (u64, u64, u64, u64) = (11, 22, 33, 44);

fn reference_hash(seed: (u64, u64, u64, u64), bytes: &[u8]) -> u64 {
    let mut state = ahash::RandomState::with_seeds(seed.0, seed.1, seed.2, seed.3).build_hasher();
    state.write(bytes);
    state.finish()
}

#[test]
fn displace_small_values() {
    assert_eq!(displace(3, 4, 5, 6), 25);
    assert_eq!(displace(0, 0, 0, 0), 0);
    assert_eq!(displace(7, 1, 0, 2), 3);
}

#[test]
fn displace_wraps_around() {
    assert_eq!(displace(256, 0, 256, 0), 0);
    assert_eq!(displace(65535, 65535, 65535, 65535), 65535);
    assert_eq!(displace(0, 65535, 0, 1), 0);
    assert_eq!(displace(2, 0, 32768, 5), 5);
}

#[test]
fn slot_is_displacement_modulo_table_length() {
    assert_eq!(slot_of(&(9, 3, 4), &(5, 6), 7), 4);
    assert_eq!(slot_of(&(9, 3, 4), &(5, 6), 1), 0);
    assert_eq!(slot_of(&(0, 65535, 65535), &(65535, 65535), 1000), 535);
}

#[test]
fn split_takes_three_lanes() {
    assert_eq!(split(0x0123_4567_89AB_CDEF), (0x4567, 0x89AB, 0xCDEF));
    assert_eq!(split(0), (0, 0, 0));
    assert_eq!(split(u64::MAX), (0xFFFF, 0xFFFF, 0xFFFF));
    assert_eq!(split(0xFFFF_0000_0000_0000), (0, 0, 0));
}

#[test]
fn hasher_agrees_with_ahash() {
    let mut hasher = AHasher::new_with_seed(&SEED);
    hasher.write(b"foo");
    assert_eq!(hasher.finish(), reference_hash(SEED, b"foo"));
    assert_eq!(hasher.finish_triple(), split(reference_hash(SEED, b"foo")));
}

#[test]
fn hasher_collects_writes() {
    let mut pieces = AHasher::new_with_seed(&SEED);
    pieces.write(b"foo");
    pieces.write(b"");
    pieces.write(b"bar");
    let mut whole = AHasher::new_with_seed(&SEED);
    whole.write(b"foobar");
    assert_eq!(pieces.finish(), whole.finish());
    assert_eq!(whole.finish(), reference_hash(SEED, b"foobar"));
}

#[test]
fn hasher_depends_on_seed_and_bytes() {
    let empty = AHasher::new_with_seed(&SEED);
    assert_eq!(empty.finish(), reference_hash(SEED, b""));
    let mut first = AHasher::new_with_seed(&SEED);
    first.write(b"foo");
    let mut other_seed = AHasher::new_with_seed(&(1, 2, 3, 4));
    other_seed.write(b"foo");
    let mut other_bytes = AHasher::new_with_seed(&SEED);
    other_bytes.write(b"fop");
    assert_ne!(first.finish(), other_seed.finish());
    assert_ne!(first.finish(), other_bytes.finish());
}

#[test]
fn hash_of_key_is_hash_of_its_bytes() {
    assert_eq!(hash::<u8, AHasher>(&123, &SEED), split(reference_hash(SEED, &[123])));
    assert_eq!(
        hash::<u32, AHasher>(&0x0102_0304, &SEED),
        split(reference_hash(SEED, &[4, 3, 2, 1]))
    );
    assert_eq!(hash::<&str, AHasher>(&"foo", &SEED), split(reference_hash(SEED, b"foo")));
    assert_eq!(
        hash::<String, AHasher>(&String::from("foo"), &SEED),
        hash::<&str, AHasher>(&"foo", &SEED)
    );
    assert_eq!(
        hash::<&u8, AHasher>(&&123, &SEED),
        hash::<u8, AHasher>(&123, &SEED)
    );
}

#[test]
fn key_bytes_of_numbers_are_little_endian() {
    assert_eq!(7u8.to_bytes(), vec![7]);
    assert_eq!(0x0102u16.to_bytes(), vec![2, 1]);
    assert_eq!(0x0102_0304u32.to_bytes(), vec![4, 3, 2, 1]);
    assert_eq!(0x0102_0304_0506_0708u64.to_bytes(), vec![8, 7, 6, 5, 4, 3, 2, 1]);
    assert_eq!(u64::MAX.to_bytes(), vec![255; 8]);
}

#[test]
fn key_bytes_of_strings_are_utf8() {
    assert_eq!("foo".to_bytes(), b"foo".to_vec());
    assert_eq!("é".to_bytes(), vec![0xC3, 0xA9]);
    assert_eq!(String::from("qux").to_bytes(), b"qux".to_vec());
    assert_eq!(vec![1u8, 2, 3].to_bytes(), vec![1, 2, 3]);
    assert_eq!("".to_bytes(), Vec::<u8>::new());
}

#[test]
fn same_key_compares_bytes() {
    assert!(5u8.same_key(&5));
    assert!(!5u8.same_key(&6));
    assert!(0x1_0000u32.same_key(&0x1_0000));
    assert!(!0x1_0000u32.same_key(&0x2_0000));
    assert!(!1u64.same_key(&(1 << 40)));
    assert!(300u16.same_key(&300));
    assert!(!300u16.same_key(&44));
    assert!("foo".same_key(&"foo"));
    assert!(!"foo".same_key(&"fo"));
    assert!(String::from("a").same_key(&String::from("a")));
    assert!(!String::from("a").same_key(&String::from("b")));
    assert!(vec![1u8, 2].same_key(&vec![1, 2]));
    assert!(!vec![1u8, 2].same_key(&vec![2, 1]));
    assert!((&5u8).same_key(&&5));
}

#[test]
fn byte_helpers() {
    assert!(bytes_equal(b"abc", b"abc"));
    assert!(bytes_equal(b"", b""));
    assert!(!bytes_equal(b"abc", b"abd"));
    assert!(!bytes_equal(b"abc", b"ab"));
    assert_eq!(copy_bytes(b"abc"), b"abc".to_vec());
    assert_eq!(copy_bytes(b""), Vec::<u8>::new());
}

#[test]
fn duplicates_are_detected() {
    assert!(!has_duplicates::<u32>(&[]));
    assert!(!has_duplicates(&[1u32]));
    assert!(!has_duplicates(&[1u32, 2, 3]));
    assert!(has_duplicates(&[1u32, 2, 1]));
    assert!(has_duplicates(&[7u32, 7]));
    assert!(has_duplicates(&["foo", "bar", "baz", "bar"]));
    assert!(!has_duplicates(&["foo", "bar", "baz", "qux"]));
    assert!(has_duplicates(&[&3u8, &4, &3]));
}

#[test]
fn duplicates_in_a_long_list() {
    let mut items: Vec<u32> = (0..70000).collect();
    assert!(!has_duplicates(&items));
    items.push(69999);
    assert!(has_duplicates(&items));
}
