use phf_chd::buckets::assign_buckets;
use phf_chd::buckets::num_buckets;
use phf_chd::buckets::sort_buckets;
use phf_chd::buckets::Bucket;
use phf_chd::generate::try_generate;
use phf_chd::lanes::displace;
use phf_chd::search::commit;
use phf_chd::search::find_displacement;
use phf_chd::search::try_candidate;

fn bucket_with(index: usize, keys: &[usize]) -> Bucket {
    let mut bucket = Bucket::new(index);
    for &key in keys {
        bucket.keys.push(key);
    }
    bucket
}

fn check_perfect(hashes: &[(u16, u16, u16)], disps: &[(u16, u16)], indices: &[usize]) {
    let n = hashes.len();
    assert_eq!(disps.len(), (n + 4) / 5);
    assert_eq!(indices.len(), n);
    for (i, h) in hashes.iter().enumerate() {
        let d = disps[h.0 as usize % disps.len()];
        let slot = displace(h.1, h.2, d.0, d.1) as usize % n;
        assert_eq!(indices[slot], i);
    }
}

#[test]
fn new_bucket_is_empty() {
    let bucket = Bucket::new(3);
    assert_eq!(bucket.index, 3);
    assert!(bucket.keys.is_empty());
}

#[test]
fn bucket_count_is_rounded_up() {
    assert_eq!(num_buckets(0), 0);
    assert_eq!(num_buckets(1), 1);
    assert_eq!(num_buckets(4), 1);
    assert_eq!(num_buckets(5), 1);
    assert_eq!(num_buckets(6), 2);
    assert_eq!(num_buckets(10), 2);
    assert_eq!(num_buckets(11), 3);
    assert_eq!(num_buckets(10000), 2000);
    assert_eq!(num_buckets(65535), 13107);
    assert_eq!(num_buckets(usize::MAX), usize::MAX / 5);
    assert_eq!(num_buckets(usize::MAX - 1), usize::MAX / 5);
    assert_eq!(num_buckets(usize::MAX - 5), usize::MAX / 5 - 1);
}

#[test]
fn keys_go_to_the_bucket_of_their_first_lane() {
    let hashes = vec![(0, 9, 9), (1, 9, 9), (2, 9, 9), (3, 9, 9), (4, 9, 9), (5, 9, 9)];
    let buckets = assign_buckets(&hashes);
    assert_eq!(buckets.len(), 2);
    assert_eq!(buckets[0].index, 0);
    assert_eq!(buckets[0].keys, vec![0, 2, 4]);
    assert_eq!(buckets[1].index, 1);
    assert_eq!(buckets[1].keys, vec![1, 3, 5]);
    assert!(assign_buckets(&vec![]).is_empty());
}

#[test]
fn larger_buckets_come_first() {
    let hashes = vec![(1, 0, 0), (1, 0, 0), (1, 0, 0), (1, 0, 0), (0, 0, 0), (1, 0, 0)];
    let sorted = sort_buckets(assign_buckets(&hashes), &hashes);
    assert_eq!(sorted.len(), 2);
    assert_eq!(sorted[0].index, 1);
    assert_eq!(sorted[0].keys, vec![0, 1, 2, 3, 5]);
    assert_eq!(sorted[1].index, 0);
    assert_eq!(sorted[1].keys, vec![4]);
}

#[test]
fn buckets_of_one_size_keep_index_order() {
    let mut hashes = Vec::new();
    for i in 0..11u16 {
        let bucket = match i {
            0..=3 => 1,
            4..=7 => 2,
            _ => 0,
        };
        hashes.push((bucket, 0, 0));
    }
    let sorted = sort_buckets(assign_buckets(&hashes), &hashes);
    let order: Vec<usize> = sorted.iter().map(|bucket| bucket.index).collect();
    assert_eq!(order, vec![1, 2, 0]);
    assert!(sorted[0].goes_before(&sorted[1]));
    assert!(!sorted[1].goes_before(&sorted[0]));
    assert!(sorted[1].goes_before(&sorted[2]));
    assert!(!sorted[0].goes_before(&sorted[0]));
}

#[test]
fn candidate_is_refused_on_collision_within_the_bucket() {
    let hashes = vec![(0, 1, 0), (0, 2, 0)];
    let bucket = bucket_with(0, &[0, 1]);
    let map = vec![None, None];
    let mut scratch = vec![0u64, 0];
    let mut additions = Vec::new();
    assert!(!try_candidate(&hashes, &bucket, &(0, 0), &map, &mut scratch, 1, &mut additions));
    assert!(!try_candidate(&hashes, &bucket, &(0, 1), &map, &mut scratch, 2, &mut additions));
    assert!(try_candidate(&hashes, &bucket, &(1, 0), &map, &mut scratch, 3, &mut additions));
    assert_eq!(additions, vec![(1, 0), (0, 1)]);
    assert_eq!(scratch, vec![3, 3]);
}

#[test]
fn candidate_is_refused_on_a_taken_slot() {
    let hashes = vec![(0, 1, 0), (0, 2, 0), (0, 0, 0)];
    let bucket = bucket_with(0, &[0, 1, 2]);
    let free = vec![None, None, None];
    let taken = vec![None, Some(7), None];
    let mut scratch = vec![0u64, 0, 0];
    let mut additions = Vec::new();
    assert!(try_candidate(&hashes, &bucket, &(2, 0), &free, &mut scratch, 1, &mut additions));
    assert_eq!(additions, vec![(2, 0), (1, 1), (0, 2)]);
    assert!(!try_candidate(&hashes, &bucket, &(2, 0), &taken, &mut scratch, 2, &mut additions));
}

#[test]
fn first_fitting_pair_is_found() {
    let hashes = vec![(0, 1, 0), (0, 2, 0)];
    let bucket = bucket_with(0, &[0, 1]);
    let map = vec![None, None];
    let mut scratch = vec![0u64, 0];
    let mut generation = 0u64;
    let mut additions = Vec::new();
    let found = find_displacement(
        &hashes,
        &bucket,
        &map,
        &mut scratch,
        &mut generation,
        &mut additions,
    );
    assert_eq!(found, Some((1, 0)));
    assert_eq!(generation, 3);
    assert_eq!(additions, vec![(1, 0), (0, 1)]);
}

#[test]
fn search_reports_when_no_pair_fits() {
    let hashes = vec![(0, 4, 4), (0, 4, 4)];
    let bucket = bucket_with(0, &[0, 1]);
    let map = vec![None, None];
    let mut scratch = vec![0u64, 0];
    let mut generation = 10u64;
    let mut additions = Vec::new();
    let found = find_displacement(
        &hashes,
        &bucket,
        &map,
        &mut scratch,
        &mut generation,
        &mut additions,
    );
    assert_eq!(found, None);
    assert_eq!(generation, 14);
}

#[test]
fn empty_bucket_takes_the_first_pair() {
    let hashes = vec![(0, 1, 0)];
    let bucket = bucket_with(0, &[0]);
    let map = vec![None];
    let mut scratch = vec![0u64];
    let mut generation = 0u64;
    let mut additions = vec![(5, 5)];
    let found = find_displacement(
        &hashes,
        &bucket,
        &map,
        &mut scratch,
        &mut generation,
        &mut additions,
    );
    assert_eq!(found, Some((0, 0)));
    assert_eq!(additions, vec![(0, 0)]);
}

#[test]
fn commit_stores_keys_in_their_slots() {
    let mut map = vec![None, Some(4), None, None];
    commit(&mut map, &vec![(3, 7), (0, 9)]);
    assert_eq!(map, vec![Some(9), Some(4), None, Some(7)]);
    commit(&mut map, &vec![]);
    assert_eq!(map, vec![Some(9), Some(4), None, Some(7)]);
}

#[test]
fn placement_of_no_keys() {
    let state = try_generate(&vec![]).unwrap();
    assert!(state.displacements.is_empty());
    assert!(state.indices.is_empty());
}

#[test]
fn placement_of_one_key() {
    let state = try_generate(&vec![(40000, 50000, 60000)]).unwrap();
    assert_eq!(state.displacements, vec![(0, 0)]);
    assert_eq!(state.indices, vec![0]);
}

#[test]
fn placement_of_two_keys() {
    let state = try_generate(&vec![(0, 0, 0), (0, 0, 1)]).unwrap();
    assert_eq!(state.displacements, vec![(0, 0)]);
    assert_eq!(state.indices, vec![0, 1]);

    let state = try_generate(&vec![(0, 1, 0), (0, 2, 0)]).unwrap();
    assert_eq!(state.displacements, vec![(1, 0)]);
    assert_eq!(state.indices, vec![1, 0]);
}

#[test]
fn placement_fails_for_equal_triples() {
    assert!(try_generate(&vec![(0, 0, 0), (0, 0, 0)]).is_none());
    assert!(try_generate(&vec![(3, 7, 9), (1, 1, 1), (3, 7, 9)]).is_none());
    assert!(try_generate(&vec![(0, 0, 0), (0, 0, 2)]).is_none());
}

#[test]
fn placement_over_two_buckets() {
    let hashes = vec![(0, 1, 0), (1, 1, 1), (2, 2, 1), (3, 5, 2), (4, 3, 3), (5, 0, 5)];
    let state = try_generate(&hashes).unwrap();
    assert_eq!(state.displacements, vec![(0, 0), (0, 3)]);
    assert_eq!(state.indices, vec![0, 2, 5, 4, 1, 3]);
    check_perfect(&hashes, &state.displacements, &state.indices);
}

#[test]
fn placement_takes_the_larger_bucket_first() {
    let hashes = vec![(1, 0, 0), (1, 0, 1), (1, 0, 2), (1, 0, 3), (0, 7, 0), (1, 0, 4)];
    let state = try_generate(&hashes).unwrap();
    assert_eq!(state.displacements, vec![(0, 5), (0, 0)]);
    assert_eq!(state.indices, vec![0, 1, 2, 3, 5, 4]);
    check_perfect(&hashes, &state.displacements, &state.indices);
}

#[test]
fn placement_of_seven_keys() {
    let hashes =
        vec![(0, 1, 0), (1, 4, 1), (2, 2, 1), (3, 5, 2), (4, 3, 3), (5, 0, 5), (7, 9, 9)];
    let state = try_generate(&hashes).unwrap();
    assert_eq!(state.displacements, vec![(1, 1), (3, 0)]);
    assert_eq!(state.indices, vec![4, 6, 0, 3, 2, 5, 1]);
}

#[test]
fn placement_does_not_go_back_to_an_earlier_bucket() {
    let hashes = vec![(0, 1, 0), (1, 1, 0), (2, 2, 1), (3, 5, 2), (4, 3, 3), (5, 0, 5)];
    assert!(try_generate(&hashes).is_none());
}

#[test]
fn placement_of_many_triples_is_perfect() {
    let mut hashes = Vec::new();
    let mut x: u64 = 1;
    for _ in 0..500 {
        x = x.wrapping_mul(6364136223846793005).wrapping_add(1442695040888963407);
        hashes.push(((x >> 48) as u16, (x >> 32) as u16, (x >> 16) as u16));
    }
    let state = try_generate(&hashes).unwrap();
    check_perfect(&hashes, &state.displacements, &state.indices);
    let again = try_generate(&hashes).unwrap();
    assert_eq!(state.displacements, again.displacements);
    assert_eq!(state.indices, again.indices);
}
