use phf_generator::generator::{
    bytes_equal, clear_buckets, fill_hashes, has_duplicate_keys, key_bytes, place_all,
    try_generate_hash, GenCtxt, DEFAULT_MAX_ATTEMPTS, FIXED_SEED,
};
use phf_generator::planner::{bucket_count, bucket_order, fill_buckets, Bucket};
use phf_generator::solver::{commit_pairs, overwrite_all, place_bucket, try_pair};
use phf_generator::{
    generate_hash, generate_hash_from, generate_hash_with, get_index, hash, GenerateError,
    HashKey, HashState, Hashes, PhfHash,
};
use rand::rngs::SmallRng;
use rand::{Rng, SeedableRng};
use std::collections::HashSet;

fn words(names: &[&str]) -> Vec<String> {
    names.iter().map(|s| s.to_string()).collect()
}

fn check_table<H: PhfHash>(entries: &[H], state: &HashState) {
    let n = entries.len();
    assert_eq!(state.map.len(), n);
    assert_eq!(state.disps.len(), (n + 4) / 5);
    let mut seen = vec![false; n];
    for &k in &state.map {
        assert!(k < n);
        assert!(!seen[k]);
        seen[k] = true;
    }
    for (i, entry) in entries.iter().enumerate() {
        let h = hash(entry, &state.key);
        let slot = get_index(&h, &state.disps, n) as usize;
        assert_eq!(state.map[slot], i);
    }
}

#[test]
fn six_keys_worked_example() {
    let keys = words(&["a", "b", "c", "d", "e", "f"]);
    let state = generate_hash(&keys).unwrap();
    assert_eq!(state.disps.len(), 2);
    let mut sorted = state.map.clone();
    sorted.sort();
    assert_eq!(sorted, vec![0, 1, 2, 3, 4, 5]);
    check_table(&keys, &state);
}

#[test]
fn six_keys_buckets_partition_the_indices() {
    let keys = words(&["a", "b", "c", "d", "e", "f"]);
    let key: HashKey = [1, 2, 3];
    let mut ctxt = GenCtxt::new(keys.len());
    assert_eq!(ctxt.buckets.len(), 2);
    fill_hashes(&keys, &key, &mut ctxt.hashes);
    fill_buckets(&ctxt.hashes, &mut ctxt.buckets);
    let mut all: Vec<usize> = Vec::new();
    for (b, bucket) in ctxt.buckets.iter().enumerate() {
        assert_eq!(bucket.idx, b);
        for &k in &bucket.keys {
            assert_eq!((ctxt.hashes[k].g % 2) as usize, b);
            all.push(k);
        }
    }
    all.sort();
    assert_eq!(all, vec![0, 1, 2, 3, 4, 5]);
}

#[test]
fn empty_input_gives_empty_table() {
    let keys: Vec<String> = Vec::new();
    let state = generate_hash(&keys).unwrap();
    assert!(state.disps.is_empty());
    assert!(state.map.is_empty());
    let state = generate_hash_with(&keys, 7, 0).unwrap();
    assert!(state.disps.is_empty());
    assert!(state.map.is_empty());
}

#[test]
fn single_key_gives_single_slot() {
    let keys = words(&["only"]);
    let state = generate_hash(&keys).unwrap();
    assert_eq!(state.disps.len(), 1);
    assert_eq!(state.map, vec![0]);
    let state = generate_hash_with(&keys, 99, 1).unwrap();
    assert_eq!(state.disps, vec![(0, 0)]);
    assert_eq!(state.map, vec![0]);
}

#[test]
fn duplicate_keys_are_reported() {
    let keys = words(&["a", "b", "a"]);
    assert_eq!(generate_hash_with(&keys, FIXED_SEED, 5).err(), Some(GenerateError::DuplicateKeys));
    assert_eq!(generate_hash_with(&keys, FIXED_SEED, 0).err(), Some(GenerateError::DuplicateKeys));
    let keys: Vec<u32> = vec![1, 2, 3, 4, 5, 6, 7, 8, 9, 10, 11, 3];
    assert_eq!(generate_hash_with(&keys, 1, 20).err(), Some(GenerateError::DuplicateKeys));
    assert_eq!(generate_hash(&keys).err(), Some(GenerateError::DuplicateKeys));
}

#[test]
fn exhausted_budget_is_reported() {
    let keys = words(&["a", "b"]);
    assert_eq!(
        generate_hash_with(&keys, FIXED_SEED, 0).err(),
        Some(GenerateError::RetriesExhausted)
    );
    assert!(generate_hash_with(&keys, FIXED_SEED, DEFAULT_MAX_ATTEMPTS).is_ok());
}

#[test]
fn same_input_and_seed_give_same_table() {
    let keys: Vec<u64> = (0..300u64).map(|i| i * 7919 + 13).collect();
    let a = generate_hash_with(&keys, 42, 50).unwrap();
    let b = generate_hash_with(&keys, 42, 50).unwrap();
    assert_eq!(a.key, b.key);
    assert_eq!(a.disps, b.disps);
    assert_eq!(a.map, b.map);
    check_table(&keys, &a);
    let c = generate_hash(&keys).unwrap();
    let d = generate_hash(&keys).unwrap();
    assert_eq!(c.key, d.key);
    assert_eq!(c.disps, d.disps);
    assert_eq!(c.map, d.map);
}

#[test]
fn random_key_sets_succeed_within_few_attempts() {
    let mut rng = SmallRng::seed_from_u64(2024);
    for round in 0..1000usize {
        let size = 1 + (round * 7) % 500;
        let mut seen: HashSet<u64> = HashSet::new();
        let mut keys: Vec<u64> = Vec::with_capacity(size);
        while keys.len() < size {
            let k: u64 = rng.gen();
            if seen.insert(k) {
                keys.push(k);
            }
        }
        let state = generate_hash_with(&keys, FIXED_SEED, 49).unwrap();
        if round % 50 == 0 {
            check_table(&keys, &state);
        }
    }
}

#[test]
fn mixed_key_types_build_tables() {
    let bytes: Vec<Vec<u8>> = (0..40u8).map(|i| vec![i, i.wrapping_mul(3), 7]).collect();
    check_table(&bytes, &generate_hash(&bytes).unwrap());
    let chars: Vec<char> = "abcdefghijklmnopqrstuvwxyz".chars().collect();
    check_table(&chars, &generate_hash(&chars).unwrap());
    let ints: Vec<i32> = (-20..20).collect();
    check_table(&ints, &generate_hash(&ints).unwrap());
    let flags: Vec<bool> = vec![true, false];
    check_table(&flags, &generate_hash(&flags).unwrap());
}

#[test]
fn one_attempt_places_keys_under_given_material() {
    let keys = words(&["north", "east", "south", "west", "up", "down", "left"]);
    let mut ctxt = GenCtxt::new(keys.len());
    let mut found: Option<HashState> = None;
    for seed in 0..50u64 {
        let key: HashKey = [seed, seed + 1, seed + 2];
        if let Some(state) = try_generate_hash(&mut ctxt, &keys, key) {
            assert_eq!(state.key, key);
            found = Some(state);
            break;
        }
        assert!(ctxt.hashes.is_empty());
        assert!(ctxt.map.iter().all(|s| s.is_none()));
        assert!(ctxt.buckets.iter().all(|b| b.keys.is_empty()));
    }
    check_table(&keys, &found.unwrap());
}

#[test]
fn one_attempt_fails_on_equal_keys_and_resets() {
    let keys = words(&["x", "y", "x"]);
    let mut ctxt = GenCtxt::new(keys.len());
    for seed in 0..5u64 {
        assert!(try_generate_hash(&mut ctxt, &keys, [seed, 0, 0]).is_none());
        assert!(ctxt.hashes.is_empty());
        assert_eq!(ctxt.map, vec![None, None, None]);
        assert_eq!(ctxt.try_map, vec![0, 0, 0]);
        assert_eq!(ctxt.disps, vec![(0, 0)]);
        assert!(ctxt.values_to_add.is_empty());
        assert_eq!(ctxt.buckets.len(), 1);
        assert_eq!(ctxt.buckets[0].idx, 0);
        assert!(ctxt.buckets[0].keys.is_empty());
    }
}

#[test]
fn bucket_count_rounds_up() {
    assert_eq!(bucket_count(0), 0);
    assert_eq!(bucket_count(1), 1);
    assert_eq!(bucket_count(5), 1);
    assert_eq!(bucket_count(6), 2);
    assert_eq!(bucket_count(10), 2);
    assert_eq!(bucket_count(11), 3);
    assert_eq!(bucket_count(usize::MAX), usize::MAX / 5);
    assert_eq!(bucket_count(usize::MAX - 1), usize::MAX / 5);
    assert_eq!(bucket_count(usize::MAX - 5), usize::MAX / 5 - 1);
}

#[test]
fn fill_buckets_follows_the_coarse_hash() {
    let hashes: Vec<Hashes> =
        [4u32, 1, 3, 0, 5, 2, 7].iter().map(|&g| Hashes { g, f1: 0, f2: 0 }).collect();
    let mut buckets: Vec<Bucket> =
        (0..2).map(|i| Bucket { idx: i, keys: Vec::new() }).collect();
    fill_buckets(&hashes, &mut buckets);
    assert_eq!(buckets[0].keys, vec![0, 3, 5]);
    assert_eq!(buckets[1].keys, vec![1, 2, 4, 6]);
}

#[test]
fn bucket_order_is_by_size_then_number() {
    let sizes = [2usize, 0, 3, 2, 3, 1];
    let buckets: Vec<Bucket> = sizes
        .iter()
        .enumerate()
        .map(|(i, &s)| Bucket { idx: i, keys: (0..s).collect() })
        .collect();
    let order = bucket_order(&buckets);
    let ids: Vec<usize> = order.iter().map(|p| p.1).collect();
    assert_eq!(ids, vec![2, 4, 0, 3, 5, 1]);
    assert_eq!(order[0].0, usize::MAX - 3);
    assert_eq!(order[5].0, usize::MAX);
}

#[test]
fn overwrite_all_sets_every_cell() {
    let mut v: Vec<u64> = vec![1, 2, 3];
    overwrite_all(&mut v, 9);
    assert_eq!(v, vec![9, 9, 9]);
    let mut e: Vec<Option<usize>> = Vec::new();
    overwrite_all(&mut e, None);
    assert!(e.is_empty());
}

#[test]
fn try_pair_detects_both_kinds_of_collision() {
    // slot = (d2 + f1 * d1 + f2) % 4
    let hashes: Vec<Hashes> = vec![
        Hashes { g: 0, f1: 1, f2: 0 },
        Hashes { g: 0, f1: 2, f2: 0 },
        Hashes { g: 0, f1: 1, f2: 1 },
        Hashes { g: 0, f1: 0, f2: 3 },
    ];
    let keys: Vec<usize> = vec![0, 1];
    let map: Vec<Option<usize>> = vec![None; 4];
    let mut try_map: Vec<u64> = vec![0; 4];
    let mut pending: Vec<(usize, usize)> = Vec::new();
    // d1 = 0: both keys land on slot d2.
    assert!(!try_pair(&hashes, &keys, 0, 0, &map, &mut try_map, &mut pending, 1));
    // d1 = 1: slots 1 and 2.
    assert!(try_pair(&hashes, &keys, 1, 0, &map, &mut try_map, &mut pending, 2));
    assert_eq!(pending, vec![(1, 0), (2, 1)]);
    assert_eq!(try_map, vec![1, 2, 2, 0]);
    // an occupied slot blocks the pair
    let map: Vec<Option<usize>> = vec![None, None, Some(3), None];
    assert!(!try_pair(&hashes, &keys, 1, 0, &map, &mut try_map, &mut pending, 3));
    assert!(try_pair(&hashes, &keys, 1, 2, &map, &mut try_map, &mut pending, 4));
    assert_eq!(pending, vec![(3, 0), (0, 1)]);
}

#[test]
fn commit_pairs_enters_the_pending_keys() {
    let hashes: Vec<Hashes> =
        vec![Hashes { g: 0, f1: 1, f2: 0 }, Hashes { g: 0, f1: 2, f2: 0 }, Hashes { g: 0, f1: 0, f2: 0 }];
    let keys: Vec<usize> = vec![0, 1];
    let mut map: Vec<Option<usize>> = vec![Some(2), None, None];
    let pending: Vec<(usize, usize)> = vec![(1, 0), (2, 1)];
    commit_pairs(&hashes, &keys, (1, 0), &mut map, &pending);
    assert_eq!(map, vec![Some(2), Some(0), Some(1)]);
}

#[test]
fn place_bucket_takes_the_first_pair_in_row_major_order() {
    let hashes: Vec<Hashes> = vec![
        Hashes { g: 0, f1: 1, f2: 0 },
        Hashes { g: 0, f1: 2, f2: 0 },
        Hashes { g: 0, f1: 1, f2: 1 },
        Hashes { g: 0, f1: 0, f2: 3 },
    ];
    let keys: Vec<usize> = vec![0, 1];
    let mut map: Vec<Option<usize>> = vec![None, Some(3), None, None];
    let mut try_map: Vec<u64> = vec![0; 4];
    let mut pending: Vec<(usize, usize)> = Vec::new();
    let mut generation: u64 = 0;
    // d1 = 0 never separates the keys; (1, 0) hits slot 1; (1, 1) gives slots 2 and 3.
    let d = place_bucket(&hashes, &keys, &mut map, &mut try_map, &mut pending, &mut generation);
    assert_eq!(d, Some((1, 1)));
    assert_eq!(map, vec![None, Some(3), Some(0), Some(1)]);
    assert_eq!(generation, 6);
}

#[test]
fn place_bucket_reports_when_nothing_fits() {
    let hashes: Vec<Hashes> = vec![Hashes { g: 0, f1: 5, f2: 1 }, Hashes { g: 0, f1: 5, f2: 1 }];
    let keys: Vec<usize> = vec![0, 1];
    let mut map: Vec<Option<usize>> = vec![None, None];
    let mut try_map: Vec<u64> = vec![0; 2];
    let mut pending: Vec<(usize, usize)> = Vec::new();
    let mut generation: u64 = 0;
    let d = place_bucket(&hashes, &keys, &mut map, &mut try_map, &mut pending, &mut generation);
    assert_eq!(d, None);
    assert_eq!(map, vec![None, None]);
    assert_eq!(generation, 4);
}

#[test]
fn place_bucket_survives_the_last_generation() {
    let hashes: Vec<Hashes> = vec![Hashes { g: 0, f1: 0, f2: 0 }, Hashes { g: 0, f1: 1, f2: 0 }];
    let keys: Vec<usize> = vec![0, 1];
    let mut map: Vec<Option<usize>> = vec![None, None];
    let mut try_map: Vec<u64> = vec![u64::MAX, 3];
    let mut pending: Vec<(usize, usize)> = Vec::new();
    let mut generation: u64 = u64::MAX;
    let d = place_bucket(&hashes, &keys, &mut map, &mut try_map, &mut pending, &mut generation);
    assert_eq!(d, Some((1, 0)));
    assert_eq!(map, vec![Some(0), Some(1)]);
    assert_eq!(generation, 3);
}

#[test]
fn place_all_fills_every_slot() {
    let keys: Vec<u32> = (0..12).collect();
    let key: HashKey = [5, 6, 7];
    let mut ctxt = GenCtxt::new(keys.len());
    fill_hashes(&keys, &key, &mut ctxt.hashes);
    fill_buckets(&ctxt.hashes, &mut ctxt.buckets);
    let order = bucket_order(&ctxt.buckets);
    let done = place_all(
        &ctxt.hashes,
        &ctxt.buckets,
        &order,
        &mut ctxt.map,
        &mut ctxt.disps,
        &mut ctxt.try_map,
        &mut ctxt.values_to_add,
    );
    if done {
        for (i, h) in ctxt.hashes.iter().enumerate() {
            let slot = get_index(h, &ctxt.disps, keys.len()) as usize;
            assert_eq!(ctxt.map[slot], Some(i));
        }
    } else {
        assert!(ctxt.map.iter().any(|s| s.is_none()));
    }
}

#[test]
fn reset_clears_the_scratch_space() {
    let mut ctxt = GenCtxt::new(7);
    ctxt.hashes.push(Hashes { g: 1, f1: 2, f2: 3 });
    ctxt.buckets[1].keys.push(4);
    ctxt.buckets[0].idx = 9;
    ctxt.map[3] = Some(2);
    ctxt.disps[1] = (5, 6);
    ctxt.try_map[6] = 77;
    ctxt.values_to_add.push((1, 2));
    ctxt.reset();
    assert!(ctxt.hashes.is_empty());
    assert_eq!(ctxt.buckets.len(), 2);
    assert_eq!(ctxt.buckets[0].idx, 0);
    assert_eq!(ctxt.buckets[1].idx, 1);
    assert!(ctxt.buckets[1].keys.is_empty());
    assert_eq!(ctxt.map, vec![None; 7]);
    assert_eq!(ctxt.disps, vec![(0, 0); 2]);
    assert_eq!(ctxt.try_map, vec![0; 7]);
    assert!(ctxt.values_to_add.is_empty());
}

#[test]
fn clear_buckets_renumbers() {
    let mut buckets: Vec<Bucket> =
        vec![Bucket { idx: 3, keys: vec![1, 2] }, Bucket { idx: 0, keys: vec![] }];
    clear_buckets(&mut buckets);
    assert_eq!(buckets[0].idx, 0);
    assert_eq!(buckets[1].idx, 1);
    assert!(buckets[0].keys.is_empty());
}

#[test]
fn duplicate_detection_matches_the_keys() {
    assert!(!has_duplicate_keys(&words(&[])));
    assert!(!has_duplicate_keys(&words(&["a"])));
    assert!(!has_duplicate_keys(&words(&["a", "b", "ab", "ba"])));
    assert!(has_duplicate_keys(&words(&["a", "b", "c", "b"])));
    assert!(has_duplicate_keys(&words(&["z", "z"])));
    assert_eq!(key_bytes(&"hi".to_string()), vec![104, 105]);
    assert!(bytes_equal(&vec![1, 2], &vec![1, 2]));
    assert!(!bytes_equal(&vec![1, 2], &vec![1, 3]));
    assert!(!bytes_equal(&vec![1, 2], &vec![1, 2, 3]));
    assert!(bytes_equal(&vec![], &vec![]));
}

#[test]
fn given_materials_are_tried_in_order() {
    let keys = words(&["a", "b", "c", "d", "e", "f", "g", "h", "i", "j", "k"]);
    let materials: Vec<HashKey> = (0..64u64).map(|i| [i, i * 3 + 1, i * 5 + 2]).collect();
    let state = generate_hash_from(&keys, &materials).unwrap();
    check_table(&keys, &state);
    let at = materials.iter().position(|m| *m == state.key).unwrap();
    let mut ctxt = GenCtxt::new(keys.len());
    for m in &materials[..at] {
        assert!(try_generate_hash(&mut ctxt, &keys, *m).is_none());
    }
    let again = try_generate_hash(&mut ctxt, &keys, materials[at]).unwrap();
    assert_eq!(again.disps, state.disps);
    assert_eq!(again.map, state.map);
    let twice = generate_hash_from(&keys, &materials).unwrap();
    assert_eq!(twice.key, state.key);
    assert_eq!(twice.disps, state.disps);
    assert_eq!(twice.map, state.map);
}

#[test]
fn given_materials_can_run_out() {
    let keys = words(&["a", "b"]);
    let none: Vec<HashKey> = Vec::new();
    assert_eq!(generate_hash_from(&keys, &none).err(), Some(GenerateError::RetriesExhausted));
    let dup = words(&["a", "a"]);
    let some: Vec<HashKey> = vec![[1, 2, 3], [4, 5, 6]];
    assert_eq!(generate_hash_from(&dup, &some).err(), Some(GenerateError::DuplicateKeys));
    assert_eq!(generate_hash_from(&dup, &none).err(), Some(GenerateError::DuplicateKeys));
    let empty: Vec<String> = Vec::new();
    let state = generate_hash_from(&empty, &some).unwrap();
    assert_eq!(state.key, [1, 2, 3]);
    assert!(state.disps.is_empty() && state.map.is_empty());
    assert_eq!(generate_hash_from(&empty, &none).err(), Some(GenerateError::RetriesExhausted));
    let one = words(&["solo"]);
    let state = generate_hash_from(&one, &some).unwrap();
    assert_eq!(state.key, [1, 2, 3]);
    assert_eq!(state.disps, vec![(0, 0)]);
    assert_eq!(state.map, vec![0]);
}

#[test]
fn each_bucket_has_the_first_pair_that_fits() {
    let keys: Vec<u32> = (100..130).collect();
    let state = generate_hash(&keys).unwrap();
    let n = keys.len();
    let hashes: Vec<Hashes> = keys.iter().map(|k| hash(k, &state.key)).collect();
    let nb = state.disps.len();
    let mut buckets: Vec<Vec<usize>> = vec![Vec::new(); nb];
    for (i, h) in hashes.iter().enumerate() {
        buckets[(h.g as usize) % nb].push(i);
    }
    let mut order: Vec<usize> = (0..nb).collect();
    order.sort_by_key(|&b| (n - buckets[b].len(), b));
    let mut taken = vec![false; n];
    for &b in &order {
        let mut found: Option<(u32, u32)> = None;
        'search: for d1 in 0..n as u32 {
            for d2 in 0..n as u32 {
                let mut slots: Vec<usize> = Vec::new();
                let mut fits = true;
                for &k in &buckets[b] {
                    let s = (d2
                        .wrapping_add(hashes[k].f1.wrapping_mul(d1))
                        .wrapping_add(hashes[k].f2)
                        % n as u32) as usize;
                    if taken[s] || slots.contains(&s) {
                        fits = false;
                        break;
                    }
                    slots.push(s);
                }
                if fits {
                    for s in slots {
                        taken[s] = true;
                    }
                    found = Some((d1, d2));
                    break 'search;
                }
            }
        }
        assert_eq!(found, Some(state.disps[b]));
    }
}
