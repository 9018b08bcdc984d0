use core::hash::Hasher;
use phf_generator::keys::append_bytes;
use phf_generator::shared::{hash_bytes, high_half, phf_hash_slice};
use phf_generator::{displace, get_index, hash, HashKey, Hashes, PhfHash};
use siphasher::sip::SipHasher13;

fn plain_digest(k0: u64, k1: u64, data: &[u8]) -> u64 {
    let mut hasher = SipHasher13::new_with_keys(k0, k1);
    hasher.write(data);
    hasher.finish()
}

fn bytes_of<T: PhfHash>(x: &T) -> Vec<u8> {
    let mut state: Vec<u8> = Vec::new();
    x.phf_hash(&mut state);
    state
}

#[test]
fn displace_small_values() {
    assert_eq!(displace(1, 2, 3, 4), 9);
    assert_eq!(displace(0, 0, 0, 0), 0);
    assert_eq!(displace(7, 5, 0, 11), 16);
    assert_eq!(displace(10, 1, 10, 1), 102);
}

#[test]
fn displace_wraps_at_32_bits() {
    assert_eq!(displace(u32::MAX, 1, 2, 0), u32::MAX);
    assert_eq!(displace(u32::MAX, 2, 2, 0), 0);
    assert_eq!(displace(0, 1, 0, u32::MAX), 0);
    assert_eq!(displace(0x1_0000, 3, 0x1_0000, 4), 7);
    assert_eq!(displace(u32::MAX, u32::MAX, u32::MAX, u32::MAX), 0xffff_ffff);
}

#[test]
fn get_index_follows_the_bucket_pair() {
    let h = Hashes { g: 7, f1: 1, f2: 2 };
    let disps: Vec<(u32, u32)> = vec![(0, 0), (3, 4)];
    assert_eq!(get_index(&h, &disps, 5), 4);
    let h = Hashes { g: 6, f1: 1, f2: 2 };
    assert_eq!(get_index(&h, &disps, 5), 2);
    assert_eq!(get_index(&h, &disps, 1), 0);
}

#[test]
fn get_index_stays_below_len_for_any_hashes() {
    let disps: Vec<(u32, u32)> = vec![(1, 2), (3, 4), (u32::MAX, u32::MAX)];
    for g in 0..50u32 {
        let h = Hashes { g, f1: g.wrapping_mul(2654435761), f2: !g };
        assert!(get_index(&h, &disps, 13) < 13);
    }
}

#[test]
fn high_half_takes_the_upper_bits() {
    assert_eq!(high_half(0), 0);
    assert_eq!(high_half(0xffff_ffff), 0);
    assert_eq!(high_half(0x1_0000_0000), 1);
    assert_eq!(high_half(0x1234_5678_9abc_def0), 0x1234_5678);
    assert_eq!(high_half(u64::MAX), u32::MAX);
}

#[test]
fn hash_bytes_is_salted_siphash13() {
    let key: HashKey = [11, 22, 33];
    let data: &[u8] = b"perfect";
    let h = hash_bytes(data, &key);
    assert_eq!(h.g, (plain_digest(0, 11, data) >> 32) as u32);
    assert_eq!(h.f1, (plain_digest(1, 22, data) >> 32) as u32);
    assert_eq!(h.f2, (plain_digest(2, 33, data) >> 32) as u32);
}

#[test]
fn hash_bytes_of_empty_input_known_digest() {
    // SipHash-1-3 of the empty message under the zero key.
    assert_eq!(plain_digest(0, 0, b""), 0xd1fba762150c532c);
    let key: HashKey = [0, 0, 0];
    let h = hash_bytes(b"", &key);
    assert_eq!(h.g, 0xd1fba762);
}

#[test]
fn hash_depends_on_key_material_and_on_the_key() {
    let a = "alpha".to_string();
    let b = "beta".to_string();
    let k1: HashKey = [1, 2, 3];
    let k2: HashKey = [4, 5, 6];
    assert_eq!(hash(&a, &k1), hash(&a, &k1));
    assert_ne!(hash(&a, &k1), hash(&a, &k2));
    assert_ne!(hash(&a, &k1), hash(&b, &k1));
    assert_eq!(hash(&a, &k1), hash_bytes(b"alpha", &k1));
}

#[test]
fn hash_outputs_are_mixed_independently() {
    let key: HashKey = [9, 9, 9];
    let h = hash(&"same key everywhere".to_string(), &key);
    assert!(h.g != h.f1 || h.f1 != h.f2);
}

#[test]
fn integer_keys_are_little_endian() {
    assert_eq!(bytes_of(&0x0102u16), vec![2, 1]);
    assert_eq!(bytes_of(&0x01020304u32), vec![4, 3, 2, 1]);
    assert_eq!(bytes_of(&0x0102030405060708u64), vec![8, 7, 6, 5, 4, 3, 2, 1]);
    assert_eq!(bytes_of(&-2i16), vec![0xfe, 0xff]);
    assert_eq!(bytes_of(&-1i32), vec![0xff; 4]);
    assert_eq!(bytes_of(&-1i64), vec![0xff; 8]);
    assert_eq!(bytes_of(&7u8), vec![7]);
    assert_eq!(bytes_of(&-1i8), vec![0xff]);
}

#[test]
fn other_keys_contribute_their_bytes() {
    assert_eq!(bytes_of(&true), vec![1]);
    assert_eq!(bytes_of(&false), vec![0]);
    assert_eq!(bytes_of(&'a'), vec![97, 0, 0, 0]);
    assert_eq!(bytes_of(&"ab".to_string()), vec![97, 98]);
    assert_eq!(bytes_of(&"\u{e9}".to_string()), vec![0xc3, 0xa9]);
    assert_eq!(bytes_of(&vec![1u8, 2, 3]), vec![1, 2, 3]);
}

#[test]
fn phf_hash_appends_to_the_state() {
    let mut state: Vec<u8> = vec![9];
    5u8.phf_hash(&mut state);
    "x".to_string().phf_hash(&mut state);
    assert_eq!(state, vec![9, 5, 120]);
}

#[test]
fn borrowed_and_unsized_keys_contribute_the_same_bytes() {
    let owned = "key".to_string();
    let borrowed: &str = "key";
    assert_eq!(bytes_of(&borrowed), bytes_of(&owned));
    let mut state: Vec<u8> = Vec::new();
    "key".phf_hash(&mut state);
    assert_eq!(state, vec![107, 101, 121]);
    let mut state: Vec<u8> = Vec::new();
    [1u8, 2, 3][..].phf_hash(&mut state);
    assert_eq!(state, vec![1, 2, 3]);
    assert_eq!(bytes_of(&[7u8, 8, 9, 10]), vec![7, 8, 9, 10]);
    assert_eq!(bytes_of(&[0u8; 0]), Vec::<u8>::new());
    let k: HashKey = [3, 1, 4];
    assert_eq!(hash("key", &k), hash(&owned, &k));
    assert_eq!(hash(&[107u8, 101, 121], &k), hash(&owned, &k));
}

#[test]
fn phf_hash_slice_concatenates_the_keys() {
    let mut state: Vec<u8> = vec![0xaa];
    phf_hash_slice(&[0x0102u16, 0x0304], &mut state);
    assert_eq!(state, vec![0xaa, 2, 1, 4, 3]);
    let mut state: Vec<u8> = Vec::new();
    phf_hash_slice(&["ab".to_string(), "".to_string(), "c".to_string()], &mut state);
    assert_eq!(state, vec![97, 98, 99]);
    let none: [u8; 0] = [];
    phf_hash_slice(&none, &mut state);
    assert_eq!(state, vec![97, 98, 99]);
}

#[test]
fn append_bytes_keeps_what_was_there() {
    let mut state: Vec<u8> = vec![1];
    append_bytes(&mut state, &[2, 3]);
    append_bytes(&mut state, &[]);
    assert_eq!(state, vec![1, 2, 3]);
}
