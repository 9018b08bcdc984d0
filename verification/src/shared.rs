//! Key hashing, the displacement formula and slot recovery.

use core::hash::Hasher;
use siphasher::sip::SipHasher13;
use vstd::prelude::*;

verus! {

/// Key material for the keyed hash: one 64-bit key per output of the triple hash.
pub type HashKey = [u64; 3];

/// The three 32-bit hashes of one key.
///
/// `g` selects the bucket; `f1` and `f2` enter the displacement formula.
#[derive(Clone, Copy, Debug, PartialEq, Eq, Structural)]
pub struct Hashes {
    pub g: u32,
    pub f1: u32,
    pub f2: u32,
}

/// `d2 + f1 * d1 + f2` modulo 2^32.
pub open spec fn spec_displace(f1: u32, f2: u32, d1: u32, d2: u32) -> u32 {
    ((d2 as int + f1 as int * d1 as int + f2 as int) % 0x1_0000_0000) as u32
}

/// The bucket that a key with coarse hash `g` falls into, of `buckets` many.
pub open spec fn spec_bucket(g: u32, buckets: int) -> int {
    g as int % buckets
}

/// The slot of a key under the displacement pair `d`, in a table of `len` slots.
pub open spec fn spec_slot(h: Hashes, d: (u32, u32), len: int) -> int {
    spec_displace(h.f1, h.f2, d.0, d.1) as int % len
}

/// The slot that a finished table assigns to a key with hashes `h`.
pub open spec fn spec_get_index(h: Hashes, disps: Seq<(u32, u32)>, len: int) -> int {
    spec_slot(h, disps[spec_bucket(h.g, disps.len() as int)], len)
}

/// The displacement formula, in wrapping 32-bit arithmetic.
pub fn displace(f1: u32, f2: u32, d1: u32, d2: u32) -> (r: u32)
    ensures
        r == spec_displace(f1, f2, d1, d2),
{
    let m: u32 = f1.wrapping_mul(d1);
    let a: u32 = d2.wrapping_add(m);
    let r: u32 = a.wrapping_add(f2);
    proof {
        let range: int = 0x1_0000_0000;
        let p: int = f1 as int * d1 as int;
        let total: int = d2 as int + p + f2 as int;
        assert(p >= 0) by (nonlinear_arith)
            requires
                p == f1 as int * d1 as int,
        ;
        vstd::arithmetic::div_mod::lemma_fundamental_div_mod(p, range);
        let q: int = p / range;
        assert(m as int == p % range);
        let c1: int = if d2 as int + m as int > u32::MAX as int { 1int } else { 0int };
        assert(a as int == d2 as int + m as int - c1 * range);
        let c2: int = if a as int + f2 as int > u32::MAX as int { 1int } else { 0int };
        assert(r as int == a as int + f2 as int - c2 * range);
        assert(total == (q + c1 + c2) * range + r as int) by (nonlinear_arith)
            requires
                p == range * q + m as int,
                total == d2 as int + p + f2 as int,
                r as int == d2 as int + m as int + f2 as int - c1 * range - c2 * range,
        ;
        vstd::arithmetic::div_mod::lemma_fundamental_div_mod_converse(
            total,
            range,
            q + c1 + c2,
            r as int,
        );
    }
    r
}

/// Recovers the slot of a key from its hashes and a finished displacement table.
///
/// `len` is the number of slots of the table. For a key that was not part of
/// the construction the result is still a slot below `len`, with no further
/// meaning: the caller compares the key stored there with the one it looks up.
pub fn get_index(hash: &Hashes, disps: &[(u32, u32)], len: usize) -> (slot: u32)
    requires
        0 < disps@.len() <= u32::MAX,
        0 < len <= u32::MAX,
    ensures
        slot as int == spec_get_index(*hash, disps@, len as int),
        (slot as int) < len,
{
    let buckets: u32 = disps.len() as u32;
    let b: usize = (hash.g % buckets) as usize;
    let d: (u32, u32) = disps[b];
    displace(hash.f1, hash.f2, d.0, d.1) % (len as u32)
}

/// A type whose values can be keys of a perfect hash table.
///
/// A key contributes a sequence of bytes that is the same on every machine;
/// two keys are the same key exactly when they contribute the same bytes.
pub trait PhfHash {
    /// The bytes that this key feeds into the hash.
    spec fn hash_input(&self) -> Seq<u8>;

    /// Appends this key's bytes to `state`.
    fn phf_hash(&self, state: &mut Vec<u8>)
        ensures
            final(state)@ == old(state)@ + self.hash_input(),
    ;
}

/// The bytes of all keys of `data`, one key after the other.
pub open spec fn slice_input<T: PhfHash>(data: Seq<T>) -> Seq<u8>
    decreases data.len(),
{
    if data.len() == 0 {
        Seq::empty()
    } else {
        slice_input(data.drop_last()) + data.last().hash_input()
    }
}

/// Appends the bytes of every key of `data`, in order, to `state`.
pub fn phf_hash_slice<T: PhfHash>(data: &[T], state: &mut Vec<u8>)
    ensures
        final(state)@ == old(state)@ + slice_input(data@),
{
    let mut i: usize = 0;
    assert(slice_input(data@.subrange(0, 0)) =~= Seq::<u8>::empty());
    assert(state@ =~= old(state)@ + Seq::<u8>::empty());
    while i < data.len()
        invariant
            i <= data@.len(),
            state@ == old(state)@ + slice_input(data@.subrange(0, i as int)),
        decreases data@.len() - i,
    {
        data[i].phf_hash(state);
        proof {
            let next = data@.subrange(0, i + 1);
            assert(next.drop_last() =~= data@.subrange(0, i as int));
            assert(next.last() == data@[i as int]);
            assert(state@ =~= old(state)@ + slice_input(next));
        }
        i += 1;
    }
    assert(data@.subrange(0, i as int) =~= data@);
}

/// The 64-bit SipHash-1-3 digest of `data` under the 128-bit key `(k0, k1)`.
pub uninterp spec fn sip13(k0: u64, k1: u64, data: Seq<u8>) -> u64;

/// Runs `siphasher`'s `SipHasher13`: `new_with_keys(k0, k1)`, one `write` of all
/// of `data`, then `finish`. The digest depends on the two keys and the bytes
/// alone; the contract gives it the name `sip13` and claims nothing else.
#[verifier::external_body]
fn sip13_digest(k0: u64, k1: u64, data: &[u8]) -> (h: u64)
    ensures
        h == sip13(k0, k1, data@),
{
    let mut hasher = SipHasher13::new_with_keys(k0, k1);
    hasher.write(data);
    hasher.finish()
}

/// The upper half of a 64-bit digest.
pub open spec fn spec_high_half(h: u64) -> u32 {
    (h >> 32) as u32
}

/// The triple hash of a key with bytes `data` under the key material `key`:
/// output `i` is the upper half of the digest keyed by `(i, key[i])`.
pub open spec fn spec_hash(data: Seq<u8>, key: HashKey) -> Hashes {
    Hashes {
        g: spec_high_half(sip13(0, key[0], data)),
        f1: spec_high_half(sip13(1, key[1], data)),
        f2: spec_high_half(sip13(2, key[2], data)),
    }
}

/// Cuts a digest down to its upper 32 bits.
pub fn high_half(h: u64) -> (r: u32)
    ensures
        r == spec_high_half(h),
{
    let top: u64 = h >> 32;
    assert(top <= 0xffff_ffff) by (bit_vector)
        requires
            top == h >> 32,
    ;
    top as u32
}

/// The triple hash of the bytes `data` under the key material `key`.
pub fn hash_bytes(data: &[u8], key: &HashKey) -> (r: Hashes)
    ensures
        r == spec_hash(data@, *key),
{
    Hashes {
        g: high_half(sip13_digest(0, key[0], data)),
        f1: high_half(sip13_digest(1, key[1], data)),
        f2: high_half(sip13_digest(2, key[2], data)),
    }
}

/// The triple hash of the key `x` under the key material `key`.
pub fn hash<T: PhfHash + ?Sized>(x: &T, key: &HashKey) -> (r: Hashes)
    ensures
        r == spec_hash(x.hash_input(), *key),
{
    let mut data: Vec<u8> = Vec::new();
    x.phf_hash(&mut data);
    assert(data@ =~= x.hash_input());
    hash_bytes(data.as_slice(), key)
}

} // verus!
