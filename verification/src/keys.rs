//! The key types that come with the library.
//!
//! Integers contribute their bytes in little-endian order, whatever the
//! machine; text contributes its UTF-8 encoding.

use crate::shared::PhfHash;
use vstd::bytes::{
    spec_u16_to_le_bytes, spec_u32_to_le_bytes, spec_u64_to_le_bytes, u16_to_le_bytes,
    u32_to_le_bytes, u64_to_le_bytes,
};
use vstd::prelude::*;

verus! {

/// Appends `bytes` to `state`.
pub fn append_bytes(state: &mut Vec<u8>, bytes: &[u8])
    ensures
        final(state)@ == old(state)@ + bytes@,
{
    let mut i: usize = 0;
    while i < bytes.len()
        invariant
            i <= bytes@.len(),
            state@ == old(state)@ + bytes@.subrange(0, i as int),
        decreases bytes@.len() - i,
    {
        state.push(bytes[i]);
        assert(state@ =~= old(state)@ + bytes@.subrange(0, i + 1));
        i += 1;
    }
    assert(bytes@.subrange(0, i as int) =~= bytes@);
}

impl PhfHash for Vec<u8> {
    open spec fn hash_input(&self) -> Seq<u8> {
        self@
    }

    fn phf_hash(&self, state: &mut Vec<u8>) {
        append_bytes(state, self.as_slice());
    }
}

impl PhfHash for String {
    open spec fn hash_input(&self) -> Seq<u8> {
        vstd::utf8::encode_utf8(self@)
    }

    fn phf_hash(&self, state: &mut Vec<u8>) {
        let text: &str = self.as_str();
        append_bytes(state, text.as_bytes());
    }
}

impl PhfHash for u8 {
    open spec fn hash_input(&self) -> Seq<u8> {
        seq![*self]
    }

    fn phf_hash(&self, state: &mut Vec<u8>) {
        state.push(*self);
        assert(state@ =~= old(state)@ + seq![*self]);
    }
}

impl PhfHash for i8 {
    open spec fn hash_input(&self) -> Seq<u8> {
        seq![*self as u8]
    }

    fn phf_hash(&self, state: &mut Vec<u8>) {
        state.push(*self as u8);
        assert(state@ =~= old(state)@ + seq![*self as u8]);
    }
}

impl PhfHash for bool {
    open spec fn hash_input(&self) -> Seq<u8> {
        seq![if *self { 1u8 } else { 0u8 }]
    }

    fn phf_hash(&self, state: &mut Vec<u8>) {
        let byte: u8 = if *self { 1 } else { 0 };
        state.push(byte);
        assert(state@ =~= old(state)@ + seq![byte]);
    }
}

impl PhfHash for u16 {
    open spec fn hash_input(&self) -> Seq<u8> {
        spec_u16_to_le_bytes(*self)
    }

    fn phf_hash(&self, state: &mut Vec<u8>) {
        let bytes: Vec<u8> = u16_to_le_bytes(*self);
        append_bytes(state, bytes.as_slice());
    }
}

impl PhfHash for i16 {
    open spec fn hash_input(&self) -> Seq<u8> {
        spec_u16_to_le_bytes(*self as u16)
    }

    fn phf_hash(&self, state: &mut Vec<u8>) {
        let bytes: Vec<u8> = u16_to_le_bytes(*self as u16);
        append_bytes(state, bytes.as_slice());
    }
}

impl PhfHash for u32 {
    open spec fn hash_input(&self) -> Seq<u8> {
        spec_u32_to_le_bytes(*self)
    }

    fn phf_hash(&self, state: &mut Vec<u8>) {
        let bytes: Vec<u8> = u32_to_le_bytes(*self);
        append_bytes(state, bytes.as_slice());
    }
}

impl PhfHash for i32 {
    open spec fn hash_input(&self) -> Seq<u8> {
        spec_u32_to_le_bytes(*self as u32)
    }

    fn phf_hash(&self, state: &mut Vec<u8>) {
        let bytes: Vec<u8> = u32_to_le_bytes(*self as u32);
        append_bytes(state, bytes.as_slice());
    }
}

impl PhfHash for u64 {
    open spec fn hash_input(&self) -> Seq<u8> {
        spec_u64_to_le_bytes(*self)
    }

    fn phf_hash(&self, state: &mut Vec<u8>) {
        let bytes: Vec<u8> = u64_to_le_bytes(*self);
        append_bytes(state, bytes.as_slice());
    }
}

impl PhfHash for i64 {
    open spec fn hash_input(&self) -> Seq<u8> {
        spec_u64_to_le_bytes(*self as u64)
    }

    fn phf_hash(&self, state: &mut Vec<u8>) {
        let bytes: Vec<u8> = u64_to_le_bytes(*self as u64);
        append_bytes(state, bytes.as_slice());
    }
}

impl PhfHash for char {
    open spec fn hash_input(&self) -> Seq<u8> {
        spec_u32_to_le_bytes(*self as u32)
    }

    fn phf_hash(&self, state: &mut Vec<u8>) {
        let bytes: Vec<u8> = u32_to_le_bytes(*self as u32);
        append_bytes(state, bytes.as_slice());
    }
}

impl PhfHash for [u8] {
    open spec fn hash_input(&self) -> Seq<u8> {
        self@
    }

    fn phf_hash(&self, state: &mut Vec<u8>) {
        append_bytes(state, self);
    }
}

impl PhfHash for str {
    open spec fn hash_input(&self) -> Seq<u8> {
        vstd::utf8::encode_utf8(self@)
    }

    fn phf_hash(&self, state: &mut Vec<u8>) {
        append_bytes(state, self.as_bytes());
    }
}

impl<'a, T: PhfHash + ?Sized> PhfHash for &'a T {
    open spec fn hash_input(&self) -> Seq<u8> {
        (**self).hash_input()
    }

    fn phf_hash(&self, state: &mut Vec<u8>) {
        (**self).phf_hash(state);
    }
}

impl<const N: usize> PhfHash for [u8; N] {
    open spec fn hash_input(&self) -> Seq<u8> {
        self@
    }

    fn phf_hash(&self, state: &mut Vec<u8>) {
        let mut i: usize = 0;
        while i < N
            invariant
                i <= N,
                state@ == old(state)@ + self@.subrange(0, i as int),
            decreases N - i,
        {
            state.push(self[i]);
            assert(state@ =~= old(state)@ + self@.subrange(0, i + 1));
            i += 1;
        }
        assert(self@.subrange(0, i as int) =~= self@);
    }
}

} // verus!
