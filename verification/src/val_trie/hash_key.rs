//! Element types that the persistent hash sets can hold: plain keys whose
//! 32-bit hash codes come from `rustc_hash::FxHasher`.
use vstd::prelude::*;
use std::hash::{Hash, Hasher};

verus! {

/// One step of `FxHasher`: add the word `i` to the state `hash` and multiply
/// by the hasher's constant, both wrapping at the machine's word width.
pub open spec fn fx_step(hash: int, i: int) -> int {
    if usize::BITS == 64 {
        ((hash + i) * 0xf1357aea2e62a9c5) % 0x1_0000_0000_0000_0000
    } else {
        ((hash + i) * 0x93d765dd) % 0x1_0000_0000
    }
}

/// The low 32 bits of what `FxHasher::finish` gives for the state `hash`: the
/// state rotated left by 26 bits on a 64-bit machine, by 15 on a 32-bit one.
pub open spec fn fx_finish_low32(hash: int) -> u32 {
    if usize::BITS == 64 {
        ((hash % 0x40) * 0x400_0000 + hash / 0x40_0000_0000) as u32
    } else {
        ((hash % 0x2_0000) * 0x8000 + hash / 0x2_0000) as u32
    }
}

/// The 32-bit hash code that `FxHasher` gives a `u64` key: one step with the
/// key on a 64-bit machine, a step with each half (low half first) on a
/// 32-bit one.
pub open spec fn fx_hash_u64(k: u64) -> u32 {
    if usize::BITS == 64 {
        fx_finish_low32(fx_step(0, k as int))
    } else {
        fx_finish_low32(fx_step(fx_step(0, k as int % 0x1_0000_0000), k as int / 0x1_0000_0000))
    }
}

/// The 32-bit hash code that `FxHasher` gives a `usize` key: one step with
/// the key.
pub open spec fn fx_hash_usize(k: usize) -> u32 {
    fx_finish_low32(fx_step(0, k as int))
}

/// Feeds `k` to a fresh `rustc_hash::FxHasher` (state zero) through
/// `Hash::hash`, which calls `write_u64`, and keeps the low 32 bits of
/// `Hasher::finish`. Claimed: the result is what `fx_hash_u64` computes from
/// the hasher's source.
#[verifier::external_body]
fn fx_hash_of_u64(k: u64) -> (h: u32)
    ensures
        h == fx_hash_u64(k),
{
    let mut hasher = rustc_hash::FxHasher::default();
    k.hash(&mut hasher);
    hasher.finish() as u32
}

/// Feeds `k` to a fresh `rustc_hash::FxHasher` (state zero) through
/// `Hash::hash`, which calls `write_usize`, and keeps the low 32 bits of
/// `Hasher::finish`. Claimed: the result is what `fx_hash_usize` computes
/// from the hasher's source.
#[verifier::external_body]
fn fx_hash_of_usize(k: usize) -> (h: u32)
    ensures
        h == fx_hash_usize(k),
{
    let mut hasher = rustc_hash::FxHasher::default();
    k.hash(&mut hasher);
    hasher.finish() as u32
}

/// A key that can be stored in the persistent hash sets: copied freely,
/// compared for equality, and hashed to 32 bits deterministically.
pub trait HashKey: Copy {
    spec fn spec_hash(self) -> u32;

    fn hash_bits(&self) -> (h: u32)
        ensures
            h == self.spec_hash(),
    ;

    fn key_eq(&self, other: &Self) -> (b: bool)
        ensures
            b == (*self == *other),
    ;
}

impl HashKey for u64 {
    open spec fn spec_hash(self) -> u32 {
        fx_hash_u64(self)
    }

    fn hash_bits(&self) -> (h: u32) {
        fx_hash_of_u64(*self)
    }

    fn key_eq(&self, other: &Self) -> (b: bool) {
        *self == *other
    }
}

impl HashKey for usize {
    open spec fn spec_hash(self) -> u32 {
        fx_hash_usize(self)
    }

    fn hash_bits(&self) -> (h: u32) {
        fx_hash_of_usize(*self)
    }

    fn key_eq(&self, other: &Self) -> (b: bool) {
        *self == *other
    }
}

} // verus!
