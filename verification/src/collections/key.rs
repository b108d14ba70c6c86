use vstd::prelude::*;

verus! {

/// A value that a hash collection can store. Each value has a 64-bit key
/// that identifies it (two values with the same key are the same value)
/// and that orders it (the order of the keys is the order of the values).
pub trait HashKey: Copy + Sized {
    /// The key of the value.
    spec fn key_of(&self) -> u64;

    /// Computes the key of the value.
    fn key(&self) -> (k: u64)
        ensures
            k == self.key_of(),
    ;

    /// Values with the same key are equal.
    proof fn lemma_key_injective(a: Self, b: Self)
        requires
            a.key_of() == b.key_of(),
        ensures
            a == b,
    ;
}

impl HashKey for u8 {
    open spec fn key_of(&self) -> u64 {
        *self as u64
    }

    fn key(&self) -> (k: u64) {
        *self as u64
    }

    proof fn lemma_key_injective(a: Self, b: Self) {
    }
}

impl HashKey for u16 {
    open spec fn key_of(&self) -> u64 {
        *self as u64
    }

    fn key(&self) -> (k: u64) {
        *self as u64
    }

    proof fn lemma_key_injective(a: Self, b: Self) {
    }
}

impl HashKey for u32 {
    open spec fn key_of(&self) -> u64 {
        *self as u64
    }

    fn key(&self) -> (k: u64) {
        *self as u64
    }

    proof fn lemma_key_injective(a: Self, b: Self) {
    }
}

impl HashKey for u64 {
    open spec fn key_of(&self) -> u64 {
        *self
    }

    fn key(&self) -> (k: u64) {
        *self
    }

    proof fn lemma_key_injective(a: Self, b: Self) {
    }
}

} // verus!
