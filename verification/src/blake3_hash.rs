//! The BLAKE3 hash function.

use vstd::prelude::*;

use crate::hasher::{Digest, Hasher};

verus! {

/// The 32 bytes of the BLAKE3 hash of `data`.
pub uninterp spec fn blake3_digest(data: Seq<u8>) -> Seq<u8>;

/// Calls `blake3::hash`, BLAKE3 in its default mode (no key, 32 bytes of output).
/// Claimed of it: the bytes it returns are a function of the bytes of `data` alone.
#[verifier::external_body]
fn blake3_hash(data: &[u8]) -> (bytes: [u8; 32])
    ensures
        bytes@ == blake3_digest(data@),
{
    *blake3::hash(data).as_bytes()
}

/// A BLAKE3 hash.
#[derive(Clone, Copy, Debug, PartialEq, Eq)]
pub struct Blake3Hash(pub [u8; 32]);

impl Digest<u8> for Blake3Hash {
    open spec fn words(&self) -> Seq<u8> {
        self.0@
    }

    open spec fn blank_words() -> Seq<u8> {
        Seq::new(32, |i: int| 0u8)
    }

    proof fn words_determine_value(a: Self, b: Self) {
        assert(a.0 =~= b.0);
    }

    fn blank() -> (value: Self) {
        let bytes: [u8; 32] = [0u8; 32];
        proof {
            vstd::array::axiom_spec_array_fill_for_copy_type::<u8, 32>(0u8);
        }
        assert(bytes@ =~= Self::blank_words());
        Blake3Hash(bytes)
    }

    fn as_ref(&self) -> (words: &[u8]) {
        self.0.as_slice()
    }
}

/// Collects the bytes to hash and hands them to BLAKE3.
pub struct Blake3Hasher {
    state: Vec<u8>,
}

impl Hasher for Blake3Hasher {
    type NativeType = u8;

    type Hash = Blake3Hash;

    closed spec fn absorbed(&self) -> Seq<u8> {
        self.state@
    }

    open spec fn digest(data: Seq<u8>) -> Seq<u8> {
        blake3_digest(data)
    }

    fn new() -> (hasher: Self) {
        let hasher = Blake3Hasher { state: Vec::new() };
        assert(hasher.absorbed() =~= Seq::<u8>::empty());
        hasher
    }

    fn update(&mut self, data: &[u8]) {
        let ghost before = self.absorbed();
        self.state.extend_from_slice(data);
        assert(self.absorbed() =~= before + data@);
    }

    fn finalize_reset(&mut self) -> (hash: Blake3Hash)
        ensures
            hash.0@ == blake3_digest(old(self).absorbed()),
    {
        let ghost before = self.absorbed();
        let hash = Blake3Hash(blake3_hash(self.state.as_slice()));
        assert(hash.words() == blake3_digest(before));
        self.state.clear();
        assert(self.absorbed() =~= Seq::<u8>::empty());
        hash
    }

    fn finalize(self) -> (hash: Blake3Hash)
        ensures
            hash.0@ == blake3_digest(self.absorbed()),
    {
        let hash = Blake3Hash(blake3_hash(self.state.as_slice()));
        assert(hash.words() == blake3_digest(self.absorbed()));
        hash
    }
}

} // verus!
