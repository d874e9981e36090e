//! The BLAKE2s hash function.

use vstd::prelude::*;

use crate::hasher::{Digest, Hasher};

verus! {

/// The 32 bytes of the BLAKE2s hash of `data`.
pub uninterp spec fn blake2s_digest(data: Seq<u8>) -> Seq<u8>;

/// Calls `digest` of `blake2::Blake2s256`, BLAKE2s without a key and with 32 bytes of output.
/// Claimed of it: the bytes it returns are a function of the bytes of `data` alone.
#[verifier::external_body]
fn blake2s_hash(data: &[u8]) -> (bytes: [u8; 32])
    ensures
        bytes@ == blake2s_digest(data@),
{
    <blake2::Blake2s256 as blake2::Digest>::digest(data).into()
}

/// A BLAKE2s hash.
#[derive(Clone, Copy, Debug, PartialEq, Eq)]
pub struct Blake2sHash(pub [u8; 32]);

impl Digest<u8> for Blake2sHash {
    open spec fn words(&self) -> Seq<u8> {
        self.0@
    }

    open spec fn blank_words() -> Seq<u8> {
        Seq::new(32, |i: int| 0u8)
    }

    proof fn words_determine_value(a: Self, b: Self) {
        assert(a.0 =~= b.0);
    }

    fn blank() -> (value: Self) {
        let bytes: [u8; 32] = [0u8; 32];
        proof {
            vstd::array::axiom_spec_array_fill_for_copy_type::<u8, 32>(0u8);
        }
        assert(bytes@ =~= Self::blank_words());
        Blake2sHash(bytes)
    }

    fn as_ref(&self) -> (words: &[u8]) {
        self.0.as_slice()
    }
}

/// Collects the bytes to hash and hands them to BLAKE2s.
pub struct Blake2sHasher {
    state: Vec<u8>,
}

impl Hasher for Blake2sHasher {
    type NativeType = u8;

    type Hash = Blake2sHash;

    closed spec fn absorbed(&self) -> Seq<u8> {
        self.state@
    }

    open spec fn digest(data: Seq<u8>) -> Seq<u8> {
        blake2s_digest(data)
    }

    fn new() -> (hasher: Self) {
        let hasher = Blake2sHasher { state: Vec::new() };
        assert(hasher.absorbed() =~= Seq::<u8>::empty());
        hasher
    }

    fn update(&mut self, data: &[u8]) {
        let ghost before = self.absorbed();
        self.state.extend_from_slice(data);
        assert(self.absorbed() =~= before + data@);
    }

    fn finalize_reset(&mut self) -> (hash: Blake2sHash)
        ensures
            hash.0@ == blake2s_digest(old(self).absorbed()),
    {
        let ghost before = self.absorbed();
        let hash = Blake2sHash(blake2s_hash(self.state.as_slice()));
        assert(hash.words() == blake2s_digest(before));
        self.state.clear();
        assert(self.absorbed() =~= Seq::<u8>::empty());
        hash
    }

    fn finalize(self) -> (hash: Blake2sHash)
        ensures
            hash.0@ == blake2s_digest(self.absorbed()),
    {
        let hash = Blake2sHash(blake2s_hash(self.state.as_slice()));
        assert(hash.words() == blake2s_digest(self.absorbed()));
        hash
    }
}

} // verus!
