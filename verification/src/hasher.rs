//! Hash functions that work on sequences of words.

use vstd::prelude::*;

verus! {

/// The value that a hash function returns: a fixed number of words of type `N`.
pub trait Digest<N>: Copy {
    /// The words of the value.
    spec fn words(&self) -> Seq<N>;

    /// The words of the value that stands where no hash was computed yet.
    spec fn blank_words() -> Seq<N>;

    /// A value is its words.
    proof fn words_determine_value(a: Self, b: Self)
        requires
            a.words() == b.words(),
        ensures
            a == b,
    ;

    /// The value that stands where no hash was computed yet.
    fn blank() -> (value: Self)
        ensures
            value.words() == Self::blank_words(),
    ;

    /// The words of the value, as a slice.
    fn as_ref(&self) -> (words: &[N])
        ensures
            words@ == self.words(),
    ;
}

/// A hash function that absorbs its input piece by piece.
pub trait Hasher: Sized {
    /// The words that the function works on.
    type NativeType: Copy;

    /// The value that the function returns.
    type Hash: Digest<Self::NativeType>;

    /// What was absorbed since the start or the last reset.
    spec fn absorbed(&self) -> Seq<Self::NativeType>;

    /// The words of the hash of `data`.
    spec fn digest(data: Seq<Self::NativeType>) -> Seq<Self::NativeType>;

    /// A hasher that has absorbed nothing.
    fn new() -> (hasher: Self)
        ensures
            hasher.absorbed() == Seq::<Self::NativeType>::empty(),
    ;

    /// Absorbs `data` behind what was absorbed before.
    fn update(&mut self, data: &[Self::NativeType])
        ensures
            final(self).absorbed() == old(self).absorbed() + data@,
    ;

    /// The hash of everything that was absorbed; the hasher then starts anew.
    fn finalize_reset(&mut self) -> (hash: Self::Hash)
        ensures
            hash.words() == Self::digest(old(self).absorbed()),
            final(self).absorbed() == Seq::<Self::NativeType>::empty(),
    ;

    /// The hash of everything that was absorbed.
    fn finalize(self) -> (hash: Self::Hash)
        ensures
            hash.words() == Self::digest(self.absorbed()),
    ;

    /// The hash of `data`.
    fn hash(data: &[Self::NativeType]) -> (hash: Self::Hash)
        ensures
            hash.words() == Self::digest(data@),
    {
        let mut hasher = Self::new();
        hasher.update(data);
        assert(hasher.absorbed() =~= data@);
        hasher.finalize()
    }

    /// The hash of the words of `v1` followed by those of `v2`.
    fn concat_and_hash(v1: &Self::Hash, v2: &Self::Hash) -> (hash: Self::Hash)
        ensures
            hash.words() == Self::digest(v1.words() + v2.words()),
    {
        let mut hasher = Self::new();
        hasher.update(v1.as_ref());
        hasher.update(v2.as_ref());
        assert(hasher.absorbed() =~= v1.words() + v2.words());
        hasher.finalize()
    }
}

} // verus!
