//! Field elements and the way they are handed to a hash function.

use vstd::prelude::*;

verus! {

/// An element that a column of the tree can hold.
pub trait Field: Copy {

}

/// A value that a hash function working on words of type `T` can absorb.
pub trait IntoSlice<T>: Sized {
    /// The words that stand for this value.
    spec fn native(self) -> Seq<T>;

    /// Appends the words that stand for this value to `out`.
    fn append_native(&self, out: &mut Vec<T>)
        ensures
            final(out)@ == old(out)@ + self.native(),
    ;
}

/// The words of all `values`, one value after the other.
pub open spec fn native_words<F: IntoSlice<T>, T>(values: Seq<F>) -> Seq<T>
    decreases values.len(),
{
    if values.len() == 0 {
        Seq::empty()
    } else {
        native_words::<F, T>(values.drop_last()) + values.last().native()
    }
}

/// Turns a slice of values into the words of all of them.
pub fn into_slice<F: IntoSlice<T>, T>(values: &[F]) -> (words: Vec<T>)
    ensures
        words@ == native_words::<F, T>(values@),
{
    let mut words: Vec<T> = Vec::new();
    let n: usize = values.len();
    let mut i: usize = 0;
    while i < n
        invariant
            n == values@.len(),
            i <= n,
            words@ == native_words::<F, T>(values@.take(i as int)),
        decreases n - i,
    {
        values[i].append_native(&mut words);
        assert(values@.take(i + 1).drop_last() =~= values@.take(i as int));
        i = i + 1;
    }
    assert(values@.take(n as int) =~= values@);
    words
}

/// The four bytes of a 32-bit number, the lowest one first.
pub open spec fn le_bytes(x: u32) -> Seq<u8> {
    seq![
        (x % 0x100) as u8,
        (x / 0x100 % 0x100) as u8,
        (x / 0x1_0000 % 0x100) as u8,
        (x / 0x100_0000 % 0x100) as u8,
    ]
}

/// An element of the prime field with `2^31 - 1` elements.
#[derive(Clone, Copy, Debug, PartialEq, Eq, Structural)]
pub struct M31(pub u32);

impl M31 {
    /// The element with representative `arg`, which is not reduced.
    pub fn from_u32_unchecked(arg: u32) -> (element: M31)
        ensures
            element == M31(arg),
    {
        M31(arg)
    }
}

impl Field for M31 {

}

impl IntoSlice<u8> for M31 {
    open spec fn native(self) -> Seq<u8> {
        le_bytes(self.0)
    }

    fn append_native(&self, out: &mut Vec<u8>) {
        let x: u32 = self.0;
        let ghost before = out@;
        out.push((x % 0x100) as u8);
        out.push((x / 0x100 % 0x100) as u8);
        out.push((x / 0x1_0000 % 0x100) as u8);
        out.push((x / 0x100_0000 % 0x100) as u8);
        assert(out@ =~= before + le_bytes(x));
    }
}

} // verus!
