//! The columns that a tree commits to, each at the depth it is injected at.

use vstd::arithmetic::power2::pow2;
use vstd::prelude::*;

use crate::fields::Field;
use crate::powers::{power_of_two, two_to_the};

verus! {

/// The elements of `column` that belong to the bag `bag` when the column is cut into `n_bags`
/// bags of the same size.
pub open spec fn column_bag<F>(column: Seq<F>, n_bags: int, bag: int) -> Seq<F> {
    let size = column.len() as int / n_bags;
    column.subrange(bag * size, (bag + 1) * size)
}

/// The elements of all `columns` that belong to the bag `bag`, one column after the other.
pub open spec fn bag_elements<F>(columns: Seq<Seq<F>>, n_bags: int, bag: int) -> Seq<F>
    decreases columns.len(),
{
    if columns.len() == 0 {
        Seq::empty()
    } else {
        bag_elements(columns.drop_last(), n_bags, bag) + column_bag(columns.last(), n_bags, bag)
    }
}

/// The contents of the columns behind `columns`.
pub open spec fn contents<F>(columns: Seq<&[F]>) -> Seq<Seq<F>> {
    Seq::new(columns.len(), |j: int| columns[j]@)
}

/// Whether a column of `len` elements can be cut into one bag for each node of the layer that
/// the depth `depth` stands for.
pub open spec fn column_fits(len: int, depth: int) -> bool {
    power_of_two(len) && len >= pow2((depth - 1) as nat)
}

/// Whether every column fits the depth it stands at, the first layer having the depth `first`.
pub open spec fn columns_fit<F>(layers: Seq<Seq<Seq<F>>>, first: int) -> bool {
    forall|i: int, j: int|
        0 <= i < layers.len() && 0 <= j < layers[i].len() ==> column_fits(
            (#[trigger] layers[i][j]).len() as int,
            first + i,
        )
}

/// Picks the elements that belong to the bag `bag` out of every column.
pub fn collect_bag<'a, F: Field>(columns: &Vec<&'a [F]>, n_bags: usize, bag: usize) -> (elements:
    Vec<F>)
    requires
        bag < n_bags,
    ensures
        elements@ == bag_elements(contents(columns@), n_bags as int, bag as int),
{
    let mut elements: Vec<F> = Vec::new();
    let ghost all = contents(columns@);
    let n: usize = columns.len();
    let mut c: usize = 0;
    while c < n
        invariant
            n == columns@.len(),
            c <= n,
            bag < n_bags,
            all == contents(columns@),
            elements@ == bag_elements(all.take(c as int), n_bags as int, bag as int),
        decreases n - c,
    {
        let column: &'a [F] = columns[c];
        let size: usize = column.len() / n_bags;
        proof {
            let len = column@.len() as int;
            assert((bag + 1) * size <= len) by (nonlinear_arith)
                requires
                    bag < n_bags,
                    n_bags > 0,
                    size as int == len / n_bags as int,
                    len >= 0,
            ;
            assert(0 <= bag * size <= (bag + 1) * size && (bag + 1) * size == bag * size + size)
                by (nonlinear_arith)
                requires
                    bag >= 0,
                    size >= 0,
            ;
        }
        let start: usize = bag * size;
        let end: usize = start + size;
        let ghost before = elements@;
        let mut k: usize = start;
        while k < end
            invariant
                start <= k <= end <= column@.len(),
                elements@ == before + column@.subrange(start as int, k as int),
            decreases end - k,
        {
            elements.push(column[k]);
            assert(column@.subrange(start as int, k + 1) =~= column@.subrange(
                start as int,
                k as int,
            ).push(column@[k as int]));
            k = k + 1;
        }
        assert(all.take(c + 1).drop_last() =~= all.take(c as int));
        assert(all.take(c + 1).last() == column@);
        c = c + 1;
    }
    assert(all.take(n as int) =~= all);
    elements
}

/// The columns to commit to. A column at depth `d` is spread over the `2^(d - 1)` nodes of the
/// layer that lies `d - 1` steps below the root.
pub struct MerkleTreeInput<'a, F: Field> {
    columns_to_inject: Vec<Vec<&'a [F]>>,
}

impl<'a, F: Field> View for MerkleTreeInput<'a, F> {
    /// The columns of each depth, those of depth 1 first.
    type V = Seq<Seq<Seq<F>>>;

    closed spec fn view(&self) -> Seq<Seq<Seq<F>>> {
        Seq::new(
            self.columns_to_inject@.len(),
            |i: int| contents(self.columns_to_inject@[i]@),
        )
    }
}

impl<'a, F: Field> MerkleTreeInput<'a, F> {
    /// Every column fits its depth, and the nodes of the tree can be counted in a `usize`.
    pub open spec fn well_formed(&self) -> bool {
        &&& columns_fit(self@, 1)
        &&& self@.len() < usize::BITS
    }

    /// An input without columns.
    pub fn new() -> (input: Self)
        ensures
            input@ == Seq::<Seq<Seq<F>>>::empty(),
            input.well_formed(),
    {
        let input = MerkleTreeInput { columns_to_inject: Vec::new() };
        assert(input@ =~= Seq::<Seq<Seq<F>>>::empty());
        input
    }

    /// Adds `column` behind the columns of depth `depth`.
    pub fn insert_column(&mut self, depth: usize, column: &'a [F])
        requires
            old(self).well_formed(),
            1 <= depth < usize::BITS,
            column_fits(column@.len() as int, depth as int),
        ensures
            final(self).well_formed(),
            final(self)@.len() == if old(self)@.len() < depth {
                depth as nat
            } else {
                old(self)@.len()
            },
            forall|i: int|
                0 <= i < final(self)@.len() && i != depth - 1 ==> #[trigger] final(self)@[i] == (
                if i < old(self)@.len() {
                    old(self)@[i]
                } else {
                    Seq::empty()
                }),
            final(self)@[depth - 1] == (if depth <= old(self)@.len() {
                old(self)@[depth - 1]
            } else {
                Seq::empty()
            }).push(column@),
    {
        let ghost before = self@;
        while self.columns_to_inject.len() < depth
            invariant
                1 <= depth,
                self@.len() >= before.len(),
                self@.len() == before.len() || self@.len() <= depth,
                forall|i: int| 0 <= i < before.len() ==> #[trigger] self@[i] == before[i],
                forall|i: int|
                    before.len() <= i < self@.len() ==> #[trigger] self@[i] == Seq::<
                        Seq<F>,
                    >::empty(),
            decreases depth - self.columns_to_inject@.len(),
        {
            let ghost prior = self@;
            self.columns_to_inject.push(Vec::new());
            assert(self@ =~= prior.push(Seq::<Seq<F>>::empty())) by {
                assert(contents(self.columns_to_inject@.last()@) =~= Seq::<Seq<F>>::empty());
            }
        }
        let ghost padded = self@;
        let index: usize = depth - 1;
        self.columns_to_inject[index].push(column);
        assert(self@ =~= padded.update(index as int, padded[index as int].push(column@))) by {
            assert(contents(self.columns_to_inject@[index as int]@) =~= padded[index as int].push(
                column@,
            ));
        }
        assert(self.well_formed()) by {
            assert forall|i: int, j: int|
                0 <= i < self@.len() && 0 <= j < self@[i].len() implies column_fits(
                (#[trigger] self@[i][j]).len() as int,
                1 + i,
            ) by {
                if i < before.len() && j < before[i].len() {
                    assert(self@[i][j] == before[i][j]);
                }
            }
        }
    }

    /// The columns of depth `depth`.
    pub fn get_columns(&self, depth: usize) -> (columns: &Vec<&'a [F]>)
        requires
            1 <= depth <= self@.len(),
        ensures
            contents(columns@) == self@[depth - 1],
    {
        &self.columns_to_inject[depth - 1]
    }

    /// The largest depth that can hold a column.
    pub fn max_injected_depth(&self) -> (depth: usize)
        ensures
            depth == self@.len(),
    {
        self.columns_to_inject.len()
    }

    /// Cuts off the columns of depth `split_at` and more and returns them.
    pub fn split(&mut self, split_at: usize) -> (lower: Self)
        requires
            1 <= split_at <= old(self)@.len() + 1,
        ensures
            final(self)@ == old(self)@.take(split_at - 1),
            lower@ == old(self)@.skip(split_at - 1),
    {
        let ghost before = self@;
        let columns_to_inject = self.columns_to_inject.split_off(split_at - 1);
        let lower = MerkleTreeInput { columns_to_inject };
        assert(self@ =~= before.take(split_at - 1));
        assert(lower@ =~= before.skip(split_at - 1));
        lower
    }

    /// Puts the columns of `upper` above those of this input.
    pub fn prepend(&mut self, upper: Self)
        ensures
            final(self)@ == upper@ + old(self)@,
    {
        let ghost before = self@;
        let mut columns_to_inject = upper.columns_to_inject;
        columns_to_inject.append(&mut self.columns_to_inject);
        self.columns_to_inject = columns_to_inject;
        assert(self@ =~= upper@ + before);
    }

    /// The elements that are injected into the node `bag_index` of the layer that `depth`
    /// stands for.
    pub fn get_injected_elements(&self, depth: usize, bag_index: usize) -> (elements: Vec<F>)
        requires
            self.well_formed(),
            1 <= depth <= self@.len(),
            bag_index < pow2((depth - 1) as nat),
        ensures
            elements@ == bag_elements(
                self@[depth - 1],
                pow2((depth - 1) as nat) as int,
                bag_index as int,
            ),
    {
        collect_bag(self.get_columns(depth), two_to_the(depth - 1), bag_index)
    }
}

} // verus!
