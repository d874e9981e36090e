//! The hashes that belong to the nodes of a tree, the way in which layers lie in multi layers,
//! and the indices of siblings and parents.

use vstd::arithmetic::power2::{lemma_pow2_adds, lemma_pow2_unfold, pow2};
use vstd::prelude::*;

use crate::fields::{native_words, Field, IntoSlice};
use crate::hasher::{Digest, Hasher};
use crate::merkle_input::bag_elements;
use crate::merkle_multilayer::{multi_layer_digest, MerkleMultiLayer};

verus! {

/// The words of the hash that belongs to the node `position` of the layer `layer` of a tree over
/// `columns`, the root being layer 0. A node hashes the hashes of its two children, where it has
/// any, and then the elements that are injected into it.
pub open spec fn node_digest<F: Field + IntoSlice<H::NativeType>, H: Hasher>(
    columns: Seq<Seq<Seq<F>>>,
    layer: int,
    position: int,
) -> Seq<H::NativeType>
    decreases columns.len() - layer,
{
    let children = if layer + 1 < columns.len() {
        node_digest::<F, H>(columns, layer + 1, 2 * position) + node_digest::<F, H>(
            columns,
            layer + 1,
            2 * position + 1,
        )
    } else {
        Seq::empty()
    };
    let elements = bag_elements(columns[layer], pow2(layer as nat) as int, position);
    H::digest(children + native_words::<F, H::NativeType>(elements))
}

/// The sum of `sizes`.
pub open spec fn sum_of(sizes: Seq<usize>) -> nat
    decreases sizes.len(),
{
    if sizes.len() == 0 {
        0
    } else {
        sum_of(sizes.drop_last()) + sizes.last() as nat
    }
}

/// The layer in which the roots of the multi layer `i` lie, where the multi layers have the
/// heights `sizes`, the lowest one first.
pub open spec fn roots_layer(sizes: Seq<usize>, i: int) -> int {
    sum_of(sizes) - sum_of(sizes.take(i + 1))
}

/// The heights of multi layers.
pub open spec fn heights<H: Hasher>(multi_layers: Seq<MerkleMultiLayer<H>>) -> Seq<usize> {
    Seq::new(multi_layers.len(), |i: int| multi_layers[i].config.sub_tree_height)
}

/// The hash that `multi_layers` hold for the node `position` of the layer `layer`, counted from
/// the top of the last one.
pub open spec fn held_hash<H: Hasher>(
    multi_layers: Seq<MerkleMultiLayer<H>>,
    layer: int,
    position: int,
) -> H::Hash
    decreases multi_layers.len(),
{
    let top = multi_layers.last();
    if multi_layers.len() <= 1 || layer < top.config.sub_tree_height {
        top.hash_at(layer, position)
    } else {
        held_hash(multi_layers.drop_last(), layer - top.config.sub_tree_height, position)
    }
}

/// One more size adds to the sum.
proof fn lemma_sum_step(sizes: Seq<usize>, i: int)
    requires
        0 <= i < sizes.len(),
    ensures
        sum_of(sizes.take(i + 1)) == sum_of(sizes.take(i)) + sizes[i],
{
    assert(sizes.take(i + 1).drop_last() =~= sizes.take(i));
}

/// The sum of some sizes is at most that of more of them.
proof fn lemma_sum_monotone(sizes: Seq<usize>, i: int, j: int)
    requires
        0 <= i <= j <= sizes.len(),
    ensures
        sum_of(sizes.take(i)) <= sum_of(sizes.take(j)),
    decreases j - i,
{
    if i < j {
        lemma_sum_monotone(sizes, i, j - 1);
        lemma_sum_step(sizes, j - 1);
    }
}

/// The sum of all sizes is that of the first ones plus that of the others.
pub proof fn lemma_sum_bounds(sizes: Seq<usize>, i: int)
    requires
        0 <= i < sizes.len(),
    ensures
        sum_of(sizes.take(i + 1)) == sum_of(sizes.take(i)) + sizes[i],
        sum_of(sizes.take(i + 1)) <= sum_of(sizes),
        sizes.take(sizes.len() as int) == sizes,
        0 <= roots_layer(sizes, i),
        roots_layer(sizes, i) + sizes[i] == sum_of(sizes) - sum_of(sizes.take(i)),
{
    lemma_sum_step(sizes, i);
    lemma_sum_monotone(sizes, i + 1, sizes.len() as int);
    assert(sizes.take(sizes.len() as int) =~= sizes);
}

/// A layer of the tree is held by the multi layer that spans it.
pub proof fn lemma_held_hash<H: Hasher>(
    multi_layers: Seq<MerkleMultiLayer<H>>,
    i: int,
    layer: int,
    position: int,
)
    requires
        0 <= i < multi_layers.len(),
        roots_layer(heights(multi_layers), i) <= layer < roots_layer(heights(multi_layers), i)
            + multi_layers[i].config.sub_tree_height,
    ensures
        held_hash(multi_layers, layer, position) == multi_layers[i].hash_at(
            layer - roots_layer(heights(multi_layers), i),
            position,
        ),
    decreases multi_layers.len(),
{
    let sizes = heights(multi_layers);
    let top = multi_layers.last();
    lemma_sum_bounds(sizes, i);
    if i == multi_layers.len() - 1 {
        assert(sizes.take(i + 1) =~= sizes);
    } else {
        let rest = multi_layers.drop_last();
        assert(heights(rest) =~= sizes.drop_last());
        assert(heights(rest).take(i + 1) =~= sizes.take(i + 1));
        assert(rest[i] == multi_layers[i]);
        lemma_sum_monotone(sizes, i + 1, sizes.len() - 1);
        assert(sizes.take(sizes.len() - 1) =~= sizes.drop_last());
        lemma_held_hash(rest, i, layer - top.config.sub_tree_height, position);
    }
}

/// Every layer of the tree is spanned by a multi layer.
pub proof fn lemma_spanning_multi_layer(sizes: Seq<usize>, layer: int) -> (i: int)
    requires
        0 <= layer < sum_of(sizes),
    ensures
        0 <= i < sizes.len(),
        roots_layer(sizes, i) <= layer < roots_layer(sizes, i) + sizes[i],
    decreases sizes.len(),
{
    let last = sizes.len() - 1;
    assert(sizes.take(last + 1) =~= sizes);
    if layer < sizes.last() {
        last
    } else {
        let rest = sizes.drop_last();
        let i = lemma_spanning_multi_layer(rest, layer - sizes.last());
        assert(rest.take(i + 1) =~= sizes.take(i + 1));
        i
    }
}

/// The hashes of a multi layer over a part of the columns are those of the whole tree, where
/// those of the layer below it are.
proof fn lemma_part_of_tree<F: Field + IntoSlice<H::NativeType>, H: Hasher>(
    columns: Seq<Seq<Seq<F>>>,
    first: nat,
    height: nat,
    prev_hashes: Option<Seq<H::Hash>>,
    layer: int,
    position: int,
)
    requires
        0 <= layer < height,
        first + height <= columns.len(),
        0 <= position < pow2((first + layer) as nat),
        match prev_hashes {
            Some(hashes) => first + height < columns.len() && forall|k: int|
                0 <= k < pow2(first + height) ==> (#[trigger] hashes[k]).words() == node_digest::<
                    F,
                    H,
                >(columns, (first + height) as int, k),
            None => first + height == columns.len(),
        },
    ensures
        multi_layer_digest::<F, H>(
            columns.subrange(first as int, (first + height) as int),
            pow2(first) as int,
            prev_hashes,
            layer,
            position,
        ) == node_digest::<F, H>(columns, first + layer, position),
    decreases height - layer,
{
    let part = columns.subrange(first as int, (first + height) as int);
    lemma_pow2_adds(first, layer as nat);
    lemma_pow2_unfold((first + layer + 1) as nat);
    assert(part[layer] == columns[first + layer]);
    if layer + 1 < height {
        lemma_part_of_tree::<F, H>(columns, first, height, prev_hashes, layer + 1, 2 * position);
        lemma_part_of_tree::<F, H>(
            columns,
            first,
            height,
            prev_hashes,
            layer + 1,
            2 * position + 1,
        );
    }
}

/// The index of the node that has the same parent as the node `index`.
pub open spec fn sibling(index: usize) -> usize {
    if index % 2 == 0 {
        (index + 1) as usize
    } else {
        (index - 1) as usize
    }
}

/// Whether the first two of some queries are siblings.
pub open spec fn starts_with_siblings(queries: Seq<usize>) -> bool {
    queries.len() > 1 && queries[1] == sibling(queries[0])
}

/// What is left of some queries without the first one and, where it comes next, its sibling.
pub open spec fn after_first(queries: Seq<usize>) -> Seq<usize> {
    if starts_with_siblings(queries) {
        queries.skip(2)
    } else {
        queries.skip(1)
    }
}

/// Whether some queries are pairs of siblings, one pair behind the other.
pub open spec fn all_paired(queries: Seq<usize>) -> bool
    decreases queries.len(),
{
    queries.len() == 0 || (starts_with_siblings(queries) && all_paired(after_first(queries)))
}

/// `indices` without those that are equal to the one right before them.
pub open spec fn without_repeats(indices: Seq<usize>) -> Seq<usize>
    decreases indices.len(),
{
    if indices.len() <= 1 {
        indices
    } else if indices.last() == indices[indices.len() - 2] {
        without_repeats(indices.drop_last())
    } else {
        without_repeats(indices.drop_last()).push(indices.last())
    }
}

/// The indices of the parents of the nodes `children`.
pub open spec fn parents(children: Seq<usize>) -> Seq<usize> {
    without_repeats(Seq::new(children.len(), |i: int| children[i] / 2))
}

/// The indices of the nodes that lie `steps` steps above the nodes `indices`.
pub open spec fn ancestors(indices: Seq<usize>, steps: nat) -> Seq<usize>
    decreases steps,
{
    if steps == 0 {
        indices
    } else {
        parents(ancestors(indices, (steps - 1) as nat))
    }
}

/// Whether all `indices` are below `bound`.
pub open spec fn all_below(indices: Seq<usize>, bound: int) -> bool {
    forall|i: int| 0 <= i < indices.len() ==> #[trigger] indices[i] < bound
}

/// Flipping the lowest bit of an index gives its sibling.
pub proof fn lemma_sibling(index: usize)
    ensures
        index ^ 1 == sibling(index),
        sibling(index) / 2 == index / 2,
        sibling(sibling(index)) == index,
{
    assert(index ^ 1 == if index % 2 == 0 {
        index + 1
    } else {
        index - 1
    }) by (bit_vector);
}

/// Leaving out repeats brings in nothing new.
proof fn lemma_without_repeats_below(indices: Seq<usize>, bound: int)
    requires
        all_below(indices, bound),
    ensures
        all_below(without_repeats(indices), bound),
    decreases indices.len(),
{
    if indices.len() > 1 {
        lemma_without_repeats_below(indices.drop_last(), bound);
    }
}

/// The parents of nodes of a layer are nodes of the layer above it.
pub proof fn lemma_parents_below(children: Seq<usize>, layer: nat)
    requires
        layer > 0,
        all_below(children, pow2(layer) as int),
    ensures
        all_below(parents(children), pow2((layer - 1) as nat) as int),
{
    lemma_pow2_unfold(layer);
    lemma_without_repeats_below(
        Seq::new(children.len(), |i: int| children[i] / 2),
        pow2((layer - 1) as nat) as int,
    );
}

/// Whether a multi layer, the roots of which lie in the layer `first`, holds the hashes that
/// belong to its nodes.
pub open spec fn holds_its_hashes<F: Field + IntoSlice<H::NativeType>, H: Hasher>(
    columns: Seq<Seq<Seq<F>>>,
    multi_layer: MerkleMultiLayer<H>,
    first: int,
) -> bool {
    forall|layer: int, position: int|
        0 <= layer < multi_layer.config.sub_tree_height && 0 <= position < pow2(
            (first + layer) as nat,
        ) ==> (#[trigger] multi_layer.hash_at(layer, position)).words() == node_digest::<F, H>(
            columns,
            first + layer,
            position,
        )
}

/// A multi layer that was computed from its part of the columns and from the hashes of the layer
/// below it holds the hashes that belong to its nodes.
pub proof fn lemma_holds_its_hashes<F: Field + IntoSlice<H::NativeType>, H: Hasher>(
    columns: Seq<Seq<Seq<F>>>,
    multi_layer: MerkleMultiLayer<H>,
    first: nat,
    prev_hashes: Option<Seq<H::Hash>>,
)
    requires
        first + multi_layer.config.sub_tree_height <= columns.len(),
        multi_layer.config.n_sub_trees == pow2(first),
        match prev_hashes {
            Some(hashes) => first + multi_layer.config.sub_tree_height < columns.len() && forall|
                k: int,
            |
                0 <= k < pow2((first + multi_layer.config.sub_tree_height) as nat) ==> (
                #[trigger] hashes[k]).words() == node_digest::<F, H>(
                    columns,
                    first + multi_layer.config.sub_tree_height,
                    k,
                ),
            None => first + multi_layer.config.sub_tree_height == columns.len(),
        },
        forall|layer: int, position: int|
            0 <= layer < multi_layer.config.sub_tree_height && 0 <= position < pow2(first) * pow2(
                layer as nat,
            ) ==> (#[trigger] multi_layer.hash_at(layer, position)).words() == multi_layer_digest::<
                F,
                H,
            >(
                columns.subrange(
                    first as int,
                    first + multi_layer.config.sub_tree_height,
                ),
                pow2(first) as int,
                prev_hashes,
                layer,
                position,
            ),
    ensures
        holds_its_hashes::<F, H>(columns, multi_layer, first as int),
{
    let height = multi_layer.config.sub_tree_height as nat;
    assert forall|layer: int, position: int|
        0 <= layer < height && 0 <= position < pow2((first + layer) as nat) implies (
    #[trigger] multi_layer.hash_at(layer, position)).words() == node_digest::<F, H>(
        columns,
        first + layer,
        position,
    ) by {
        lemma_pow2_adds(first, layer as nat);
        lemma_part_of_tree::<F, H>(columns, first, height, prev_hashes, layer, position);
    }
}

/// A multi layer that was computed from its part of the columns and from the roots of the multi
/// layer `lower` below it holds the hashes that belong to its nodes, where `lower` does.
pub proof fn lemma_multi_layer_above<F: Field + IntoSlice<H::NativeType>, H: Hasher>(
    columns: Seq<Seq<Seq<F>>>,
    lower: MerkleMultiLayer<H>,
    multi_layer: MerkleMultiLayer<H>,
    first: nat,
    prev_hashes: Seq<H::Hash>,
)
    requires
        first + multi_layer.config.sub_tree_height < columns.len(),
        multi_layer.config.n_sub_trees == pow2(first),
        lower.config.sub_tree_height > 0,
        holds_its_hashes::<F, H>(columns, lower, first + multi_layer.config.sub_tree_height),
        prev_hashes.len() == pow2((first + multi_layer.config.sub_tree_height) as nat),
        forall|k: int|
            0 <= k < prev_hashes.len() ==> #[trigger] prev_hashes[k] == lower.hash_at(0, k),
        forall|layer: int, position: int|
            0 <= layer < multi_layer.config.sub_tree_height && 0 <= position < pow2(first) * pow2(
                layer as nat,
            ) ==> (#[trigger] multi_layer.hash_at(layer, position)).words() == multi_layer_digest::<
                F,
                H,
            >(
                columns.subrange(first as int, first + multi_layer.config.sub_tree_height),
                pow2(first) as int,
                Some(prev_hashes),
                layer,
                position,
            ),
    ensures
        holds_its_hashes::<F, H>(columns, multi_layer, first as int),
{
    let lower_layer = first + multi_layer.config.sub_tree_height;
    assert forall|k: int| 0 <= k < pow2(lower_layer as nat) implies (
    #[trigger] prev_hashes[k]).words() == node_digest::<F, H>(columns, lower_layer, k) by {
        assert(prev_hashes[k] == lower.hash_at(0, k));
    }
    lemma_holds_its_hashes::<F, H>(columns, multi_layer, first, Some(prev_hashes));
}

} // verus!
