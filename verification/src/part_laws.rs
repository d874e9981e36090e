//! What holds of the parts of the tree: words, bags, positions, layers and parents.

use vstd::arithmetic::power2::{
    lemma_pow2_pos, lemma_pow2_strictly_increases, lemma_pow2_unfold, pow2,
};
use vstd::prelude::*;

use crate::blake2_hash::{blake2s_digest, Blake2sHash, Blake2sHasher};
use crate::blake3_hash::{blake3_digest, Blake3Hash, Blake3Hasher};
use crate::fields::{native_words, Field, IntoSlice, M31};
use crate::hasher::{Digest, Hasher};
use crate::laws::law_parents;
use crate::merkle_input::{bag_elements, column_fits, contents};
use crate::merkle_multilayer::{
    lower_hashes, multi_layer_digest, MerkleMultiLayer, MerkleMultiLayerConfig,
};
use crate::mixed_degree_decommitment::{
    layer_view, DecommitmentNode, MixedDecommitment, NodeView, PositionInLayer,
};
use crate::mixed_degree_merkle_tree::MixedDegreeMerkleTree;
use crate::powers::{lemma_pow2_small, lemma_power_of_two_divides, power_of_two};
use crate::tree_model::{
    after_first, all_below, all_paired, ancestors, heights, parents, roots_layer, sibling,
    starts_with_siblings, sum_of, without_repeats,
};

verus! {

/// The digest of a BLAKE3 hasher is BLAKE3 of everything that was absorbed, and the words of a
/// BLAKE3 hash are its bytes.
pub proof fn law_blake3_hashes_everything(data: Seq<u8>, hash: Blake3Hash)
    ensures
        Blake3Hasher::digest(data) == blake3_digest(data),
        hash.words() == hash.0@,
        Blake3Hash::blank_words().len() == 32,
        forall|i: int| 0 <= i < 32 ==> #[trigger] Blake3Hash::blank_words()[i] == 0,
{
}

/// The digest of a BLAKE2s hasher is BLAKE2s of everything that was absorbed, and the words of a
/// BLAKE2s hash are its bytes.
pub proof fn law_blake2s_hashes_everything(data: Seq<u8>, hash: Blake2sHash)
    ensures
        Blake2sHasher::digest(data) == blake2s_digest(data),
        hash.words() == hash.0@,
        Blake2sHash::blank_words().len() == 32,
        forall|i: int| 0 <= i < 32 ==> #[trigger] Blake2sHash::blank_words()[i] == 0,
{
}

/// An element is hashed as four bytes that give its number back, the lowest one first. So
/// different elements have different words.
pub proof fn law_bytes_of_an_element(x: u32)
    ensures
        M31(x).native().len() == 4,
        x == M31(x).native()[0] + 0x100 * M31(x).native()[1] + 0x1_0000 * M31(x).native()[2]
            + 0x100_0000 * M31(x).native()[3],
{
}

/// The words of some values are the words of the first ones and then those of the others; the
/// words of a single value are its own.
pub proof fn law_words_of_values<F: IntoSlice<T>, T>(value: F, some: Seq<F>, others: Seq<F>)
    ensures
        native_words::<F, T>(Seq::empty()) == Seq::<T>::empty(),
        native_words::<F, T>(seq![value]) == value.native(),
        native_words::<F, T>(some + others) == native_words::<F, T>(some) + native_words::<F, T>(
            others,
        ),
    decreases others.len(),
{
    assert(native_words::<F, T>(Seq::empty()) =~= Seq::<T>::empty());
    assert(seq![value].drop_last() =~= Seq::empty());
    assert(native_words::<F, T>(seq![value]) =~= value.native());
    if others.len() == 0 {
        assert(some + others =~= some);
        assert(native_words::<F, T>(some) + native_words::<F, T>(others) =~= native_words::<F, T>(
            some,
        ));
    } else {
        law_words_of_values::<F, T>(value, some, others.drop_last());
        assert((some + others).drop_last() =~= some + others.drop_last());
        assert(native_words::<F, T>(some + others) =~= native_words::<F, T>(some) + native_words::<
            F,
            T,
        >(others));
    }
}

/// The bytes of some elements are four for each of them, in their order, and give their numbers
/// back.
pub proof fn law_bytes_of_elements(elements: Seq<M31>)
    ensures
        native_words::<M31, u8>(elements).len() == 4 * elements.len(),
        forall|i: int|
            0 <= i < elements.len() ==> (#[trigger] elements[i]).0 == native_words::<M31, u8>(
                elements,
            )[4 * i] + 0x100 * native_words::<M31, u8>(elements)[4 * i + 1] + 0x1_0000
                * native_words::<M31, u8>(elements)[4 * i + 2] + 0x100_0000 * native_words::<
                M31,
                u8,
            >(elements)[4 * i + 3],
    decreases elements.len(),
{
    if elements.len() > 0 {
        let shorter = elements.drop_last();
        let last = elements.last();
        let start = native_words::<M31, u8>(shorter);
        let words = native_words::<M31, u8>(elements);
        law_bytes_of_elements(shorter);
        law_bytes_of_an_element(last.0);
        assert(last == M31(last.0));
        assert(words == start + last.native());
        assert forall|i: int| 0 <= i < elements.len() implies (#[trigger] elements[i]).0 == words[4
            * i] + 0x100 * words[4 * i + 1] + 0x1_0000 * words[4 * i + 2] + 0x100_0000 * words[4 * i
            + 3] by {
            if i < shorter.len() {
                assert(shorter[i] == elements[i]);
            }
        }
    }
}

/// The columns behind references are those references' contents, in their order.
pub proof fn law_contents<F>(columns: Seq<&[F]>)
    ensures
        contents(columns).len() == columns.len(),
        forall|j: int| 0 <= j < columns.len() ==> #[trigger] contents(columns)[j] == columns[j]@,
{
}

/// A column fits a depth exactly where it has a power of two of elements, at least one for each
/// node.
pub proof fn law_which_columns_fit(k: nat, depth: nat, len: int)
    requires
        depth >= 1,
    ensures
        column_fits(pow2(k) as int, depth as int) <==> k + 1 >= depth,
        column_fits(len, depth as int) ==> exists|e: nat|
            e + 1 >= depth && len == #[trigger] pow2(e),
{
    assert(power_of_two(pow2(k) as int));
    if k + 1 < depth {
        lemma_pow2_strictly_increases(k, (depth - 1) as nat);
    } else if k + 1 > depth {
        lemma_pow2_strictly_increases((depth - 1) as nat, k);
    }
    if column_fits(len, depth as int) {
        let e = choose|e: nat| len == #[trigger] pow2(e);
        if e + 1 < depth {
            lemma_pow2_strictly_increases(e, (depth - 1) as nat);
        }
    }
}

/// The elements of a node are its share of every column: those of the first columns and then those
/// of the others. Of a single column of `size` elements for each node it is the `size` elements
/// that start at the place `size * bag`.
pub proof fn law_share_of_every_column<F>(
    column: Seq<F>,
    some: Seq<Seq<F>>,
    others: Seq<Seq<F>>,
    n_bags: int,
    bag: int,
    size: int,
)
    requires
        0 <= bag < n_bags,
        column.len() == size * n_bags,
    ensures
        bag_elements(Seq::<Seq<F>>::empty(), n_bags, bag).len() == 0,
        bag_elements(seq![column], n_bags, bag).len() == size,
        forall|k: int|
            0 <= k < size ==> #[trigger] bag_elements(seq![column], n_bags, bag)[k] == column[size
                * bag + k],
        bag_elements(some + others, n_bags, bag) == bag_elements(some, n_bags, bag) + bag_elements(
            others,
            n_bags,
            bag,
        ),
    decreases others.len(),
{
    let single = bag_elements(seq![column], n_bags, bag);
    assert(seq![column].drop_last() =~= Seq::<Seq<F>>::empty());
    assert(bag_elements(Seq::<Seq<F>>::empty(), n_bags, bag) =~= Seq::empty());
    vstd::arithmetic::div_mod::lemma_fundamental_div_mod_converse(
        column.len() as int,
        n_bags,
        size,
        0,
    );
    assert(column.len() as int / n_bags == size);
    assert(0 <= size && 0 <= bag * size && (bag + 1) * size == bag * size + size && (bag + 1) * size
        <= column.len() && bag * size == size * bag) by (nonlinear_arith)
        requires
            0 <= bag < n_bags,
            column.len() == size * n_bags,
            0 <= column.len(),
    ;
    assert(single =~= column.subrange(bag * size, (bag + 1) * size));
    if others.len() == 0 {
        assert(some + others =~= some);
        assert(bag_elements(some, n_bags, bag) + bag_elements(others, n_bags, bag) =~= bag_elements(
            some,
            n_bags,
            bag,
        ));
    } else {
        law_share_of_every_column(column, some, others.drop_last(), n_bags, bag, size);
        assert((some + others).drop_last() =~= some + others.drop_last());
        assert(bag_elements(some + others, n_bags, bag) =~= bag_elements(some, n_bags, bag)
            + bag_elements(others, n_bags, bag));
    }
}

/// The elements that are injected into a node at a depth are, where that depth has a single
/// column, the part of that column that belongs to the node; further columns add theirs behind
/// it.
pub proof fn law_injected<F: Field, H: Hasher>(
    tree: &MixedDegreeMerkleTree<F, H>,
    depth: nat,
    bag: int,
    j: int,
)
    requires
        tree.well_formed(),
        1 <= depth <= tree.columns().len(),
        0 <= bag < pow2((depth - 1) as nat),
        0 <= j < tree.columns()[depth - 1].len(),
    ensures
        ({
            let columns = tree.columns()[depth - 1];
            let nodes = pow2((depth - 1) as nat) as int;
            let size = columns[j].len() as int / nodes;
            let before = bag_elements(columns.take(j), nodes, bag).len() as int;
            let injected = tree.injected(depth as int, bag);
            &&& size * nodes == columns[j].len()
            &&& bag_elements(columns.take(j + 1), nodes, bag).len() == before + size
            &&& before + size <= injected.len()
            &&& j + 1 == columns.len() ==> injected.len() == before + size
            &&& forall|k: int|
                0 <= k < size ==> #[trigger] injected[before + k] == columns[j][size * bag + k]
        }),
{
    let columns = tree.columns()[depth - 1];
    let nodes = pow2((depth - 1) as nat) as int;
    let size = columns[j].len() as int / nodes;
    let upto = columns.take(j) + seq![columns[j]];
    assert(column_fits(tree.columns()[depth - 1][j].len() as int, 1 + (depth - 1)));
    lemma_power_of_two_divides(columns[j].len() as int, (depth - 1) as nat);
    law_share_of_every_column(columns[j], columns.take(j), seq![columns[j]], nodes, bag, size);
    law_share_of_every_column(columns[j], upto, columns.skip(j + 1), nodes, bag, size);
    assert(upto =~= columns.take(j + 1));
    assert(upto + columns.skip(j + 1) =~= columns);
    let before = bag_elements(columns.take(j), nodes, bag);
    let own = bag_elements(seq![columns[j]], nodes, bag);
    let injected = tree.injected(depth as int, bag);
    assert forall|k: int| 0 <= k < size implies #[trigger] injected[before.len() + k]
        == columns[j][size * bag + k] by {
        assert(injected[before.len() + k] == own[k]);
    }
    if j + 1 == columns.len() {
        assert(columns.skip(j + 1) =~= Seq::<Seq<F>>::empty());
    }
}

/// Where a depth has no columns, nothing is injected.
pub proof fn law_nothing_injected<F: Field, H: Hasher>(
    tree: &MixedDegreeMerkleTree<F, H>,
    depth: int,
    bag: int,
)
    requires
        tree.columns()[depth - 1].len() == 0,
    ensures
        tree.injected(depth, bag).len() == 0,
{
}

/// A child with an even index is the left one of its pair, one with an odd index the right one.
pub proof fn law_left_and_right(pair: usize)
    requires
        2 * pair + 1 <= usize::MAX,
    ensures
        PositionInLayer::child((2 * pair) as usize) == PositionInLayer::Left((2 * pair) as usize),
        PositionInLayer::child((2 * pair + 1) as usize) == PositionInLayer::Right(
            (2 * pair + 1) as usize,
        ),
{
}

/// The sibling of a node is the other node with the same parent.
pub proof fn law_sibling(index: usize)
    ensures
        sibling(index) != index,
        sibling(index) / 2 == index / 2,
        sibling(sibling(index)) == index,
{
}

/// Sizes add up one by one.
pub proof fn law_sum(size: usize, some: Seq<usize>, others: Seq<usize>)
    ensures
        sum_of(Seq::empty()) == 0,
        sum_of(seq![size]) == size,
        sum_of(some + others) == sum_of(some) + sum_of(others),
    decreases others.len(),
{
    assert(seq![size].drop_last() =~= Seq::empty());
    assert(sum_of(seq![size].drop_last()) == 0);
    if others.len() == 0 {
        assert(some + others =~= some);
    } else {
        law_sum(size, some, others.drop_last());
        assert((some + others).drop_last() =~= some + others.drop_last());
    }
}

/// The roots of the last multi layer lie at the top of the tree. Those of every other one lie
/// right below the multi layer above it. The layers below the roots of the first one are its own
/// and no others.
pub proof fn law_where_the_roots_lie(sizes: Seq<usize>, i: int)
    requires
        0 <= i < sizes.len(),
    ensures
        roots_layer(sizes, sizes.len() - 1) == 0,
        i + 1 < sizes.len() ==> roots_layer(sizes, i) == roots_layer(sizes, i + 1) + sizes[i + 1],
        roots_layer(sizes, 0) + sizes[0] == sum_of(sizes),
{
    assert(sizes.take(sizes.len() as int) =~= sizes);
    if i + 1 < sizes.len() {
        assert(sizes.take(i + 2).drop_last() =~= sizes.take(i + 1));
    }
    assert(sizes.take(1).drop_last() =~= Seq::empty());
    assert(sum_of(sizes.take(1).drop_last()) == 0);
}

/// The heights of multi layers are those in their shapes, and a sub-tree has as many places as a
/// full binary tree of its height has nodes.
pub proof fn law_shapes<H: Hasher>(
    multi_layers: Seq<MerkleMultiLayer<H>>,
    config: MerkleMultiLayerConfig,
)
    ensures
        heights(multi_layers).len() == multi_layers.len(),
        forall|i: int|
            0 <= i < multi_layers.len() ==> #[trigger] heights(multi_layers)[i]
                == multi_layers[i].config.sub_tree_height,
        config.well_formed() ==> config.sub_tree_size + 1 == pow2(config.sub_tree_height as nat),
{
}

/// No multi layer is empty exactly where each of them has a height above zero.
pub proof fn law_no_empty_multi_layer<F: Field, H: Hasher>(tree: &MixedDegreeMerkleTree<F, H>)
    ensures
        tree.no_empty_multi_layer() <==> forall|i: int|
            0 <= i < tree.layers().len() ==> (
            #[trigger] tree.layers()[i]).config.sub_tree_height >= 1,
{
}

/// In a multi layer a node hashes its two children and then its elements. In the lowest layer the
/// children are the hashes of the layer below, where the multi layer is an intermediate one, and
/// there are none where it is not.
pub proof fn law_hash_in_a_multi_layer<F: Field + IntoSlice<H::NativeType>, H: Hasher>(
    columns: Seq<Seq<Seq<F>>>,
    n_sub_trees: int,
    prev_hashes: Seq<H::Hash>,
    is_intermediate: bool,
    layer: int,
    position: int,
)
    requires
        0 <= layer < columns.len(),
    ensures
        ({
            let lower = lower_hashes::<H>(is_intermediate, prev_hashes);
            let own = multi_layer_digest::<F, H>(columns, n_sub_trees, lower, layer, position);
            let elements = native_words::<F, H::NativeType>(
                bag_elements(columns[layer], n_sub_trees * pow2(layer as nat), position),
            );
            &&& layer + 1 < columns.len() ==> own == H::digest(
                multi_layer_digest::<F, H>(
                    columns,
                    n_sub_trees,
                    lower,
                    layer + 1,
                    position + position,
                ) + multi_layer_digest::<F, H>(
                    columns,
                    n_sub_trees,
                    lower,
                    layer + 1,
                    position + position + 1,
                ) + elements,
            )
            &&& layer + 1 == columns.len() && is_intermediate ==> own == H::digest(
                prev_hashes[position + position].words() + prev_hashes[position + position
                    + 1].words() + elements,
            )
            &&& layer + 1 == columns.len() && !is_intermediate ==> own == H::digest(elements)
        }),
{
    let elements = native_words::<F, H::NativeType>(
        bag_elements(columns[layer], n_sub_trees * pow2(layer as nat), position),
    );
    assert(Seq::<H::NativeType>::empty() + elements =~= elements);
}

/// The contents of a decommitment are those of its nodes, layer by layer and node by node.
pub proof fn law_contents_of_a_decommitment<F: Field, H: Hasher>(
    decommitment: MixedDecommitment<F, H>,
    nodes: Seq<DecommitmentNode<F, H>>,
    k: int,
    i: int,
)
    ensures
        decommitment@.len() == decommitment.decommitment_layers@.len(),
        0 <= k < decommitment@.len() ==> decommitment@[k] == layer_view(
            decommitment.decommitment_layers@[k]@,
        ),
        layer_view(nodes).len() == nodes.len(),
        0 <= i < nodes.len() ==> {
            &&& layer_view(nodes)[i].hash == nodes[i].hash
            &&& layer_view(nodes)[i].position_in_layer == nodes[i].position_in_layer
            &&& layer_view(nodes)[i].injected_elements == nodes[i].injected_elements@
        },
{
}

/// A decommitment reveals each queried leaf in turn: at its own place, with its own elements and
/// without a hash.
pub proof fn law_leaves_of_a_decommitment<F: Field, H: Hasher>(
    tree: &MixedDegreeMerkleTree<F, H>,
    queries: Seq<usize>,
)
    ensures
        tree.leaf_layer(queries).len() == queries.len(),
        forall|i: int|
            0 <= i < queries.len() ==> {
                let leaf = #[trigger] tree.leaf_layer(queries)[i];
                &&& leaf.hash is None
                &&& leaf.position_in_layer == PositionInLayer::Leaf(queries[i])
                &&& leaf.injected_elements == tree.injected(
                    tree.columns().len() as int,
                    queries[i] as int,
                )
            },
{
}

/// A decommitment has one layer for each layer of the tree: the leaves, and then, from the leaves
/// up, what is revealed for the queried leaves and for their ancestors.
pub proof fn law_layers_of_a_decommitment<F: Field, H: Hasher>(
    tree: &MixedDegreeMerkleTree<F, H>,
    queries: Seq<usize>,
    layer: int,
)
    requires
        1 <= layer < tree.columns().len(),
    ensures
        tree.decommitment(queries).len() == tree.columns().len(),
        tree.decommitment(queries)[0] == tree.leaf_layer(queries),
        tree.decommitment(queries)[tree.columns().len() - layer] == tree.intermediate_layer(
            layer,
            ancestors(queries, (tree.columns().len() - 1 - layer) as nat),
        ),
{
}

/// Where there are no layers below the root, a decommitment holds the leaves and nothing else.
pub proof fn law_decommitment_of_the_root<F: Field, H: Hasher>(
    tree: &MixedDegreeMerkleTree<F, H>,
    queries: Seq<usize>,
)
    requires
        tree.columns().len() <= 1,
    ensures
        tree.decommitment(queries) == seq![tree.leaf_layer(queries)],
{
    assert(tree.decommitment(queries) =~= seq![tree.leaf_layer(queries)]);
}

/// Nothing is revealed for no queries. For a query the next one of which is not its sibling, one
/// node comes first: the hash that is held for the sibling, at the place of the sibling, and the
/// elements of the parent. For two siblings in a row, one node without a hash comes first, at the
/// place of the second one, where the parent has elements, and none where it has none. Then comes
/// what is revealed for the rest.
pub proof fn law_order_of_revealing<F: Field, H: Hasher>(
    tree: &MixedDegreeMerkleTree<F, H>,
    layer: int,
    pair: usize,
    rest: Seq<usize>,
)
    requires
        2 * pair + 1 <= usize::MAX,
    ensures
        tree.intermediate_layer(layer, Seq::empty()).len() == 0,
        ({
            let left = (2 * pair) as usize;
            let right = (2 * pair + 1) as usize;
            let elements = tree.injected(layer, pair as int);
            let then = tree.intermediate_layer(layer, rest);
            &&& rest.len() == 0 || rest[0] != right ==> tree.intermediate_layer(
                layer,
                seq![left] + rest,
            ) == seq![
                NodeView {
                    hash: Some(tree.hash_at(layer, right as int)),
                    position_in_layer: PositionInLayer::Right(right),
                    injected_elements: elements,
                },
            ] + then
            &&& rest.len() == 0 || rest[0] != left ==> tree.intermediate_layer(
                layer,
                seq![right] + rest,
            ) == seq![
                NodeView {
                    hash: Some(tree.hash_at(layer, left as int)),
                    position_in_layer: PositionInLayer::Left(left),
                    injected_elements: elements,
                },
            ] + then
            &&& elements.len() > 0 ==> tree.intermediate_layer(layer, seq![left, right] + rest)
                == seq![
                NodeView {
                    hash: None,
                    position_in_layer: PositionInLayer::Right(right),
                    injected_elements: elements,
                },
            ] + then
            &&& elements.len() > 0 ==> tree.intermediate_layer(layer, seq![right, left] + rest)
                == seq![
                NodeView {
                    hash: None,
                    position_in_layer: PositionInLayer::Left(left),
                    injected_elements: elements,
                },
            ] + then
            &&& elements.len() == 0 ==> tree.intermediate_layer(layer, seq![left, right] + rest)
                == then && tree.intermediate_layer(layer, seq![right, left] + rest) == then
        }),
{
    let left = (2 * pair) as usize;
    let right = (2 * pair + 1) as usize;
    assert((seq![left] + rest).skip(1) =~= rest);
    assert((seq![right] + rest).skip(1) =~= rest);
    assert((seq![left, right] + rest).skip(2) =~= rest);
    assert((seq![right, left] + rest).skip(2) =~= rest);
    assert(sibling(left) == right);
    assert(sibling(right) == left);
    assert(starts_with_siblings(seq![left, right] + rest));
    assert(starts_with_siblings(seq![right, left] + rest));
    if rest.len() > 0 {
        assert((seq![left] + rest)[1] == rest[0]);
        assert((seq![right] + rest)[1] == rest[0]);
    }
}

/// Leaving out repeats works from list to list: only where the second list starts with what the
/// first one ends with is something more left out, the start of the second one.
proof fn lemma_without_repeats_joined(some: Seq<usize>, others: Seq<usize>)
    requires
        some.len() > 0,
        others.len() > 0,
    ensures
        without_repeats(others).len() > 0,
        without_repeats(some + others) == without_repeats(some) + if some.last() == others[0] {
            without_repeats(others).skip(1)
        } else {
            without_repeats(others)
        },
    decreases others.len(),
{
    let whole = some + others;
    assert(whole.last() == others.last());
    if others.len() == 1 {
        assert(whole.drop_last() =~= some);
        assert(whole[whole.len() - 2] == some.last());
        assert(without_repeats(others) == others);
        if some.last() == others[0] {
            assert(without_repeats(some) + others.skip(1) =~= without_repeats(some));
        } else {
            assert(without_repeats(some).push(others[0]) =~= without_repeats(some) + others);
        }
    } else {
        let shorter = others.drop_last();
        lemma_without_repeats_joined(some, shorter);
        assert(whole.drop_last() =~= some + shorter);
        assert(whole[whole.len() - 2] == others[others.len() - 2]);
        if others.last() != others[others.len() - 2] {
            assert(without_repeats(others) == without_repeats(shorter).push(others.last()));
            assert(without_repeats(whole) == without_repeats(some + shorter).push(others.last()));
            assert(without_repeats(shorter).push(others.last()).skip(1) =~= without_repeats(
                shorter,
            ).skip(1).push(others.last()));
            assert(without_repeats(whole) =~= without_repeats(some) + if some.last()
                == others[0] {
                without_repeats(others).skip(1)
            } else {
                without_repeats(others)
            });
        }
    }
}

/// The parent of a single node is the half of its index. The parents of two lists of nodes are
/// those of the first and then those of the second, without the first one of them where the last
/// node of the first list and the first node of the second have the same parent.
pub proof fn law_parents_in_order(child: usize, some: Seq<usize>, others: Seq<usize>)
    ensures
        parents(Seq::empty()) == Seq::<usize>::empty(),
        parents(seq![child]) == seq![child / 2],
        some.len() > 0 && others.len() > 0 && some.last() / 2 == others[0] / 2 ==> parents(
            some + others,
        ) == parents(some) + parents(others).skip(1),
        some.len() > 0 && others.len() > 0 && some.last() / 2 != others[0] / 2 ==> parents(
            some + others,
        ) == parents(some) + parents(others),
{
    assert(parents(Seq::empty()) =~= Seq::<usize>::empty());
    assert(Seq::new(1, |i: int| seq![child][i] / 2) =~= seq![child / 2]);
    if some.len() > 0 && others.len() > 0 {
        let whole = some + others;
        let some_halves = Seq::new(some.len(), |i: int| some[i] / 2);
        let other_halves = Seq::new(others.len(), |i: int| others[i] / 2);
        assert(Seq::new(whole.len(), |i: int| whole[i] / 2) =~= some_halves + other_halves);
        lemma_without_repeats_joined(some_halves, other_halves);
    }
}

/// Going up no step leaves the nodes as they are, one step gives their parents, and going up in two
/// goes is going up as many steps as both together.
pub proof fn law_ancestors_of_ancestors(indices: Seq<usize>, first: nat, second: nat)
    ensures
        ancestors(indices, 0) == indices,
        ancestors(indices, 1) == parents(indices),
        ancestors(ancestors(indices, first), second) == ancestors(indices, first + second),
    decreases second,
{
    assert(ancestors(indices, 0) == indices);
    if second > 0 {
        law_ancestors_of_ancestors(indices, first, (second - 1) as nat);
    }
}

/// The nodes that lie some steps above other nodes are those whose indices come from dividing by
/// two that many times, and no others.
pub proof fn law_ancestors(indices: Seq<usize>, steps: nat)
    ensures
        forall|p: usize|
            #[trigger] ancestors(indices, steps).contains(p) <==> exists|i: int|
                0 <= i < indices.len() && (#[trigger] indices[i]) as int / pow2(steps) as int == p,
    decreases steps,
{
    lemma_pow2_small();
    if steps == 0 {
        assert forall|p: usize| #[trigger] ancestors(indices, steps).contains(p) <==> exists|
            i: int,
        |
            0 <= i < indices.len() && (#[trigger] indices[i]) as int / pow2(steps) as int == p by {
            if indices.contains(p) {
                let i = indices.index_of(p);
                assert(indices[i] as int / pow2(steps) as int == p);
            }
        }
    } else {
        let below = ancestors(indices, (steps - 1) as nat);
        law_ancestors(indices, (steps - 1) as nat);
        law_parents(below);
        lemma_pow2_pos((steps - 1) as nat);
        lemma_pow2_unfold(steps);
        assert forall|x: int| x >= 0 implies #[trigger] (x / pow2(steps) as int) == x / pow2(
            (steps - 1) as nat,
        ) as int / 2 by {
            vstd::arithmetic::div_mod::lemma_div_denominator(x, pow2((steps - 1) as nat) as int, 2);
        }
        assert forall|p: usize| #[trigger] ancestors(indices, steps).contains(p) <==> exists|
            i: int,
        |
            0 <= i < indices.len() && (#[trigger] indices[i]) as int / pow2(steps) as int == p by {
            if ancestors(indices, steps).contains(p) {
                let j = choose|j: int| 0 <= j < below.len() && #[trigger] below[j] / 2 == p;
                assert(below.contains(below[j]));
                let i = choose|i: int|
                    0 <= i < indices.len() && (#[trigger] indices[i]) as int / pow2(
                        (steps - 1) as nat,
                    ) as int == below[j];
                assert(indices[i] as int / pow2(steps) as int == p);
            }
            if exists|i: int|
                0 <= i < indices.len() && (#[trigger] indices[i]) as int / pow2(steps) as int
                    == p {
                let i = choose|i: int|
                    0 <= i < indices.len() && (#[trigger] indices[i]) as int / pow2(steps) as int
                        == p;
                let half = indices[i] as int / pow2((steps - 1) as nat) as int;
                assert(0 <= half <= indices[i]) by {
                    vstd::arithmetic::div_mod::lemma_div_pos_is_pos(
                        indices[i] as int,
                        pow2((steps - 1) as nat) as int,
                    );
                    vstd::arithmetic::div_mod::lemma_div_is_ordered_by_denominator(
                        indices[i] as int,
                        1,
                        pow2((steps - 1) as nat) as int,
                    );
                }
                assert(below.contains(half as usize));
                let j = below.index_of(half as usize);
                assert(below[j] / 2 == p);
            }
        }
    }
}

/// Indices are below a bound exactly where each of them is.
pub proof fn law_all_below(indices: Seq<usize>, bound: int)
    ensures
        all_below(indices, bound) <==> forall|i: int|
            0 <= i < indices.len() ==> #[trigger] indices[i] < bound,
{
}

/// Queries are paired exactly where they start with a pair of siblings and the rest is paired.
pub proof fn law_all_paired(first: usize, second: usize, rest: Seq<usize>)
    ensures
        all_paired(Seq::empty()),
        !all_paired(seq![first]),
        all_paired(seq![first, second] + rest) <==> first != second && first / 2 == second / 2
            && all_paired(rest),
{
    let whole = seq![first, second] + rest;
    assert(whole.skip(2) =~= rest);
    assert(whole[0] == first && whole[1] == second);
    assert(sibling(first) == second <==> first != second && first / 2 == second / 2);
    assert(after_first(whole) == if starts_with_siblings(whole) {
        rest
    } else {
        whole.skip(1)
    });
}

} // verus!
