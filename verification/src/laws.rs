//! What holds of the tree as a whole.

use vstd::arithmetic::power2::{lemma_pow2_pos, lemma_pow2_unfold, pow2};
use vstd::prelude::*;

use crate::fields::{native_words, Field, IntoSlice};
use crate::hasher::{Digest, Hasher};
use crate::merkle_input::{bag_elements, column_bag, column_fits};
use crate::mixed_degree_decommitment::{NodeView, PositionInLayer};
use crate::mixed_degree_merkle_tree::MixedDegreeMerkleTree;
use crate::powers::{lemma_pow2_small, lemma_power_of_two_divides};
use crate::tree_model::{
    after_first, all_below, ancestors, heights, lemma_parents_below, node_digest, parents, sibling,
    starts_with_siblings, without_repeats,
};

verus! {

/// Cutting an input in two and putting the upper part back above the lower one restores it.
pub proof fn law_split_and_prepend<F>(layers: Seq<Seq<Seq<F>>>, split_at: int)
    requires
        1 <= split_at <= layers.len() + 1,
    ensures
        layers.take(split_at - 1) + layers.skip(split_at - 1) == layers,
{
    assert(layers.take(split_at - 1) + layers.skip(split_at - 1) =~= layers);
}

/// The first `count` bags of a column that is cut into `n_bags` bags, one behind the other.
pub open spec fn first_bags<F>(column: Seq<F>, n_bags: int, count: nat) -> Seq<F>
    decreases count,
{
    if count == 0 {
        Seq::empty()
    } else {
        first_bags(column, n_bags, (count - 1) as nat) + column_bag(column, n_bags, count - 1)
    }
}

/// The first bags of a column are its first elements.
proof fn lemma_first_bags<F>(column: Seq<F>, n_bags: int, count: nat)
    requires
        0 < n_bags,
        count <= n_bags,
    ensures
        0 <= count * (column.len() as int / n_bags) <= column.len(),
        first_bags(column, n_bags, count) == column.take(
            count * (column.len() as int / n_bags),
        ),
    decreases count,
{
    let len = column.len() as int;
    let size = len / n_bags;
    vstd::arithmetic::div_mod::lemma_fundamental_div_mod(len, n_bags);
    assert(0 <= count * size <= len) by (nonlinear_arith)
        requires
            0 <= count <= n_bags,
            len == n_bags * size + len % n_bags,
            0 <= len % n_bags,
            0 <= size,
    ;
    if count > 0 {
        lemma_first_bags(column, n_bags, (count - 1) as nat);
        assert(count * size == (count - 1) * size + size) by (nonlinear_arith);
        assert(column_bag(column, n_bags, count - 1) == column.subrange(
            (count - 1) * size,
            count * size,
        ));
    } else {
        assert(count * size == 0) by (nonlinear_arith)
            requires
                count == 0,
        ;
    }
    assert(first_bags(column, n_bags, count) =~= column.take(count * size));
}

/// Every element of a column is injected into exactly one node: the bags of the nodes of its
/// layer, one behind the other, are the column.
pub proof fn law_bags_make_up_the_column<F>(column: Seq<F>, depth: nat)
    requires
        depth >= 1,
        column_fits(column.len() as int, depth as int),
    ensures
        first_bags(column, pow2((depth - 1) as nat) as int, pow2((depth - 1) as nat)) == column,
{
    let n_bags = pow2((depth - 1) as nat);
    lemma_pow2_pos((depth - 1) as nat);
    lemma_power_of_two_divides(column.len() as int, (depth - 1) as nat);
    lemma_first_bags(column, n_bags as int, n_bags);
    assert(n_bags * (column.len() as int / n_bags as int) == column.len()) by (nonlinear_arith)
        requires
            column.len() == (column.len() as int / n_bags as int) * n_bags,
    ;
    assert(column.take(column.len() as int) =~= column);
}

/// The top multi layer of a tree is a single sub-tree, so the tree has exactly one root.
pub proof fn law_one_root<F: Field, H: Hasher>(tree: &MixedDegreeMerkleTree<F, H>)
    requires
        tree.well_formed(),
        tree.layers().len() > 0,
    ensures
        tree.layers().last().well_formed(),
        tree.layers().last().config.n_sub_trees == 1,
{
    let sizes = heights(tree.layers());
    assert(sizes.take(sizes.len() as int) =~= sizes);
    lemma_pow2_small();
    assert(tree.layers()[tree.layers().len() - 1].well_formed());
}

/// In a committed tree the hash of a leaf is that of its elements, and the hash of every other
/// node is that of the hashes of its two children and of its elements.
pub proof fn law_hash_of_a_node<F: Field + IntoSlice<H::NativeType>, H: Hasher>(
    tree: &MixedDegreeMerkleTree<F, H>,
    layer: int,
    position: int,
)
    requires
        tree.committed(),
        0 <= layer < tree.columns().len(),
        0 <= position < pow2(layer as nat),
    ensures
        layer + 1 == tree.columns().len() ==> tree.hash_at(layer, position).words() == H::digest(
            native_words::<F, H::NativeType>(tree.injected(layer + 1, position)),
        ),
        layer + 1 < tree.columns().len() ==> tree.hash_at(layer, position).words() == H::digest(
            tree.hash_at(layer + 1, 2 * position).words() + tree.hash_at(
                layer + 1,
                2 * position + 1,
            ).words() + native_words::<F, H::NativeType>(tree.injected(layer + 1, position)),
        ),
{
    lemma_pow2_unfold((layer + 1) as nat);
    let elements = native_words::<F, H::NativeType>(tree.injected(layer + 1, position));
    assert(Seq::<H::NativeType>::empty() + elements =~= elements);
}

/// The hashes of committed trees over the same columns are the same, however the layers are
/// spread over multi layers. So committing anew changes nothing.
pub proof fn law_hashes_depend_on_the_columns_alone<
    F: Field + IntoSlice<H::NativeType>,
    H: Hasher,
>(
    tree: &MixedDegreeMerkleTree<F, H>,
    other: &MixedDegreeMerkleTree<F, H>,
    layer: int,
    position: int,
)
    requires
        tree.committed(),
        other.committed(),
        tree.columns() == other.columns(),
        0 <= layer < tree.columns().len(),
        0 <= position < pow2(layer as nat),
    ensures
        tree.hash_at(layer, position) == other.hash_at(layer, position),
{
    H::Hash::words_determine_value(
        tree.hash_at(layer, position),
        other.hash_at(layer, position),
    );
}

/// Whether `indices` grow from each one to the next.
pub open spec fn increasing(indices: Seq<usize>) -> bool {
    forall|i: int, j: int| 0 <= i < j < indices.len() ==> indices[i] < indices[j]
}

/// Whether `indices` never fall from one to the next.
pub open spec fn never_falling(indices: Seq<usize>) -> bool {
    forall|i: int, j: int| 0 <= i < j < indices.len() ==> indices[i] <= indices[j]
}

/// Leaving out repeats keeps every index, and makes indices that never fall grow.
proof fn lemma_without_repeats(indices: Seq<usize>)
    ensures
        without_repeats(indices).len() <= indices.len(),
        indices.len() > 0 ==> without_repeats(indices).len() > 0 && without_repeats(indices)[0]
            == indices[0] && without_repeats(indices).last() == indices.last(),
        forall|p: usize| #[trigger] without_repeats(indices).contains(p) <==> indices.contains(p),
        never_falling(indices) ==> increasing(without_repeats(indices)),
    decreases indices.len(),
{
    if indices.len() > 1 {
        let shorter = indices.drop_last();
        let kept = without_repeats(shorter);
        lemma_without_repeats(shorter);
        assert forall|p: usize| #[trigger] without_repeats(indices).contains(p)
            <==> indices.contains(p) by {
            assert(kept.contains(p) <==> shorter.contains(p));
            if indices.contains(p) {
                let i = indices.index_of(p);
                if i < shorter.len() {
                    assert(shorter[i] == p);
                    assert(kept.contains(p));
                    let j = kept.index_of(p);
                    assert(without_repeats(indices)[j] == p);
                } else {
                    assert(without_repeats(indices).last() == p);
                }
            }
            if without_repeats(indices).contains(p) {
                let j = without_repeats(indices).index_of(p);
                if j < kept.len() {
                    assert(kept[j] == p);
                    assert(shorter.contains(p));
                    let i = shorter.index_of(p);
                    assert(indices[i] == p);
                } else {
                    assert(indices.last() == p);
                }
            }
        }
        if never_falling(indices) {
            assert(never_falling(shorter));
            assert(shorter.last() <= indices.last());
        }
    }
}

/// The parents of some nodes are the halves of their indices and nothing else. Where the indices
/// of the nodes never fall, those of their parents grow.
pub proof fn law_parents(children: Seq<usize>)
    ensures
        forall|p: usize|
            #[trigger] parents(children).contains(p) <==> exists|i: int|
                0 <= i < children.len() && #[trigger] children[i] / 2 == p,
        never_falling(children) ==> increasing(parents(children)),
{
    let halves = Seq::new(children.len(), |i: int| children[i] / 2);
    lemma_without_repeats(halves);
    assert forall|p: usize| #[trigger] parents(children).contains(p) <==> exists|i: int|
        0 <= i < children.len() && #[trigger] children[i] / 2 == p by {
        if exists|i: int| 0 <= i < children.len() && #[trigger] children[i] / 2 == p {
            let i = choose|i: int| 0 <= i < children.len() && #[trigger] children[i] / 2 == p;
            assert(halves[i] == p);
        }
        if halves.contains(p) {
            let i = halves.index_of(p);
            assert(children[i] / 2 == p);
        }
    }
}

/// The node that reveals the hash of the sibling of `query`.
pub open spec fn sibling_node<F: Field, H: Hasher>(
    tree: &MixedDegreeMerkleTree<F, H>,
    layer: int,
    query: usize,
) -> NodeView<F, H::Hash> {
    NodeView {
        hash: Some(tree.hash_at(layer, sibling(query) as int)),
        position_in_layer: PositionInLayer::child(sibling(query)),
        injected_elements: tree.injected(layer, query as int / 2),
    }
}

/// The node that reveals the elements of the parent of `query`, the sibling of which is queried.
pub open spec fn elements_node<F: Field, H: Hasher>(
    tree: &MixedDegreeMerkleTree<F, H>,
    layer: int,
    query: usize,
) -> NodeView<F, H::Hash> {
    NodeView {
        hash: None,
        position_in_layer: PositionInLayer::child(sibling(query)),
        injected_elements: tree.injected(layer, query as int / 2),
    }
}

/// Whether `node` is what a layer of a decommitment has to reveal for `query`: a hash where the
/// sibling is not queried; where it is, the elements of the parent, if there are any, once for
/// the two siblings: for the left one, in a node that stands at the place of the right one.
pub open spec fn reveals<F: Field, H: Hasher>(
    tree: &MixedDegreeMerkleTree<F, H>,
    layer: int,
    queries: Seq<usize>,
    query: usize,
    node: NodeView<F, H::Hash>,
) -> bool {
    if queries.contains(sibling(query)) {
        &&& query % 2 == 0
        &&& tree.injected(layer, query as int / 2).len() > 0
        &&& node == elements_node(tree, layer, query)
    } else {
        node == sibling_node(tree, layer, query)
    }
}

/// The first of some growing queries is paired with the next one exactly where its sibling is
/// queried, and taking it away, or the pair, takes no sibling from the other queries.
proof fn lemma_first_query(queries: Seq<usize>)
    requires
        increasing(queries),
        queries.len() > 0,
    ensures
        ({
            let first = queries[0];
            let paired = starts_with_siblings(queries);
            let rest = after_first(queries);
            &&& queries.contains(sibling(first)) <==> paired
            &&& paired ==> first % 2 == 0 && queries[1] % 2 == 1 && sibling(queries[1]) == first
            &&& increasing(rest)
            &&& !rest.contains(first)
            &&& forall|x: usize| #[trigger]
                queries.contains(x) <==> x == first || (paired && x == queries[1]) || rest.contains(
                    x,
                )
            &&& forall|x: usize| #[trigger]
                rest.contains(x) ==> (queries.contains(sibling(x)) <==> rest.contains(sibling(x)))
        }),
{
    let first = queries[0];
    let paired = starts_with_siblings(queries);
    let rest = after_first(queries);
    let taken = queries.len() - rest.len();
    if queries.contains(sibling(first)) {
        let j = queries.index_of(sibling(first));
        assert(queries[j] == sibling(first));
        assert(j > 0);
        assert(queries[1] <= queries[j]);
    }
    if paired {
        assert(queries[0] < queries[1]);
    }
    assert forall|x: usize| #[trigger] queries.contains(x) <==> x == first || (paired && x
        == queries[1]) || rest.contains(x) by {
        if queries.contains(x) {
            let j = queries.index_of(x);
            if j >= taken {
                assert(rest[j - taken] == x);
            }
        }
        if rest.contains(x) {
            let j = rest.index_of(x);
            assert(queries[j + taken] == x);
        }
    }
    assert forall|x: usize| #[trigger] rest.contains(x) implies first < x && (paired ==> queries[1]
        < x) by {
        let j = rest.index_of(x);
        assert(rest[j] == queries[j + taken]);
    }
    assert forall|x: usize| #[trigger] rest.contains(x) implies (queries.contains(sibling(x))
        <==> rest.contains(sibling(x))) by {
        assert(sibling(sibling(x)) == x);
        assert(queries.contains(x));
        if sibling(x) == first {
            assert(sibling(first) == x);
        }
    }
}

/// Where the queries grow, a layer of a decommitment reveals what it has to reveal for each query,
/// once, and nothing else.
pub proof fn law_what_a_layer_reveals<F: Field, H: Hasher>(
    tree: &MixedDegreeMerkleTree<F, H>,
    layer: int,
    queries: Seq<usize>,
)
    requires
        increasing(queries),
    ensures
        forall|node: NodeView<F, H::Hash>|
            #[trigger] tree.intermediate_layer(layer, queries).contains(node) <==> exists|
                query: usize,
            |
                queries.contains(query) && #[trigger] reveals(tree, layer, queries, query, node),
        tree.intermediate_layer(layer, queries).no_duplicates(),
    decreases queries.len(),
{
    let nodes = tree.intermediate_layer(layer, queries);
    if queries.len() > 0 {
        let first = queries[0];
        let paired = starts_with_siblings(queries);
        let rest = after_first(queries);
        let others = tree.intermediate_layer(layer, rest);
        let own = if paired {
            elements_node(tree, layer, first)
        } else {
            sibling_node(tree, layer, first)
        };
        let shown = !paired || own.injected_elements.len() > 0;
        lemma_first_query(queries);
        law_what_a_layer_reveals(tree, layer, rest);
        assert(nodes == if shown {
            seq![own] + others
        } else {
            others
        });
        assert forall|query: usize, node: NodeView<F, H::Hash>|
            rest.contains(query) implies #[trigger] reveals(tree, layer, rest, query, node)
            == reveals(tree, layer, queries, query, node) by {}
        assert forall|node: NodeView<F, H::Hash>| #[trigger]
            nodes.contains(node) <==> (shown && node == own) || others.contains(node) by {
            if nodes.contains(node) {
                let j = nodes.index_of(node);
                if shown && j > 0 {
                    assert(others[j - 1] == node);
                }
            }
            if shown && node == own {
                assert(nodes[0] == node);
            }
            if others.contains(node) {
                let j = others.index_of(node);
                assert(if shown {
                    nodes[j + 1] == node
                } else {
                    nodes[j] == node
                });
            }
        }
        assert forall|node: NodeView<F, H::Hash>| #[trigger] nodes.contains(node) <==> exists|
            query: usize,
        |
            queries.contains(query) && #[trigger] reveals(tree, layer, queries, query, node) by {
            assert(queries.contains(first));
            assert(reveals(tree, layer, queries, first, node) <==> shown && node == own);
            if others.contains(node) {
                let query = choose|query: usize|
                    rest.contains(query) && #[trigger] reveals(tree, layer, rest, query, node);
                assert(queries.contains(query));
                assert(reveals(tree, layer, queries, query, node));
            }
            if exists|query: usize|
                queries.contains(query) && #[trigger] reveals(tree, layer, queries, query, node) {
                let query = choose|query: usize|
                    queries.contains(query) && #[trigger] reveals(
                        tree,
                        layer,
                        queries,
                        query,
                        node,
                    );
                if rest.contains(query) {
                    assert(reveals(tree, layer, rest, query, node));
                    assert(others.contains(node));
                } else if query != first {
                    assert(query == queries[1]);
                }
            }
        }
        if shown && others.contains(own) {
            let query = choose|query: usize|
                rest.contains(query) && #[trigger] reveals(tree, layer, rest, query, own);
            assert(sibling(sibling(query)) == query);
            assert(sibling(sibling(first)) == first);
            assert(false);
        }
        assert(nodes.no_duplicates()) by {
            assert forall|i: int, j: int|
                0 <= i < nodes.len() && 0 <= j < nodes.len() && i != j implies nodes[i]
                != nodes[j] by {
                if shown {
                    if i > 0 {
                        assert(nodes[i] == others[i - 1]);
                        assert(others.contains(others[i - 1]));
                    }
                    if j > 0 {
                        assert(nodes[j] == others[j - 1]);
                        assert(others.contains(others[j - 1]));
                    }
                }
            }
        }
    }
}

/// The index of the parent for which a node of a decommitment is revealed, where it is no leaf.
pub open spec fn bag_of<F, D>(node: NodeView<F, D>) -> usize {
    match node.position_in_layer {
        PositionInLayer::Leaf(index) => index,
        PositionInLayer::Left(index) => index / 2,
        PositionInLayer::Right(index) => index / 2,
    }
}

/// Where the queries grow, so do the parents for which the nodes of a layer of a decommitment are
/// revealed.
pub proof fn law_order_of_a_layer<F: Field, H: Hasher>(
    tree: &MixedDegreeMerkleTree<F, H>,
    layer: int,
    queries: Seq<usize>,
)
    requires
        increasing(queries),
    ensures
        forall|i: int, j: int|
            0 <= i < j < tree.intermediate_layer(layer, queries).len() ==> bag_of(
                #[trigger] tree.intermediate_layer(layer, queries)[i],
            ) < bag_of(#[trigger] tree.intermediate_layer(layer, queries)[j]),
    decreases queries.len(),
{
    let nodes = tree.intermediate_layer(layer, queries);
    if queries.len() > 0 {
        let first = queries[0];
        let rest = after_first(queries);
        let others = tree.intermediate_layer(layer, rest);
        lemma_first_query(queries);
        law_order_of_a_layer(tree, layer, rest);
        law_what_a_layer_reveals(tree, layer, rest);
        assert forall|k: int| 0 <= k < others.len() implies first / 2 < bag_of(
            #[trigger] others[k],
        ) by {
            assert(others.contains(others[k]));
            let query = choose|query: usize|
                rest.contains(query) && #[trigger] reveals(tree, layer, rest, query, others[k]);
            assert(queries.contains(query));
            let i = queries.index_of(query);
            assert(queries[0] < queries[i]);
            assert(query != sibling(first));
        }
        assert forall|i: int, j: int| 0 <= i < j < nodes.len() implies bag_of(
            #[trigger] nodes[i],
        ) < bag_of(#[trigger] nodes[j]) by {
            if nodes.len() > others.len() {
                assert(nodes[j] == others[j - 1]);
                if i > 0 {
                    assert(nodes[i] == others[i - 1]);
                }
            } else {
                assert(nodes == others);
            }
        }
    }
}

/// The words of the hash of a parent, from those of the hashes of the node `index` and of its
/// sibling, and from the elements that are injected into the parent.
pub open spec fn parent_digest<F: Field + IntoSlice<H::NativeType>, H: Hasher>(
    index: usize,
    own: Seq<H::NativeType>,
    other: Seq<H::NativeType>,
    elements: Seq<F>,
) -> Seq<H::NativeType> {
    let children = if index % 2 == 0 {
        own + other
    } else {
        other + own
    };
    H::digest(children + native_words::<F, H::NativeType>(elements))
}

/// What someone who knows the hashes `known` of some nodes of a layer, each with the index of its
/// node, computes of their parents with the help of the nodes that a decommitment reveals.
pub open spec fn climb<F: Field + IntoSlice<H::NativeType>, H: Hasher>(
    nodes: Seq<NodeView<F, H::Hash>>,
    known: Seq<(usize, Seq<H::NativeType>)>,
) -> Seq<(usize, Seq<H::NativeType>)>
    decreases known.len(),
{
    if known.len() == 0 {
        Seq::empty()
    } else {
        let (index, own) = known[0];
        if known.len() > 1 && known[1].0 == sibling(index) {
            let other = known[1].1;
            if nodes.len() > 0 && nodes[0].hash is None {
                seq![
                    (
                        index / 2,
                        parent_digest::<F, H>(index, own, other, nodes[0].injected_elements),
                    ),
                ] + climb::<F, H>(nodes.skip(1), known.skip(2))
            } else {
                seq![(index / 2, parent_digest::<F, H>(index, own, other, Seq::empty()))] + climb::<
                    F,
                    H,
                >(nodes, known.skip(2))
            }
        } else {
            let node = nodes[0];
            let other = node.hash->Some_0.words();
            seq![
                (index / 2, parent_digest::<F, H>(index, own, other, node.injected_elements)),
            ] + climb::<F, H>(nodes.skip(1), known.skip(1))
        }
    }
}

/// `known` without the entries that have the index of the one right before them.
pub open spec fn without_repeated_entries<W>(known: Seq<(usize, W)>) -> Seq<(usize, W)>
    decreases known.len(),
{
    if known.len() <= 1 {
        known
    } else if known.last().0 == known[known.len() - 2].0 {
        without_repeated_entries(known.drop_last())
    } else {
        without_repeated_entries(known.drop_last()).push(known.last())
    }
}

/// The hashes that are computed from a decommitment `steps` steps above the leaves.
pub open spec fn computed<F: Field + IntoSlice<H::NativeType>, H: Hasher>(
    decommitment: Seq<Seq<NodeView<F, H::Hash>>>,
    queries: Seq<usize>,
    steps: nat,
) -> Seq<(usize, Seq<H::NativeType>)>
    decreases steps,
{
    if steps == 0 {
        Seq::new(
            queries.len(),
            |i: int|
                (
                    queries[i],
                    H::digest(
                        native_words::<F, H::NativeType>(decommitment[0][i].injected_elements),
                    ),
                ),
        )
    } else {
        without_repeated_entries(
            climb::<F, H>(
                decommitment[steps as int],
                computed::<F, H>(decommitment, queries, (steps - 1) as nat),
            ),
        )
    }
}

/// The indices of `known`.
pub open spec fn indices_of<W>(known: Seq<(usize, W)>) -> Seq<usize> {
    Seq::new(known.len(), |i: int| known[i].0)
}

/// Whether all hashes in `known` are those that belong to their nodes.
pub open spec fn all_correct<F: Field + IntoSlice<H::NativeType>, H: Hasher>(
    columns: Seq<Seq<Seq<F>>>,
    layer: int,
    known: Seq<(usize, Seq<H::NativeType>)>,
) -> bool {
    forall|i: int|
        0 <= i < known.len() ==> (#[trigger] known[i]).1 == node_digest::<F, H>(
            columns,
            layer,
            known[i].0 as int,
        )
}

/// Leaving out repeated entries leaves out the same indices.
proof fn lemma_without_repeated_entries<F: Field + IntoSlice<H::NativeType>, H: Hasher>(
    columns: Seq<Seq<Seq<F>>>,
    layer: int,
    known: Seq<(usize, Seq<H::NativeType>)>,
)
    requires
        all_correct::<F, H>(columns, layer, known),
    ensures
        all_correct::<F, H>(columns, layer, without_repeated_entries(known)),
        indices_of(without_repeated_entries(known)) == without_repeats(indices_of(known)),
    decreases known.len(),
{
    let indices = indices_of(known);
    if known.len() > 1 {
        let shorter = known.drop_last();
        assert(indices_of(shorter) =~= indices.drop_last());
        lemma_without_repeated_entries::<F, H>(columns, layer, shorter);
    }
    assert(indices_of(without_repeated_entries(known)) =~= without_repeats(indices));
}

/// What comes first is left out of the rest exactly where the rest starts with it.
proof fn lemma_without_repeats_first(first: usize, rest: Seq<usize>)
    ensures
        rest.len() > 0 && rest[0] == first ==> without_repeats(seq![first] + rest)
            == without_repeats(rest),
        rest.len() == 0 || rest[0] != first ==> without_repeats(seq![first] + rest) == seq![first]
            + without_repeats(rest),
    decreases rest.len(),
{
    let whole = seq![first] + rest;
    if rest.len() == 0 {
        assert(whole =~= seq![first]);
        assert(seq![first] + without_repeats(rest) =~= whole);
    } else if rest.len() == 1 {
        assert(whole.drop_last() =~= seq![first]);
        assert(without_repeats(seq![first]) == seq![first]);
        assert(without_repeats(rest) == rest);
        assert(whole.last() == rest[0]);
        assert(whole[whole.len() - 2] == first);
        if rest[0] == first {
            assert(rest =~= seq![first]);
        } else {
            assert(without_repeats(whole) == seq![first].push(rest[0]));
            assert(seq![first].push(rest[0]) =~= seq![first] + rest);
        }
    } else {
        let shorter = rest.drop_last();
        lemma_without_repeats_first(first, shorter);
        assert(whole.drop_last() =~= seq![first] + shorter);
        assert(whole.last() == rest.last());
        assert(whole[whole.len() - 2] == rest[rest.len() - 2]);
        assert((seq![first] + without_repeats(shorter)).push(rest.last()) =~= seq![first]
            + without_repeats(shorter).push(rest.last()));
    }
}

/// Elements are injected into a node exactly where its layer has columns.
proof fn lemma_injected_or_not<F>(columns: Seq<Seq<F>>, depth: nat, bag: int)
    requires
        depth >= 1,
        forall|j: int|
            0 <= j < columns.len() ==> column_fits(
                (#[trigger] columns[j]).len() as int,
                depth as int,
            ),
        0 <= bag < pow2((depth - 1) as nat),
    ensures
        bag_elements(columns, pow2((depth - 1) as nat) as int, bag).len() == 0 <==> columns.len()
            == 0,
{
    if columns.len() > 0 {
        let n_bags = pow2((depth - 1) as nat) as int;
        let column = columns.last();
        assert(columns[columns.len() - 1] == column);
        lemma_power_of_two_divides(column.len() as int, (depth - 1) as nat);
        let size = column.len() as int / n_bags;
        assert(0 <= bag * size && (bag + 1) * size == bag * size + size && (bag + 1) * size
            <= column.len()) by (nonlinear_arith)
            requires
                0 <= bag < n_bags,
                size >= 1,
                column.len() == size * n_bags,
        ;
        assert(column_bag(column, n_bags, bag).len() == size);
    }
}

/// Where no elements are injected, a layer of a decommitment reveals hashes only.
proof fn lemma_hashes_only<F: Field, H: Hasher>(
    tree: &MixedDegreeMerkleTree<F, H>,
    layer: int,
    queries: Seq<usize>,
)
    requires
        tree.columns()[layer - 1].len() == 0,
    ensures
        tree.intermediate_layer(layer, queries).len() > 0 ==> tree.intermediate_layer(
            layer,
            queries,
        )[0].hash is Some,
    decreases queries.len(),
{
    if queries.len() > 0 {
        lemma_hashes_only(tree, layer, after_first(queries));
    }
}

/// With what a committed tree reveals of a layer, the correct hashes of the parents are computed
/// from the correct hashes of the queried nodes.
proof fn lemma_climb<F: Field + IntoSlice<H::NativeType>, H: Hasher>(
    tree: &MixedDegreeMerkleTree<F, H>,
    layer: nat,
    known: Seq<(usize, Seq<H::NativeType>)>,
)
    requires
        tree.well_formed(),
        tree.committed(),
        1 <= layer < tree.columns().len(),
        all_below(indices_of(known), pow2(layer) as int),
        all_correct::<F, H>(tree.columns(), layer as int, known),
    ensures
        ({
            let nodes = tree.intermediate_layer(layer as int, indices_of(known));
            let above = climb::<F, H>(nodes, known);
            &&& all_correct::<F, H>(tree.columns(), layer - 1, above)
            &&& without_repeats(indices_of(above)) == parents(indices_of(known))
        }),
    decreases known.len(),
{
    let columns = tree.columns();
    let queries = indices_of(known);
    let halves = Seq::new(queries.len(), |i: int| queries[i] / 2);
    let nodes = tree.intermediate_layer(layer as int, queries);
    let above = climb::<F, H>(nodes, known);
    if known.len() == 0 {
        assert(indices_of(above) =~= halves);
    } else {
        let (index, own) = known[0];
        let paired = starts_with_siblings(queries);
        let taken: int = if paired {
            2
        } else {
            1
        };
        let rest = known.skip(taken);
        let rest_halves = Seq::new(indices_of(rest).len(), |i: int| indices_of(rest)[i] / 2);
        let rest_nodes = tree.intermediate_layer(layer as int, indices_of(rest));
        let rest_above = climb::<F, H>(rest_nodes, rest);
        assert(queries[0] == index);
        assert(paired == (known.len() > 1 && known[1].0 == sibling(index)));
        assert(indices_of(rest) =~= after_first(queries));
        assert(all_below(indices_of(rest), pow2(layer) as int)) by {
            assert forall|i: int| 0 <= i < indices_of(rest).len() implies #[trigger] indices_of(
                rest,
            )[i] < pow2(layer) by {
                assert(indices_of(rest)[i] == queries[i + taken]);
            }
        }
        lemma_climb::<F, H>(tree, layer, rest);
        // The parent of the first query.
        let parent = index / 2;
        let elements = tree.injected(layer as int, parent as int);
        let other = if paired {
            known[1].1
        } else {
            tree.hash_at(layer as int, sibling(index) as int).words()
        };
        lemma_pow2_unfold(layer);
        lemma_injected_or_not(columns[layer - 1], layer, parent as int);
        assert(queries[0] < pow2(layer));
        assert(sibling(index) < pow2(layer));
        assert(other == node_digest::<F, H>(columns, layer as int, sibling(index) as int));
        assert(parent_digest::<F, H>(index, own, other, elements) == node_digest::<F, H>(
            columns,
            layer - 1,
            parent as int,
        ));
        let entry = (parent, parent_digest::<F, H>(index, own, other, elements));
        if paired && elements.len() == 0 {
            lemma_hashes_only(tree, layer as int, indices_of(rest));
            assert(nodes == rest_nodes);
            assert(elements =~= Seq::empty());
        } else {
            assert(nodes.skip(1) =~= rest_nodes);
            assert(nodes[0].injected_elements == elements);
            assert(nodes[0].hash is None <==> paired);
        }
        assert(above == seq![entry] + rest_above);
        assert(all_correct::<F, H>(columns, layer - 1, above)) by {
            assert forall|i: int| 0 <= i < above.len() implies (#[trigger] above[i]).1
                == node_digest::<F, H>(columns, layer - 1, above[i].0 as int) by {
                if i > 0 {
                    assert(above[i] == rest_above[i - 1]);
                }
            }
        }
        // The indices of the parents.
        assert(indices_of(above) =~= seq![parent] + indices_of(rest_above));
        lemma_without_repeats(indices_of(rest_above));
        lemma_without_repeats(rest_halves);
        lemma_without_repeats_first(parent, indices_of(rest_above));
        lemma_without_repeats_first(parent, rest_halves);
        if paired {
            assert(queries[1] / 2 == parent);
            assert(halves =~= seq![parent] + (seq![parent] + rest_halves));
            lemma_without_repeats_first(parent, seq![parent] + rest_halves);
        } else {
            assert(halves =~= seq![parent] + rest_halves);
        }
    }
}

/// The hashes that are computed from the decommitment of a committed tree are, at every step, the
/// hashes of the ancestors of the queried leaves.
pub proof fn law_decommitment_gives_the_hashes_above<
    F: Field + IntoSlice<H::NativeType>,
    H: Hasher,
>(tree: &MixedDegreeMerkleTree<F, H>, queries: Seq<usize>, steps: nat)
    requires
        tree.well_formed(),
        tree.committed(),
        steps < tree.columns().len(),
        all_below(queries, pow2((tree.columns().len() - 1) as nat) as int),
    ensures
        ({
            let layer = tree.columns().len() - 1 - steps;
            let known = computed::<F, H>(tree.decommitment(queries), queries, steps);
            &&& indices_of(known) == ancestors(queries, steps)
            &&& all_below(ancestors(queries, steps), pow2(layer as nat) as int)
            &&& queries.len() > 0 ==> known.len() > 0
            &&& forall|i: int|
                0 <= i < known.len() ==> (#[trigger] known[i]).1 == tree.hash_at(
                    layer,
                    known[i].0 as int,
                ).words()
        }),
    decreases steps,
{
    let columns = tree.columns();
    let height = columns.len();
    let layer = height - 1 - steps;
    let decommitment = tree.decommitment(queries);
    let known = computed::<F, H>(decommitment, queries, steps);
    if steps == 0 {
        assert(indices_of(known) =~= queries);
        assert forall|i: int| 0 <= i < known.len() implies (#[trigger] known[i]).1 == tree.hash_at(
            layer,
            known[i].0 as int,
        ).words() by {
            assert(queries[i] < pow2((height - 1) as nat));
            law_hash_of_a_node(tree, layer, queries[i] as int);
        }
    } else {
        let below = computed::<F, H>(decommitment, queries, (steps - 1) as nat);
        law_decommitment_gives_the_hashes_above::<F, H>(tree, queries, (steps - 1) as nat);
        assert(all_correct::<F, H>(columns, layer + 1, below)) by {
            assert forall|i: int| 0 <= i < below.len() implies (#[trigger] below[i]).1
                == node_digest::<F, H>(columns, layer + 1, below[i].0 as int) by {
                assert(indices_of(below)[i] == below[i].0);
            }
        }
        lemma_climb::<F, H>(tree, (layer + 1) as nat, below);
        lemma_parents_below(indices_of(below), (layer + 1) as nat);
        lemma_without_repeats(
            Seq::new(indices_of(below).len(), |i: int| indices_of(below)[i] / 2),
        );
        let above = climb::<F, H>(decommitment[steps as int], below);
        assert(decommitment[steps as int] == tree.intermediate_layer(
            layer + 1,
            indices_of(below),
        ));
        lemma_without_repeated_entries::<F, H>(columns, layer, above);
        assert forall|i: int| 0 <= i < known.len() implies (#[trigger] known[i]).1 == tree.hash_at(
            layer,
            known[i].0 as int,
        ).words() by {
            assert(indices_of(known)[i] == known[i].0);
        }
        assert(indices_of(known).len() == known.len());
        assert(indices_of(below).len() == below.len());
    }
}

/// A decommitment opens its leaves against the root: from what the decommitment of a committed
/// tree reveals, nothing but the hash of the root is computed in the end.
pub proof fn law_decommitment_gives_the_root<F: Field + IntoSlice<H::NativeType>, H: Hasher>(
    tree: &MixedDegreeMerkleTree<F, H>,
    queries: Seq<usize>,
)
    requires
        tree.well_formed(),
        tree.committed(),
        tree.columns().len() > 0,
        queries.len() > 0,
        all_below(queries, pow2((tree.columns().len() - 1) as nat) as int),
    ensures
        ({
            let known = computed::<F, H>(
                tree.decommitment(queries),
                queries,
                (tree.columns().len() - 1) as nat,
            );
            &&& known.len() > 0
            &&& forall|i: int|
                0 <= i < known.len() ==> #[trigger] known[i] == (
                    0usize,
                    tree.hash_at(0, 0).words(),
                )
        }),
{
    let steps = (tree.columns().len() - 1) as nat;
    let known = computed::<F, H>(tree.decommitment(queries), queries, steps);
    law_decommitment_gives_the_hashes_above::<F, H>(tree, queries, steps);
    lemma_pow2_small();
    assert forall|i: int| 0 <= i < known.len() implies #[trigger] known[i] == (
        0usize,
        tree.hash_at(0, 0).words(),
    ) by {
        assert(indices_of(known)[i] == known[i].0);
    }
}

} // verus!
