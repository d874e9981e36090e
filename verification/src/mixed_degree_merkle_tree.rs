//! The Merkle tree over columns of mixed lengths.

use vstd::arithmetic::power2::{lemma_pow2_adds, lemma_pow2_pos, lemma_pow2_unfold, pow2};
use vstd::prelude::*;

use crate::fields::{Field, IntoSlice};
use crate::hasher::{Digest, Hasher};
use crate::merkle_input::{bag_elements, columns_fit, MerkleTreeInput};
use crate::merkle_multilayer::{MerkleMultiLayer, MerkleMultiLayerConfig};
use crate::mixed_degree_decommitment::{
    layer_view, DecommitmentNode, MixedDecommitment, NodeView, PositionInLayer,
};
use crate::powers::{lemma_pow2_small, two_to_the};
use crate::tree_model::{
    after_first, all_below, all_paired, ancestors, heights, held_hash, holds_its_hashes,
    lemma_held_hash, lemma_holds_its_hashes, lemma_multi_layer_above, lemma_parents_below,
    lemma_sibling, lemma_spanning_multi_layer, lemma_sum_bounds, node_digest, parents, roots_layer,
    sibling, starts_with_siblings, sum_of, without_repeats,
};

verus! {

/// The heights of the multi layers of a tree, the lowest one first.
pub struct MixedDegreeMerkleTreeConfig {
    pub multi_layer_sizes: Vec<usize>,
}

/// A Merkle tree over columns of mixed lengths. Its layers are held in multi layers, the lowest
/// one first.
pub struct MixedDegreeMerkleTree<'a, F: Field, H: Hasher> {
    input: MerkleTreeInput<'a, F>,
    pub multi_layers: Vec<MerkleMultiLayer<H>>,
}

impl<'a, F: Field, H: Hasher> MixedDegreeMerkleTree<'a, F, H> {
    /// The columns of each depth, those of depth 1 first.
    pub closed spec fn columns(&self) -> Seq<Seq<Seq<F>>> {
        self.input@
    }

    /// The multi layers, the lowest one first.
    pub closed spec fn layers(&self) -> Seq<MerkleMultiLayer<H>> {
        self.multi_layers@
    }

    /// The columns fit their depths, and the multi layers together have one layer for each depth
    /// and one node for each bag.
    pub open spec fn well_formed(&self) -> bool {
        let sizes = heights(self.layers());
        &&& columns_fit(self.columns(), 1)
        &&& self.columns().len() < usize::BITS
        &&& sum_of(sizes) == self.columns().len()
        &&& forall|i: int|
            0 <= i < self.layers().len() ==> {
                &&& (#[trigger] self.layers()[i]).well_formed()
                &&& self.layers()[i].config.n_sub_trees == pow2(roots_layer(sizes, i) as nat)
            }
    }

    /// Whether every multi layer has a layer.
    pub open spec fn no_empty_multi_layer(&self) -> bool {
        forall|i: int|
            0 <= i < self.layers().len() ==> (
            #[trigger] self.layers()[i]).config.sub_tree_height > 0
    }

    /// The hash that is held for the node `position` of the layer `layer`.
    pub open spec fn hash_at(&self, layer: int, position: int) -> H::Hash {
        held_hash(self.layers(), layer, position)
    }

    /// The elements that are injected at depth `depth` into the node `bag`.
    pub open spec fn injected(&self, depth: int, bag: int) -> Seq<F> {
        bag_elements(self.columns()[depth - 1], pow2((depth - 1) as nat) as int, bag)
    }

    /// What is revealed of the queried leaves: the elements of each of them.
    pub open spec fn leaf_layer(&self, queries: Seq<usize>) -> Seq<NodeView<F, H::Hash>> {
        Seq::new(
            queries.len(),
            |i: int|
                NodeView {
                    hash: None,
                    position_in_layer: PositionInLayer::Leaf(queries[i]),
                    injected_elements: self.injected(
                        self.columns().len() as int,
                        queries[i] as int,
                    ),
                },
        )
    }

    /// What is revealed to compute the parents of the queried nodes of the layer `layer`: for each
    /// query the hash of its sibling and the elements that are injected into the parent. Where
    /// the sibling is the next query, one node stands for both and has no hash; it is left out
    /// where no elements are injected.
    pub open spec fn intermediate_layer(&self, layer: int, queries: Seq<usize>) -> Seq<
        NodeView<F, H::Hash>,
    >
        decreases queries.len(),
    {
        if queries.len() == 0 {
            Seq::empty()
        } else {
            let query = queries[0];
            let both_queried = starts_with_siblings(queries);
            let node = NodeView {
                hash: if both_queried {
                    None
                } else {
                    Some(self.hash_at(layer, sibling(query) as int))
                },
                position_in_layer: PositionInLayer::child(sibling(query)),
                injected_elements: self.injected(layer, query as int / 2),
            };
            let rest = self.intermediate_layer(layer, after_first(queries));
            if both_queried && node.injected_elements.len() == 0 {
                rest
            } else {
                seq![node] + rest
            }
        }
    }

    /// What is revealed to open the leaves `queries`.
    pub open spec fn decommitment(&self, queries: Seq<usize>) -> Seq<Seq<NodeView<F, H::Hash>>> {
        let height = self.columns().len();
        Seq::new(
            if height == 0 {
                1
            } else {
                height
            },
            |k: int|
                if k == 0 {
                    self.leaf_layer(queries)
                } else {
                    self.intermediate_layer(height - k, ancestors(queries, (k - 1) as nat))
                },
        )
    }
}

impl<'a, F: Field, H: Hasher> MixedDegreeMerkleTree<'a, F, H> where F: IntoSlice<H::NativeType> {
    /// Whether every hash that is held is the one that belongs to its node.
    pub open spec fn committed(&self) -> bool {
        forall|layer: int, position: int|
            0 <= layer < self.columns().len() && 0 <= position < pow2(layer as nat) ==> (
            #[trigger] self.hash_at(layer, position)).words() == node_digest::<F, H>(
                self.columns(),
                layer,
                position,
            )
    }

    /// Whether the heights in `config` add up to `tree_height`.
    pub fn validate_config(config: &MixedDegreeMerkleTreeConfig, tree_height: usize) -> (valid:
        bool)
        ensures
            valid == (sum_of(config.multi_layer_sizes@) == tree_height),
    {
        let n: usize = config.multi_layer_sizes.len();
        let ghost sizes = config.multi_layer_sizes@;
        let mut remaining: usize = tree_height;
        let mut i: usize = 0;
        assert(sizes.take(0) =~= Seq::<usize>::empty());
        while i < n
            invariant
                n == sizes.len(),
                sizes == config.multi_layer_sizes@,
                i <= n,
                remaining == tree_height - sum_of(sizes.take(i as int)),
            decreases n - i,
        {
            let size: usize = config.multi_layer_sizes[i];
            proof {
                lemma_sum_bounds(sizes, i as int);
            }
            if size > remaining {
                return false;
            }
            remaining = remaining - size;
            i = i + 1;
        }
        assert(sizes.take(n as int) =~= sizes);
        remaining == 0
    }

    /// A tree over `input` in which no hash was computed yet.
    pub fn new(input: MerkleTreeInput<'a, F>, config: MixedDegreeMerkleTreeConfig) -> (tree: Self)
        requires
            input.well_formed(),
            sum_of(config.multi_layer_sizes@) == input@.len(),
        ensures
            tree.well_formed(),
            tree.columns() == input@,
            heights(tree.layers()) == config.multi_layer_sizes@,
            tree.layers().len() == config.multi_layer_sizes@.len(),
            forall|i: int|
                0 <= i < tree.layers().len() ==> {
                    &&& (#[trigger] tree.layers()[i]).config.sub_tree_height
                        == config.multi_layer_sizes@[i]
                    &&& tree.layers()[i].config.n_sub_trees == pow2(
                        roots_layer(config.multi_layer_sizes@, i) as nat,
                    )
                },
            forall|layer: int, position: int|
                0 <= layer < tree.columns().len() && 0 <= position < pow2(layer as nat) ==> (
                #[trigger] tree.hash_at(layer, position)).words() == H::Hash::blank_words(),
    {
        let tree_height: usize = input.max_injected_depth();
        let ghost sizes = config.multi_layer_sizes@;
        let n: usize = config.multi_layer_sizes.len();
        let mut layers: Vec<MerkleMultiLayer<H>> = Vec::new();
        let mut current_depth: usize = tree_height;
        let mut i: usize = 0;
        assert(sizes.take(0) =~= Seq::<usize>::empty());
        while i < n
            invariant
                sizes == config.multi_layer_sizes@,
                n == sizes.len(),
                tree_height < usize::BITS,
                sum_of(sizes) == tree_height,
                i <= n,
                current_depth == tree_height - sum_of(sizes.take(i as int)),
                layers@.len() == i,
                forall|k: int|
                    0 <= k < i ==> {
                        &&& (#[trigger] layers@[k]).well_formed()
                        &&& layers@[k].config.sub_tree_height == sizes[k]
                        &&& layers@[k].config.n_sub_trees == pow2(roots_layer(sizes, k) as nat)
                    },
                forall|k: int, layer: int, position: int|
                    0 <= k < i && 0 <= layer < sizes[k] && 0 <= position
                        < layers@[k].config.n_sub_trees * pow2(layer as nat) ==> (
                    #[trigger] layers@[k].hash_at(layer, position)).words()
                        == H::Hash::blank_words(),
            decreases n - i,
        {
            let layer_height: usize = config.multi_layer_sizes[i];
            proof {
                lemma_sum_bounds(sizes, i as int);
                let roots = (current_depth - layer_height) as nat;
                lemma_pow2_adds(roots, layer_height as nat);
                lemma_pow2_pos(roots);
                vstd::bits::lemma_usize_pow2_no_overflow(current_depth as nat);
                assert(pow2(roots) * (pow2(layer_height as nat) - 1) <= pow2(roots) * pow2(
                    layer_height as nat,
                )) by (nonlinear_arith)
                    requires
                        pow2(roots) >= 0,
                ;
            }
            let layer_config = MerkleMultiLayerConfig::new(
                layer_height,
                two_to_the(current_depth - layer_height),
            );
            layers.push(MerkleMultiLayer::<H>::new(layer_config));
            current_depth = current_depth - layer_height;
            i = i + 1;
        }
        let tree: Self = MixedDegreeMerkleTree { input, multi_layers: layers };
        assert(heights(tree.layers()) =~= sizes);
        assert forall|layer: int, position: int|
            0 <= layer < tree.columns().len() && 0 <= position < pow2(layer as nat) implies (
        #[trigger] tree.hash_at(layer, position)).words() == H::Hash::blank_words() by {
            let k = lemma_spanning_multi_layer(sizes, layer);
            lemma_sum_bounds(sizes, k);
            lemma_held_hash(tree.layers(), k, layer, position);
            let roots = roots_layer(sizes, k);
            lemma_pow2_adds(roots as nat, (layer - roots) as nat);
            assert(tree.layers()[k] == layers@[k]);
        }
        tree
    }

    /// A tree over `input` in which no hash was computed yet, or nothing where the heights in
    /// `config` do not add up to the height of the tree.
    pub fn try_new(input: MerkleTreeInput<'a, F>, config: MixedDegreeMerkleTreeConfig) -> (tree:
        Option<Self>)
        requires
            input.well_formed(),
        ensures
            tree is None <==> sum_of(config.multi_layer_sizes@) != input@.len(),
            tree matches Some(tree) ==> {
                &&& tree.well_formed()
                &&& tree.columns() == input@
                &&& heights(tree.layers()) == config.multi_layer_sizes@
                &&& tree.layers().len() == config.multi_layer_sizes@.len()
                &&& forall|i: int|
                    0 <= i < tree.layers().len() ==> {
                        &&& (#[trigger] tree.layers()[i]).config.sub_tree_height
                            == config.multi_layer_sizes@[i]
                        &&& tree.layers()[i].config.n_sub_trees == pow2(
                            roots_layer(config.multi_layer_sizes@, i) as nat,
                        )
                    }
                &&& forall|layer: int, position: int|
                    0 <= layer < tree.columns().len() && 0 <= position < pow2(layer as nat) ==> (
                    #[trigger] tree.hash_at(layer, position)).words() == H::Hash::blank_words()
            },
    {
        if Self::validate_config(&config, input.max_injected_depth()) {
            Some(Self::new(input, config))
        } else {
            None
        }
    }

    /// The number of layers of the tree.
    pub fn height(&self) -> (height: usize)
        ensures
            height == self.columns().len(),
    {
        self.input.max_injected_depth()
    }

    /// The number of layers of the multi layer `layer_index`.
    pub fn multi_layer_height(&self, layer_index: usize) -> (height: usize)
        requires
            layer_index < self.layers().len(),
        ensures
            height == self.layers()[layer_index as int].config.sub_tree_height,
    {
        self.multi_layers[layer_index].config.sub_tree_height
    }

    /// The hash that is held for the node `position` of the layer `layer_depth`, the root being
    /// layer 0.
    pub fn get_hash_at(&self, layer_depth: usize, position: usize) -> (hash: H::Hash)
        requires
            self.well_formed(),
            layer_depth < self.columns().len(),
            position < pow2(layer_depth as nat),
        ensures
            hash == self.hash_at(layer_depth as int, position as int),
    {
        let ghost sizes = heights(self.layers());
        let mut i: usize = self.multi_layers.len();
        let mut depth: usize = layer_depth;
        proof {
            assert(sizes.take(i as int) =~= sizes);
            let spanning = lemma_spanning_multi_layer(sizes, layer_depth as int);
        }
        while self.multi_layers[i - 1].config.sub_tree_height <= depth
            invariant
                self.well_formed(),
                sizes == heights(self.layers()),
                0 < i <= self.layers().len(),
                depth < sum_of(sizes.take(i as int)),
                depth + (sum_of(sizes) - sum_of(sizes.take(i as int))) == layer_depth,
            decreases i,
        {
            proof {
                lemma_sum_bounds(sizes, i - 1);
                assert(sizes.take(0) =~= Seq::<usize>::empty());
            }
            depth = depth - self.multi_layers[i - 1].config.sub_tree_height;
            i = i - 1;
        }
        proof {
            let roots = roots_layer(sizes, i - 1);
            lemma_sum_bounds(sizes, i - 1);
            lemma_held_hash(self.layers(), i - 1, layer_depth as int, position as int);
            lemma_pow2_adds(roots as nat, depth as nat);
            assert(self.layers()[i - 1].well_formed());
        }
        self.multi_layers[i - 1].get_hash_value(depth, position)
    }

    /// The hash that is held for the root.
    pub fn root(&self) -> (hash: H::Hash)
        requires
            self.layers().len() > 0,
            self.layers().last().well_formed(),
            self.layers().last().config.n_sub_trees == 1,
            self.layers().last().config.sub_tree_height > 0,
        ensures
            hash == self.layers().last().hash_at(0, 0),
            hash == self.hash_at(0, 0),
    {
        let top: usize = self.multi_layers.len() - 1;
        let roots = self.multi_layers[top].get_roots();
        roots[0]
    }

    /// Computes every hash of the tree, from the lowest multi layer to the top one, and returns
    /// that of the root.
    pub fn commit(&mut self) -> (root: H::Hash)
        requires
            old(self).well_formed(),
            old(self).layers().len() > 0,
            old(self).no_empty_multi_layer(),
        ensures
            final(self).well_formed(),
            final(self).columns() == old(self).columns(),
            heights(final(self).layers()) == heights(old(self).layers()),
            final(self).layers().len() == old(self).layers().len(),
            forall|i: int|
                0 <= i < final(self).layers().len() ==> (#[trigger] final(self).layers()[i]).config
                    == old(self).layers()[i].config,
            final(self).layers().last().config.n_sub_trees == 1,
            final(self).committed(),
            root == final(self).hash_at(0, 0),
            root.words() == node_digest::<F, H>(old(self).columns(), 0, 0),
    {
        let ghost columns = self.columns();
        let ghost sizes = heights(self.layers());
        let ghost total = columns.len() as int;
        let n: usize = self.multi_layers.len();
        proof {
            lemma_sum_bounds(sizes, 0);
            assert(sizes.take(0) =~= Seq::<usize>::empty());
            assert(self.layers()[0].well_formed());
        }
        let mut curr_layer: usize = self.height() - self.multi_layer_height(0);
        // Bottom layer.
        let mut rebuilt_input = self.input.split(curr_layer + 1);
        let no_hashes: Vec<H::Hash> = Vec::new();
        self.multi_layers[0].commit_layer::<F, false>(&rebuilt_input, no_hashes.as_slice());
        proof {
            assert(rebuilt_input@ =~= columns.subrange(curr_layer as int, total));
            lemma_holds_its_hashes::<F, H>(
                columns,
                self.multi_layers@[0],
                curr_layer as nat,
                None,
            );
        }
        // Rest of the tree.
        let mut i: usize = 1;
        while i < n
            invariant
                sizes == heights(old(self).layers()),
                columns == old(self).columns(),
                total == columns.len(),
                total < usize::BITS,
                sum_of(sizes) == total,
                n == sizes.len(),
                forall|k: int| 0 <= k < n ==> #[trigger] sizes[k] > 0,
                1 <= i <= n,
                curr_layer == roots_layer(sizes, i - 1),
                self.input@ == columns.take(curr_layer as int),
                rebuilt_input@ == columns.skip(curr_layer as int),
                self.multi_layers@.len() == n,
                forall|k: int|
                    0 <= k < n ==> {
                        &&& (#[trigger] self.multi_layers@[k]).well_formed()
                        &&& self.multi_layers@[k].config == old(self).layers()[k].config
                        &&& self.multi_layers@[k].config.sub_tree_height == sizes[k]
                        &&& self.multi_layers@[k].config.n_sub_trees == pow2(
                            roots_layer(sizes, k) as nat,
                        )
                    },
                forall|k: int|
                    0 <= k < i ==> holds_its_hashes::<F, H>(
                        columns,
                        #[trigger] self.multi_layers@[k],
                        roots_layer(sizes, k),
                    ),
            decreases n - i,
        {
            let ghost before = self.multi_layers@;
            proof {
                lemma_sum_bounds(sizes, i - 1);
                lemma_sum_bounds(sizes, i as int);
                assert(sizes[i - 1] > 0);
                assert(sizes[i as int] > 0);
                assert(before[i - 1].well_formed());
                assert(before[i as int].well_formed());
            }
            let prev_hashes = self.multi_layers[i - 1].get_roots();
            let ghost lower_layer = curr_layer as int;
            curr_layer = curr_layer - self.multi_layer_height(i);
            let layer_input = self.input.split(curr_layer + 1);
            proof {
                lemma_pow2_adds(curr_layer as nat, sizes[i as int] as nat);
            }
            self.multi_layers[i].commit_layer::<F, true>(&layer_input, prev_hashes.as_slice());
            proof {
                assert(layer_input@ =~= columns.subrange(curr_layer as int, lower_layer));
                lemma_multi_layer_above::<F, H>(
                    columns,
                    before[i - 1],
                    self.multi_layers@[i as int],
                    curr_layer as nat,
                    prev_hashes@,
                );
            }
            rebuilt_input.prepend(layer_input);
            assert(rebuilt_input@ =~= columns.skip(curr_layer as int));
            assert(self.input@ =~= columns.take(curr_layer as int));
            i = i + 1;
        }
        let top: usize = self.multi_layers.len() - 1;
        proof {
            assert(sizes.take(n as int) =~= sizes);
            assert(sizes[top as int] > 0);
            lemma_pow2_small();
            assert(old(self).layers()[top as int].well_formed());
            assert(rebuilt_input@ =~= columns);
        }
        let top_roots = self.multi_layers[top].get_roots();
        let root = top_roots[0];
        self.input = rebuilt_input;
        proof {
            assert(heights(self.layers()) =~= sizes);
            assert forall|k: int| 0 <= k < self.layers().len() implies {
                &&& (#[trigger] self.layers()[k]).well_formed()
                &&& self.layers()[k].config.n_sub_trees == pow2(roots_layer(sizes, k) as nat)
            } by {
                assert(self.layers()[k] == self.multi_layers@[k]);
                assert(old(self).layers()[k].well_formed());
            }
            assert forall|layer: int, position: int|
                0 <= layer < columns.len() && 0 <= position < pow2(layer as nat) implies (
            #[trigger] self.hash_at(layer, position)).words() == node_digest::<F, H>(
                columns,
                layer,
                position,
            ) by {
                let k = lemma_spanning_multi_layer(sizes, layer);
                lemma_held_hash(self.layers(), k, layer, position);
                assert(holds_its_hashes::<F, H>(
                    columns,
                    self.multi_layers@[k],
                    roots_layer(sizes, k),
                ));
            }
        }
        root
    }

    /// The indices of the parents of the nodes `children`, one for each run of children that have
    /// the same parent.
    pub fn get_parent_indices(children: Vec<usize>) -> (indices: Vec<usize>)
        ensures
            indices@ == parents(children@),
    {
        let mut indices: Vec<usize> = Vec::new();
        let ghost halves = Seq::new(children@.len(), |i: int| children@[i] / 2);
        let n: usize = children.len();
        let mut i: usize = 0;
        assert(halves.take(0) =~= Seq::<usize>::empty());
        while i < n
            invariant
                n == children@.len(),
                halves == Seq::new(children@.len(), |i: int| children@[i] / 2),
                i <= n,
                indices@ == without_repeats(halves.take(i as int)),
            decreases n - i,
        {
            let parent: usize = children[i] / 2;
            let ghost longer = halves.take(i + 1);
            assert(longer.drop_last() =~= halves.take(i as int));
            if i == 0 || children[i - 1] / 2 != parent {
                indices.push(parent);
            }
            if i == 0 {
                assert(without_repeats(longer) =~= seq![parent]);
            }
            i = i + 1;
        }
        assert(halves.take(n as int) =~= halves);
        indices
    }

    /// Reveals the leaves `leaf_layer_indices`.
    pub fn _decommit_leaf_layer(&self, leaf_layer_indices: &[usize]) -> (nodes: Vec<
        DecommitmentNode<F, H>,
    >)
        requires
            self.well_formed(),
            leaf_layer_indices@.len() > 0 ==> self.columns().len() > 0,
            all_below(leaf_layer_indices@, pow2((self.columns().len() - 1) as nat) as int),
        ensures
            layer_view(nodes@) == self.leaf_layer(leaf_layer_indices@),
    {
        let n: usize = leaf_layer_indices.len();
        let ghost queries = leaf_layer_indices@;
        let mut leaf_layer: Vec<DecommitmentNode<F, H>> = Vec::new();
        let mut i: usize = 0;
        while i < n
            invariant
                self.well_formed(),
                n > 0 ==> self.columns().len() > 0,
                queries == leaf_layer_indices@,
                n == queries.len(),
                all_below(queries, pow2((self.columns().len() - 1) as nat) as int),
                i <= n,
                layer_view(leaf_layer@) == self.leaf_layer(queries.take(i as int)),
            decreases n - i,
        {
            let query: usize = leaf_layer_indices[i];
            let ghost before = leaf_layer@;
            let injected_elements = self.input.get_injected_elements(self.height(), query);
            leaf_layer.push(
                DecommitmentNode {
                    hash: None,
                    position_in_layer: PositionInLayer::Leaf(query),
                    injected_elements,
                },
            );
            assert(layer_view(leaf_layer@) =~= layer_view(before).push(leaf_layer@.last()@));
            assert(self.leaf_layer(queries.take(i + 1)) =~= self.leaf_layer(
                queries.take(i as int),
            ).push(leaf_layer@.last()@));
            i = i + 1;
        }
        assert(queries.take(n as int) =~= queries);
        leaf_layer
    }

    /// Reveals what is needed to compute the parents of the nodes `current_queried_indices` of the
    /// layer `layer_depth` from these nodes. Right below the leaves there are no hashes, so every
    /// index has to be paired with its neighbour there.
    pub fn _decommit_intermediate_layer(
        &self,
        layer_depth: usize,
        current_queried_indices: &[usize],
    ) -> (nodes: Vec<DecommitmentNode<F, H>>)
        requires
            self.well_formed(),
            current_queried_indices@.len() > 0 ==> 1 <= layer_depth <= self.columns().len(),
            layer_depth < self.columns().len() || all_paired(current_queried_indices@),
            all_below(current_queried_indices@, pow2(layer_depth as nat) as int),
        ensures
            layer_view(nodes@) == self.intermediate_layer(
                layer_depth as int,
                current_queried_indices@,
            ),
    {
        let n: usize = current_queried_indices.len();
        let ghost queries = current_queried_indices@;
        let ghost whole = self.intermediate_layer(layer_depth as int, queries);
        let mut proof_layer: Vec<DecommitmentNode<F, H>> = Vec::new();
        let mut i: usize = 0;
        assert(queries.skip(0) =~= queries);
        assert(layer_view(proof_layer@) =~= Seq::<NodeView<F, H::Hash>>::empty());
        while i < n
            invariant
                self.well_formed(),
                n > 0 ==> 1 <= layer_depth <= self.columns().len(),
                layer_depth < self.columns().len() || all_paired(queries.skip(i as int)),
                queries == current_queried_indices@,
                n == queries.len(),
                all_below(queries, pow2(layer_depth as nat) as int),
                i <= n,
                whole == layer_view(proof_layer@) + self.intermediate_layer(
                    layer_depth as int,
                    queries.skip(i as int),
                ),
            decreases n - i,
        {
            let query: usize = current_queried_indices[i];
            let ghost rest = queries.skip(i as int);
            let ghost before = proof_layer@;
            let sibling_index: usize = query ^ 1;
            proof {
                lemma_sibling(query);
                lemma_pow2_unfold(layer_depth as nat);
            }
            i = i + 1;
            let both_queried: bool = i < n && current_queried_indices[i] == sibling_index;
            let hash_witness: Option<H::Hash> = if both_queried {
                // If both children are in the layer, only injected elements are needed to
                // calculate the parent.
                i = i + 1;
                None
            } else {
                Some(self.get_hash_at(layer_depth, sibling_index))
            };
            let injected_elements = self.input.get_injected_elements(layer_depth, query / 2);
            assert(both_queried == starts_with_siblings(rest));
            assert(after_first(rest) =~= queries.skip(i as int));
            if !both_queried || injected_elements.len() > 0 {
                proof_layer.push(
                    DecommitmentNode {
                        hash: hash_witness,
                        position_in_layer: PositionInLayer::new_child(sibling_index),
                        injected_elements,
                    },
                );
                assert(layer_view(proof_layer@) =~= layer_view(before) + seq![
                    proof_layer@.last()@,
                ]);
                assert(self.intermediate_layer(layer_depth as int, rest) =~= seq![
                    proof_layer@.last()@,
                ] + self.intermediate_layer(layer_depth as int, queries.skip(i as int)));
            } else {
                assert(self.intermediate_layer(layer_depth as int, rest)
                    == self.intermediate_layer(layer_depth as int, queries.skip(i as int)));
            }
            assert(whole =~= layer_view(proof_layer@) + self.intermediate_layer(
                layer_depth as int,
                queries.skip(i as int),
            ));
        }
        assert(self.intermediate_layer(layer_depth as int, queries.skip(n as int)) =~= Seq::<
            NodeView<F, H::Hash>,
        >::empty());
        assert(whole =~= layer_view(proof_layer@));
        proof_layer
    }

    /// Reveals the leaves `queries` and what is needed to compute the root from them.
    pub fn decommit(&self, queries: Vec<usize>) -> (decommitment: MixedDecommitment<F, H>)
        requires
            self.well_formed(),
            queries@.len() > 0 ==> self.columns().len() > 0,
            all_below(queries@, pow2((self.columns().len() - 1) as nat) as int),
        ensures
            decommitment@ == self.decommitment(queries@),
    {
        let ghost leaves = queries@;
        let ghost height = self.columns().len() as int;
        let mut queries = queries;
        let mut decommitment_layers: Vec<Vec<DecommitmentNode<F, H>>> = Vec::with_capacity(
            self.height(),
        );
        // Leaf layer.
        let leaf_layer_decommitment = self._decommit_leaf_layer(queries.as_slice());
        decommitment_layers.push(leaf_layer_decommitment);
        // Rest of the tree.
        let mut above: usize = self.height();
        while above > 1
            invariant
                self.well_formed(),
                height == self.columns().len(),
                above <= height,
                height > 0 ==> above > 0,
                leaves.len() > 0 ==> height > 0,
                decommitment_layers@.len() == if height == 0 {
                    1
                } else {
                    height - above + 1
                },
                queries@.len() > 0 ==> height > 0,
                height > 0 ==> queries@ == ancestors(leaves, (height - above) as nat),
                height > 0 ==> all_below(queries@, pow2((above - 1) as nat) as int),
                forall|k: int|
                    0 <= k < decommitment_layers@.len() ==> layer_view(
                        #[trigger] decommitment_layers@[k]@,
                    ) == self.decommitment(leaves)[k],
            decreases above,
        {
            let layer: usize = above - 1;
            let layer_decommitment = self._decommit_intermediate_layer(layer, queries.as_slice());
            decommitment_layers.push(layer_decommitment);
            proof {
                lemma_parents_below(queries@, layer as nat);
            }
            queries = Self::get_parent_indices(queries);
            above = layer;
        }
        let decommitment: MixedDecommitment<F, H> = MixedDecommitment { decommitment_layers };
        assert(decommitment@ =~= self.decommitment(leaves));
        decommitment
    }
}

} // verus!
