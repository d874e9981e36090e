//! Several consecutive layers of a tree, held as an array of sub-trees.

use vstd::arithmetic::power2::{lemma_pow2_pos, lemma_pow2_unfold, pow2};
use vstd::prelude::*;

use crate::fields::{into_slice, native_words, Field, IntoSlice};
use crate::hasher::{Digest, Hasher};
use crate::merkle_input::{bag_elements, collect_bag, MerkleTreeInput};
use crate::powers::{lemma_pow2_monotone, lemma_pow2_small, two_to_the};

verus! {

/// The shape of a multi layer: how many sub-trees it has and how high each of them is.
#[derive(Clone, Copy, Debug, PartialEq, Eq, Structural)]
pub struct MerkleMultiLayerConfig {
    pub n_sub_trees: usize,
    pub sub_tree_height: usize,
    pub sub_tree_size: usize,
}

impl MerkleMultiLayerConfig {
    /// The size of a sub-tree is the number of nodes of a full binary tree of its height.
    pub open spec fn well_formed(&self) -> bool {
        &&& self.sub_tree_height < usize::BITS
        &&& self.sub_tree_size == pow2(self.sub_tree_height as nat) - 1
    }

    /// The shape with `n_sub_trees` sub-trees of height `sub_tree_height`.
    pub fn new(sub_tree_height: usize, n_sub_trees: usize) -> (config: Self)
        requires
            sub_tree_height < usize::BITS,
        ensures
            config.well_formed(),
            config.n_sub_trees == n_sub_trees,
            config.sub_tree_height == sub_tree_height,
    {
        MerkleMultiLayerConfig {
            n_sub_trees,
            sub_tree_height,
            sub_tree_size: two_to_the(sub_tree_height) - 1,
        }
    }
}

/// The place in a sub-tree of height `height` where its layer `layer` starts: the lowest layer
/// comes first, the root of the sub-tree comes last.
pub open spec fn layer_start(height: nat, layer: nat) -> int {
    pow2(height) - pow2(layer + 1)
}

/// The hashes of the layer below a multi layer, where it is an intermediate one.
pub open spec fn lower_hashes<H: Hasher>(
    is_intermediate: bool,
    prev_hashes: Seq<H::Hash>,
) -> Option<Seq<H::Hash>> {
    if is_intermediate {
        Some(prev_hashes)
    } else {
        None
    }
}

/// The words of the hash that belongs to the node `position` of the layer `layer` of a multi
/// layer over `columns`, both counted from the roots of its sub-trees. A node hashes the hashes
/// of its two children and then the elements that are injected into it. The children of the
/// lowest layer are `prev_hashes`, or there are none.
pub open spec fn multi_layer_digest<F: Field + IntoSlice<H::NativeType>, H: Hasher>(
    columns: Seq<Seq<Seq<F>>>,
    n_sub_trees: int,
    prev_hashes: Option<Seq<H::Hash>>,
    layer: int,
    position: int,
) -> Seq<H::NativeType>
    decreases columns.len() - layer,
{
    let children = if layer + 1 < columns.len() {
        multi_layer_digest::<F, H>(columns, n_sub_trees, prev_hashes, layer + 1, 2 * position)
            + multi_layer_digest::<F, H>(
            columns,
            n_sub_trees,
            prev_hashes,
            layer + 1,
            2 * position + 1,
        )
    } else {
        match prev_hashes {
            Some(hashes) => hashes[2 * position].words() + hashes[2 * position + 1].words(),
            None => Seq::empty(),
        }
    };
    let elements = bag_elements(columns[layer], n_sub_trees * pow2(layer as nat), position);
    H::digest(children + native_words::<F, H::NativeType>(elements))
}

/// The places of a layer lie inside the sub-tree.
proof fn lemma_layer_bounds(height: nat, layer: nat)
    requires
        layer < height,
    ensures
        1 <= pow2(layer) <= pow2(height) - 1,
        0 <= layer_start(height, layer),
        layer_start(height, layer) + pow2(layer) <= pow2(height) - 1,
        layer > 0 ==> layer_start(height, layer) + pow2(layer) == layer_start(
            height,
            (layer - 1) as nat,
        ),
{
    lemma_pow2_pos(layer);
    lemma_pow2_unfold(layer + 1);
    lemma_pow2_monotone(layer + 1, height);
}

/// The place of the node `position` of the layer `layer` in the array of a multi layer.
pub open spec fn slot(height: nat, layer: nat, position: int) -> int {
    (position / pow2(layer) as int) * (pow2(height) - 1) + layer_start(height, layer) + position
        % pow2(layer) as int
}

/// A place is that of the sub-tree plus that inside the sub-tree, and lies inside the array.
proof fn lemma_slot(n_sub_trees: int, height: nat, layer: nat, position: int)
    requires
        layer < height,
        0 <= position < n_sub_trees * pow2(layer),
    ensures
        0 <= position / pow2(layer) as int,
        position / pow2(layer) as int + 1 <= n_sub_trees,
        0 <= position % pow2(layer) as int,
        position % (pow2(layer) as int) < pow2(layer),
        position == (position / pow2(layer) as int) * pow2(layer) + position % pow2(layer) as int,
        0 <= (position / pow2(layer) as int) * (pow2(height) - 1),
        (position / pow2(layer) as int) * (pow2(height) - 1) + (pow2(height) - 1) <= n_sub_trees * (
        pow2(height) - 1),
        0 <= slot(height, layer, position) < n_sub_trees * (pow2(height) - 1),
{
    lemma_layer_bounds(height, layer);
    let width = pow2(layer) as int;
    let size = pow2(height) - 1;
    vstd::arithmetic::div_mod::lemma_fundamental_div_mod(position, width);
    let tree = position / width;
    assert(tree < n_sub_trees) by (nonlinear_arith)
        requires
            position < n_sub_trees * width,
            position == width * tree + position % width,
            0 <= position % width,
            width >= 1,
    ;
    assert(0 <= tree) by (nonlinear_arith)
        requires
            position == width * tree + position % width,
            position % width < width,
            0 <= position,
            width >= 1,
    ;
    assert(0 <= tree * size && tree * size + size <= n_sub_trees * size && width * tree == tree
        * width) by (nonlinear_arith)
        requires
            0 <= tree,
            tree + 1 <= n_sub_trees,
            size >= 1,
    ;
}

/// The node `index` of the layer `layer` of the sub-tree `tree` is the node
/// `tree * 2^layer + index` of the whole layer.
proof fn lemma_position(n_sub_trees: int, height: nat, layer: nat, tree: int, index: int)
    requires
        layer < height,
        0 <= tree < n_sub_trees,
        0 <= index < pow2(layer),
    ensures
        0 <= tree * pow2(layer),
        tree * pow2(layer) + index < n_sub_trees * pow2(layer),
        n_sub_trees * pow2(layer) <= n_sub_trees * (pow2(height) - 1),
        2 * (tree * pow2(layer) + index) == tree * pow2(layer + 1) + 2 * index,
        2 * (tree * pow2(layer) + index) + 1 < n_sub_trees * pow2(layer + 1),
{
    lemma_layer_bounds(height, layer);
    lemma_pow2_unfold(layer + 1);
    let width = pow2(layer) as int;
    let double = pow2(layer + 1) as int;
    let size = pow2(height) - 1;
    assert(0 <= tree * width && tree * width + width <= n_sub_trees * width && n_sub_trees * width
        <= n_sub_trees * size && 2 * (tree * width) == tree * double && 2 * (n_sub_trees * width)
        == n_sub_trees * double) by (nonlinear_arith)
        requires
            0 <= tree,
            tree + 1 <= n_sub_trees,
            1 <= width <= size,
            double == 2 * width,
    ;
}

/// Several consecutive layers of a tree, as sub-trees one behind the other.
pub struct MerkleMultiLayer<H: Hasher> {
    pub data: Vec<H::Hash>,
    pub config: MerkleMultiLayerConfig,
}

impl<H: Hasher> MerkleMultiLayer<H> {
    /// There is a hash for each node of each sub-tree.
    pub open spec fn well_formed(&self) -> bool {
        &&& self.config.well_formed()
        &&& self.data@.len() == self.config.n_sub_trees * self.config.sub_tree_size
    }

    /// The hash that is held for the node `position` of the layer `layer`, both counted from the
    /// roots of the sub-trees.
    pub open spec fn hash_at(&self, layer: int, position: int) -> H::Hash {
        self.data@[slot(self.config.sub_tree_height as nat, layer as nat, position)]
    }

    /// A multi layer of the given shape in which no hash was computed yet.
    pub fn new(config: MerkleMultiLayerConfig) -> (multi_layer: Self)
        requires
            config.well_formed(),
            config.n_sub_trees * config.sub_tree_size <= usize::MAX,
        ensures
            multi_layer.well_formed(),
            multi_layer.config == config,
            forall|layer: int, position: int|
                0 <= layer < config.sub_tree_height && 0 <= position < config.n_sub_trees * pow2(
                    layer as nat,
                ) ==> (#[trigger] multi_layer.hash_at(layer, position)).words()
                    == H::Hash::blank_words(),
    {
        let len: usize = config.n_sub_trees * config.sub_tree_size;
        let mut data: Vec<H::Hash> = Vec::with_capacity(len);
        let mut i: usize = 0;
        while i < len
            invariant
                i <= len,
                data@.len() == i,
                forall|k: int|
                    0 <= k < i ==> (#[trigger] data@[k]).words() == H::Hash::blank_words(),
            decreases len - i,
        {
            data.push(H::Hash::blank());
            i = i + 1;
        }
        let multi_layer: Self = MerkleMultiLayer { data, config };
        assert forall|layer: int, position: int|
            0 <= layer < config.sub_tree_height && 0 <= position < config.n_sub_trees * pow2(
                layer as nat,
            ) implies (#[trigger] multi_layer.hash_at(layer, position)).words()
            == H::Hash::blank_words() by {
            lemma_slot(
                config.n_sub_trees as int,
                config.sub_tree_height as nat,
                layer as nat,
                position,
            );
        }
        multi_layer
    }

    /// The hash that is held for the node `position` of the layer `layer_depth`, both counted
    /// from the roots of the sub-trees.
    pub fn get_hash_value(&self, layer_depth: usize, position: usize) -> (hash: H::Hash)
        requires
            self.well_formed(),
            layer_depth < self.config.sub_tree_height,
            position < self.config.n_sub_trees * pow2(layer_depth as nat),
        ensures
            hash == self.hash_at(layer_depth as int, position as int),
    {
        let ghost height = self.config.sub_tree_height as nat;
        let width: usize = two_to_the(layer_depth);
        proof {
            lemma_slot(
                self.config.n_sub_trees as int,
                height,
                layer_depth as nat,
                position as int,
            );
            lemma_layer_bounds(height, layer_depth as nat);
            lemma_pow2_unfold(layer_depth as nat + 1);
        }
        let sub_tree: usize = position / width;
        let in_layer: usize = position % width;
        let start: usize = self.config.sub_tree_size - width - (width - 1);
        assert(sub_tree as int == position as int / pow2(layer_depth as nat) as int);
        assert(self.config.sub_tree_size as int == pow2(height) - 1);
        assert(sub_tree * self.config.sub_tree_size + self.config.sub_tree_size <= self.data.len());
        self.data[sub_tree * self.config.sub_tree_size + start + in_layer]
    }

    /// The hashes that are held for the roots of the sub-trees.
    pub fn get_roots(&self) -> (roots: Vec<H::Hash>)
        requires
            self.well_formed(),
            self.config.sub_tree_height > 0,
        ensures
            roots@.len() == self.config.n_sub_trees,
            forall|t: int| 0 <= t < roots@.len() ==> #[trigger] roots@[t] == self.hash_at(0, t),
    {
        let n: usize = self.config.n_sub_trees;
        let mut roots: Vec<H::Hash> = Vec::with_capacity(n);
        let mut t: usize = 0;
        while t < n
            invariant
                self.well_formed(),
                self.config.sub_tree_height > 0,
                n == self.config.n_sub_trees,
                t <= n,
                roots@.len() == t,
                forall|k: int| 0 <= k < t ==> #[trigger] roots@[k] == self.hash_at(0, k),
            decreases n - t,
        {
            proof {
                lemma_pow2_small();
            }
            roots.push(self.get_hash_value(0, t));
            t = t + 1;
        }
        roots
    }

    /// Computes the hash of one node: that of its children, if it has any, and of `elements`.
    fn hash_node<F: Field + IntoSlice<H::NativeType>>(
        children: Option<(H::Hash, H::Hash)>,
        elements: &Vec<F>,
    ) -> (hash: H::Hash)
        ensures
            hash.words() == H::digest(
                (match children {
                    Some((left, right)) => left.words() + right.words(),
                    None => Seq::empty(),
                }) + native_words::<F, H::NativeType>(elements@),
            ),
    {
        let mut hasher = H::new();
        let ghost mut expected = Seq::<H::NativeType>::empty();
        if let Some((left, right)) = children {
            hasher.update(left.as_ref());
            hasher.update(right.as_ref());
            proof {
                expected = left.words() + right.words();
            }
            assert(hasher.absorbed() =~= expected);
        }
        let words: Vec<H::NativeType> = into_slice::<F, H::NativeType>(elements.as_slice());
        hasher.update(words.as_slice());
        assert(hasher.absorbed() == expected + native_words::<F, H::NativeType>(elements@));
        hasher.finalize()
    }

    /// Computes the hashes of the sub-tree `tree`, the lowest layer first.
    fn hash_sub_tree<F: Field + IntoSlice<H::NativeType>, const IS_INTERMEDIATE: bool>(
        config: MerkleMultiLayerConfig,
        input: &MerkleTreeInput<F>,
        prev_hashes: &[H::Hash],
        tree: usize,
    ) -> (sub_tree: Vec<H::Hash>)
        requires
            config.well_formed(),
            config.n_sub_trees * config.sub_tree_size <= usize::MAX,
            input@.len() == config.sub_tree_height,
            tree < config.n_sub_trees,
            IS_INTERMEDIATE ==> prev_hashes@.len() == config.n_sub_trees * pow2(
                config.sub_tree_height as nat,
            ),
        ensures
            sub_tree@.len() == config.sub_tree_size,
            forall|layer: int, index: int|
                0 <= layer < config.sub_tree_height && 0 <= index < pow2(layer as nat) ==> (
                #[trigger] sub_tree@[layer_start(config.sub_tree_height as nat, layer as nat)
                    + index]).words() == multi_layer_digest::<F, H>(
                    input@,
                    config.n_sub_trees as int,
                    lower_hashes::<H>(IS_INTERMEDIATE, prev_hashes@),
                    layer,
                    tree * pow2(layer as nat) + index,
                ),
    {
        let height: usize = config.sub_tree_height;
        let ghost h = height as nat;
        let ghost n = config.n_sub_trees as int;
        let ghost lower = lower_hashes::<H>(IS_INTERMEDIATE, prev_hashes@);
        let mut sub_tree: Vec<H::Hash> = Vec::with_capacity(config.sub_tree_size);
        let mut above: usize = height;
        while above > 0
            invariant
                config.well_formed(),
                config.n_sub_trees * config.sub_tree_size <= usize::MAX,
                config.sub_tree_height == height,
                h == height,
                n == config.n_sub_trees,
                input@.len() == height,
                tree < config.n_sub_trees,
                IS_INTERMEDIATE ==> prev_hashes@.len() == n * pow2(h),
                lower == lower_hashes::<H>(IS_INTERMEDIATE, prev_hashes@),
                above <= height,
                sub_tree@.len() == pow2(h) - pow2(above as nat),
                forall|layer: int, index: int|
                    above <= layer < height && 0 <= index < pow2(layer as nat) ==> (
                    #[trigger] sub_tree@[layer_start(h, layer as nat) + index]).words()
                        == multi_layer_digest::<F, H>(
                        input@,
                        n,
                        lower,
                        layer,
                        tree * pow2(layer as nat) + index,
                    ),
            decreases above,
        {
            let layer: usize = above - 1;
            let ghost start = sub_tree@.len() as int;
            let ghost finished = sub_tree@;
            let width: usize = two_to_the(layer);
            proof {
                lemma_layer_bounds(h, layer as nat);
                lemma_position(n, h, layer as nat, tree as int, 0);
                lemma_pow2_unfold(above as nat);
                assert(n * (pow2(h) - 1) == config.n_sub_trees * config.sub_tree_size);
            }
            let n_bags: usize = config.n_sub_trees * width;
            let first: usize = tree * width;
            let mut index: usize = 0;
            while index < width
                invariant
                    config.well_formed(),
                    config.n_sub_trees * config.sub_tree_size <= usize::MAX,
                    config.sub_tree_height == height,
                    h == height,
                    n == config.n_sub_trees,
                    input@.len() == height,
                    tree < config.n_sub_trees,
                    IS_INTERMEDIATE ==> prev_hashes@.len() == n * pow2(h),
                    lower == lower_hashes::<H>(IS_INTERMEDIATE, prev_hashes@),
                    above <= height,
                    layer == above - 1,
                    width == pow2(layer as nat),
                    n_bags == n * pow2(layer as nat),
                    first == tree * pow2(layer as nat),
                    start == layer_start(h, layer as nat),
                    finished.len() == start,
                    index <= width,
                    sub_tree@.len() == start + index,
                    forall|k: int| 0 <= k < start ==> sub_tree@[k] == finished[k],
                    forall|layer: int, index: int|
                        above <= layer < height && 0 <= index < pow2(layer as nat) ==> (
                        #[trigger] finished[layer_start(h, layer as nat) + index]).words()
                            == multi_layer_digest::<F, H>(
                            input@,
                            n,
                            lower,
                            layer,
                            tree * pow2(layer as nat) + index,
                        ),
                    forall|k: int|
                        0 <= k < index ==> (#[trigger] sub_tree@[start + k]).words()
                            == multi_layer_digest::<F, H>(
                            input@,
                            n,
                            lower,
                            layer as int,
                            tree * pow2(layer as nat) + k,
                        ),
                decreases width - index,
            {
                proof {
                    lemma_position(n, h, layer as nat, tree as int, index as int);
                    lemma_layer_bounds(h, layer as nat);
                    lemma_pow2_unfold(above as nat);
                }
                let position: usize = first + index;
                let children: Option<(H::Hash, H::Hash)> = if above < height {
                    proof {
                        lemma_layer_bounds(h, above as nat);
                    }
                    let below: usize = sub_tree.len() - index - 2 * width;
                    assert(below == layer_start(h, above as nat));
                    let left = sub_tree[below + 2 * index];
                    let right = sub_tree[below + 2 * index + 1];
                    assert(left == finished[layer_start(h, above as nat) + 2 * index]);
                    assert(right == finished[layer_start(h, above as nat) + (2 * index + 1)]);
                    Some((left, right))
                } else if IS_INTERMEDIATE {
                    assert(2 * position + 1 < prev_hashes.len());
                    Some((prev_hashes[2 * position], prev_hashes[2 * position + 1]))
                } else {
                    None
                };
                let elements = collect_bag(input.get_columns(above), n_bags, position);
                sub_tree.push(Self::hash_node::<F>(children, &elements));
                index = index + 1;
            }
            assert forall|l: int, k: int|
                above - 1 <= l < height && 0 <= k < pow2(l as nat) implies (#[trigger] sub_tree@[
            layer_start(h, l as nat) + k]).words() == multi_layer_digest::<F, H>(
                input@,
                n,
                lower,
                l,
                tree * pow2(l as nat) + k,
            ) by {
                if l >= above {
                    lemma_layer_bounds(h, l as nat);
                    lemma_pow2_monotone(above as nat, l as nat);
                    assert(sub_tree@[layer_start(h, l as nat) + k] == finished[layer_start(
                        h,
                        l as nat,
                    ) + k]);
                }
            }
            above = layer;
        }
        proof {
            lemma_pow2_small();
        }
        sub_tree
    }

    /// Computes all hashes from the columns of `input`, the first of which are injected into the
    /// roots of the sub-trees, and, in an intermediate multi layer, from the hashes of the layer
    /// below.
    pub fn commit_layer<F: Field + IntoSlice<H::NativeType>, const IS_INTERMEDIATE: bool>(
        &mut self,
        input: &MerkleTreeInput<F>,
        prev_hashes: &[H::Hash],
    )
        requires
            old(self).well_formed(),
            input@.len() == old(self).config.sub_tree_height,
            IS_INTERMEDIATE ==> prev_hashes@.len() == old(self).config.n_sub_trees * pow2(
                old(self).config.sub_tree_height as nat,
            ),
        ensures
            final(self).well_formed(),
            final(self).config == old(self).config,
            forall|layer: int, position: int|
                0 <= layer < old(self).config.sub_tree_height && 0 <= position
                    < old(self).config.n_sub_trees * pow2(layer as nat) ==> (
                #[trigger] final(self).hash_at(layer, position)).words()
                    == multi_layer_digest::<F, H>(
                    input@,
                    old(self).config.n_sub_trees as int,
                    lower_hashes::<H>(IS_INTERMEDIATE, prev_hashes@),
                    layer,
                    position,
                ),
    {
        let config = self.config;
        let n: usize = config.n_sub_trees;
        let ghost h = config.sub_tree_height as nat;
        let ghost size = config.sub_tree_size as int;
        let ghost lower = lower_hashes::<H>(IS_INTERMEDIATE, prev_hashes@);
        let len: usize = self.data.len();
        let mut data: Vec<H::Hash> = Vec::with_capacity(len);
        let mut tree: usize = 0;
        while tree < n
            invariant
                config.well_formed(),
                n == config.n_sub_trees,
                n * config.sub_tree_size == len,
                h == config.sub_tree_height,
                size == config.sub_tree_size,
                input@.len() == h,
                IS_INTERMEDIATE ==> prev_hashes@.len() == n * pow2(h),
                lower == lower_hashes::<H>(IS_INTERMEDIATE, prev_hashes@),
                tree <= n,
                data@.len() == tree * size,
                forall|t: int, layer: int, index: int|
                    0 <= t < tree && 0 <= layer < h && 0 <= index < pow2(layer as nat) ==> (
                    #[trigger] data@[t * size + (layer_start(h, layer as nat) + index)]).words()
                        == multi_layer_digest::<F, H>(
                        input@,
                        n as int,
                        lower,
                        layer,
                        t * pow2(layer as nat) + index,
                    ),
            decreases n - tree,
        {
            let ghost before = data@;
            let mut sub_tree = Self::hash_sub_tree::<F, IS_INTERMEDIATE>(
                config,
                input,
                prev_hashes,
                tree,
            );
            let ghost added = sub_tree@;
            data.append(&mut sub_tree);
            assert((tree + 1) * size == tree * size + size) by (nonlinear_arith);
            assert forall|t: int, layer: int, index: int|
                0 <= t < tree + 1 && 0 <= layer < h && 0 <= index < pow2(layer as nat) implies (
            #[trigger] data@[t * size + (layer_start(h, layer as nat) + index)]).words()
                == multi_layer_digest::<F, H>(
                input@,
                n as int,
                lower,
                layer,
                t * pow2(layer as nat) + index,
            ) by {
                lemma_layer_bounds(h, layer as nat);
                let inside = layer_start(h, layer as nat) + index;
                if t < tree {
                    assert(0 <= t * size && t * size + size <= tree * size) by (nonlinear_arith)
                        requires
                            0 <= t,
                            t + 1 <= tree,
                            size >= 0,
                    ;
                    assert(data@[t * size + inside] == before[t * size + inside]);
                } else {
                    assert(data@[t * size + inside] == added[inside]);
                }
            }
            tree = tree + 1;
        }
        self.data = data;
        assert forall|layer: int, position: int|
            0 <= layer < h && 0 <= position < n * pow2(layer as nat) implies (
        #[trigger] self.hash_at(layer, position)).words() == multi_layer_digest::<F, H>(
            input@,
            n as int,
            lower,
            layer,
            position,
        ) by {
            lemma_slot(n as int, h, layer as nat, position);
            let t = position / pow2(layer as nat) as int;
            let index = position % pow2(layer as nat) as int;
            assert(self.hash_at(layer, position) == self.data@[t * size + (layer_start(
                h,
                layer as nat,
            ) + index)]);
        }
    }
}

} // verus!
