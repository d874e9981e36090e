//! What a tree reveals to open some of its leaves.

use vstd::prelude::*;

use crate::fields::Field;
use crate::hasher::Hasher;

verus! {

/// Where a node of a decommitment stands in its layer.
#[derive(Clone, Copy, Debug, PartialEq, Eq, Structural)]
pub enum PositionInLayer {
    /// The leaf with this index.
    Leaf(usize),
    /// The left child with this index.
    Left(usize),
    /// The right child with this index.
    Right(usize),
}

impl PositionInLayer {
    /// The position of the node `index` as a child: every even index is a left one.
    pub open spec fn child(index: usize) -> Self {
        if index % 2 == 0 {
            PositionInLayer::Left(index)
        } else {
            PositionInLayer::Right(index)
        }
    }

    /// The position of the node `index` as a child: every even index is a left one.
    pub fn new_child(index: usize) -> (position: Self)
        ensures
            position == Self::child(index),
    {
        if index % 2 == 0 {
            PositionInLayer::Left(index)
        } else {
            PositionInLayer::Right(index)
        }
    }
}

/// What is revealed of one node: a hash, where it cannot be computed, and injected elements.
pub struct DecommitmentNode<F: Field, H: Hasher> {
    pub hash: Option<H::Hash>,
    pub position_in_layer: PositionInLayer,
    pub injected_elements: Vec<F>,
}

/// The contents of a node of a decommitment, with hashes of type `D`.
#[verifier::ext_equal]
pub struct NodeView<F, D> {
    pub hash: Option<D>,
    pub position_in_layer: PositionInLayer,
    pub injected_elements: Seq<F>,
}

impl<F: Field, H: Hasher> View for DecommitmentNode<F, H> {
    type V = NodeView<F, H::Hash>;

    open spec fn view(&self) -> NodeView<F, H::Hash> {
        NodeView {
            hash: self.hash,
            position_in_layer: self.position_in_layer,
            injected_elements: self.injected_elements@,
        }
    }
}

/// The contents of the nodes of a layer.
pub open spec fn layer_view<F: Field, H: Hasher>(nodes: Seq<DecommitmentNode<F, H>>) -> Seq<
    NodeView<F, H::Hash>,
> {
    Seq::new(nodes.len(), |i: int| nodes[i]@)
}

/// What a tree reveals to open some of its leaves: the leaves themselves, and then for each
/// layer, from the leaves up, what is needed to compute the hashes of the layer above it.
pub struct MixedDecommitment<F: Field, H: Hasher> {
    pub decommitment_layers: Vec<Vec<DecommitmentNode<F, H>>>,
}

impl<F: Field, H: Hasher> View for MixedDecommitment<F, H> {
    type V = Seq<Seq<NodeView<F, H::Hash>>>;

    open spec fn view(&self) -> Seq<Seq<NodeView<F, H::Hash>>> {
        Seq::new(
            self.decommitment_layers@.len(),
            |i: int| layer_view(self.decommitment_layers@[i]@),
        )
    }
}

} // verus!
