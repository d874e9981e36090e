use mixed_degree_merkle::blake2_hash::Blake2sHasher;
use mixed_degree_merkle::blake3_hash::{Blake3Hash, Blake3Hasher};
use mixed_degree_merkle::fields::M31;
use mixed_degree_merkle::hasher::{Digest, Hasher};
use mixed_degree_merkle::merkle_input::MerkleTreeInput;
use mixed_degree_merkle::mixed_degree_decommitment::PositionInLayer;
use mixed_degree_merkle::mixed_degree_merkle_tree::{
    MixedDegreeMerkleTree, MixedDegreeMerkleTreeConfig,
};

type Tree<'a> = MixedDegreeMerkleTree<'a, M31, Blake3Hasher>;

fn m31(value: u32) -> M31 {
    M31::from_u32_unchecked(value)
}

fn config(sizes: &[usize]) -> MixedDegreeMerkleTreeConfig {
    MixedDegreeMerkleTreeConfig {
        multi_layer_sizes: sizes.to_vec(),
    }
}

fn column(len: u32) -> Vec<M31> {
    (0..len).map(M31::from_u32_unchecked).collect::<Vec<M31>>()
}

fn leaf_hash(value: u32) -> Blake3Hash {
    Blake3Hasher::hash(&value.to_le_bytes())
}

#[test]
fn new_mixed_degree_merkle_tree_test() {
    let mut input = MerkleTreeInput::<M31>::new();
    let column = vec![M31::from_u32_unchecked(0); 1 << 12];
    input.insert_column(12, &column);

    let multi_layer_sizes = [5, 4, 3].to_vec();
    let tree = MixedDegreeMerkleTree::<M31, Blake2sHasher>::new(
        input,
        MixedDegreeMerkleTreeConfig {
            multi_layer_sizes: multi_layer_sizes.clone(),
        },
    );

    let mut remaining_height = multi_layer_sizes.iter().sum::<usize>();
    multi_layer_sizes
        .iter()
        .enumerate()
        .for_each(|(i, layer_height)| {
            assert_eq!(tree.multi_layers[i].config.sub_tree_height, *layer_height);
            assert_eq!(
                tree.multi_layers[i].config.n_sub_trees,
                1 << (remaining_height - layer_height)
            );
            remaining_height -= layer_height;
        });
}

#[test]
fn heights_that_do_not_add_up_are_not_valid() {
    // The sum of the layer heights is not equal to the tree height deferred by the input.
    assert!(!Tree::validate_config(&config(&[5, 4, 2]), 12));
    assert!(!Tree::validate_config(&config(&[5, 4, 4]), 12));
    assert!(!Tree::validate_config(&config(&[usize::MAX, 13]), 12));
    assert!(!Tree::validate_config(&config(&[]), 12));
    assert!(Tree::validate_config(&config(&[5, 4, 3]), 12));
    assert!(Tree::validate_config(&config(&[12]), 12));
    assert!(Tree::validate_config(&config(&[]), 0));
}

fn hash_symmetric_path<H: Hasher>(initial_value: &[H::NativeType], path_length: usize) -> H::Hash {
    (1..path_length).fold(H::hash(initial_value), |curr_hash, _| {
        H::concat_and_hash(&curr_hash, &curr_hash)
    })
}

#[test]
fn commit_test() {
    const TREE_HEIGHT: usize = 8;
    const INJECT_DEPTH: usize = 3;
    let mut input = MerkleTreeInput::<M31>::new();
    let base_column = vec![M31::from_u32_unchecked(0); 1 << (TREE_HEIGHT)];
    let injected_column = vec![M31::from_u32_unchecked(1); 1 << (INJECT_DEPTH - 1)];
    input.insert_column(TREE_HEIGHT + 1, &base_column);
    input.insert_column(INJECT_DEPTH, &injected_column);
    let mut tree = MixedDegreeMerkleTree::<M31, Blake3Hasher>::new(
        input,
        MixedDegreeMerkleTreeConfig {
            multi_layer_sizes: [5, 2, 2].to_vec(),
        },
    );
    let expected_hash_at_injected_depth = hash_symmetric_path::<Blake3Hasher>(
        0_u32.to_le_bytes().as_ref(),
        TREE_HEIGHT + 1 - INJECT_DEPTH,
    );
    let mut sack_at_injected_depth = expected_hash_at_injected_depth.as_ref().to_vec();
    sack_at_injected_depth.extend(expected_hash_at_injected_depth.as_ref().to_vec());
    sack_at_injected_depth.extend(1u32.to_le_bytes());
    let expected_result =
        hash_symmetric_path::<Blake3Hasher>(sack_at_injected_depth.as_ref(), INJECT_DEPTH);

    let root = tree.commit();
    assert_eq!(root, expected_result);
}

#[test]
fn get_hash_at_test() {
    const TREE_HEIGHT: usize = 3;
    let mut input = MerkleTreeInput::<M31>::new();
    let base_column = (0..4).map(M31::from_u32_unchecked).collect::<Vec<M31>>();
    input.insert_column(TREE_HEIGHT, &base_column);
    let mut tree = MixedDegreeMerkleTree::<M31, Blake3Hasher>::new(
        input,
        MixedDegreeMerkleTreeConfig {
            multi_layer_sizes: [2, 1].to_vec(),
        },
    );
    let root = tree.commit();
    assert_eq!(root, tree.get_hash_at(0, 0));

    let mut hasher = Blake3Hasher::new();
    hasher.update(&0_u32.to_le_bytes());
    // hasher.update(&1_u32.to_le_bytes());
    let expected_hash_at_2_0 = hasher.finalize_reset();
    let hash_at_2_0 = tree.get_hash_at(2, 0);
    assert_eq!(hash_at_2_0, expected_hash_at_2_0);

    hasher.update(&2_u32.to_le_bytes());
    let expected_hash_at_2_2 = hasher.finalize_reset();
    let hash_at_2_2 = tree.get_hash_at(2, 2);
    assert_eq!(hash_at_2_2, expected_hash_at_2_2);
    hasher.update(&3_u32.to_le_bytes());
    let expected_hash_at_2_3 = hasher.finalize_reset();
    let hash_at_2_3 = tree.get_hash_at(2, 3);
    assert_eq!(hash_at_2_3, expected_hash_at_2_3);

    let expected_parent_of_2_2_and_2_3 =
        Blake3Hasher::concat_and_hash(&expected_hash_at_2_2, &expected_hash_at_2_3);
    let parent_of_2_2_and_2_3 = tree.get_hash_at(1, 1);
    assert_eq!(parent_of_2_2_and_2_3, expected_parent_of_2_2_and_2_3);
}

#[test]
#[should_panic]
fn get_hash_at_invalid_layer_test() {
    const TREE_HEIGHT: usize = 3;
    let mut input = MerkleTreeInput::<M31>::new();
    let base_column = (0..4).map(M31::from_u32_unchecked).collect::<Vec<M31>>();
    input.insert_column(TREE_HEIGHT, &base_column);
    let tree = MixedDegreeMerkleTree::<M31, Blake3Hasher>::new(
        input,
        MixedDegreeMerkleTreeConfig {
            multi_layer_sizes: [2, 1].to_vec(),
        },
    );
    tree.get_hash_at(4, 0);
}

#[test]
fn decommit_intermediate_layer_test() {
    const TREE_HEIGHT: usize = 3;
    let mut input = MerkleTreeInput::<M31>::new();
    let base_column = (0..4).map(M31::from_u32_unchecked).collect::<Vec<M31>>();
    let inject_at_depth_1_column = vec![m31(1)];
    input.insert_column(TREE_HEIGHT, &base_column);
    input.insert_column(1, &inject_at_depth_1_column);
    let mut tree = MixedDegreeMerkleTree::<M31, Blake3Hasher>::new(
        input,
        MixedDegreeMerkleTreeConfig {
            multi_layer_sizes: [2, 1].to_vec(),
        },
    );
    tree.commit();

    let queried_indices = vec![0, 2, 3];
    let parent_indices = vec![0, 1];
    let proof_layer_depth_2 = tree._decommit_intermediate_layer(TREE_HEIGHT - 1, &queried_indices);
    let proof_layer_depth_1 = tree._decommit_intermediate_layer(TREE_HEIGHT - 2, &parent_indices);

    // Only 1 bag in that layer.
    assert_eq!(proof_layer_depth_1.len(), 1);

    // Indices are siblings hence no hash in that node.
    assert_eq!(proof_layer_depth_1[0].hash, None);
    assert_eq!(proof_layer_depth_1[0].injected_elements, vec![m31(1)]);

    // 2,3 are siblings, and no injected elements in that layer so bag is not included.
    assert_eq!(proof_layer_depth_1.len(), 1);
    assert_eq!(proof_layer_depth_1[0].hash, None);

    let mut hasher = Blake3Hasher::new();
    hasher.update(&1_u32.to_le_bytes());
    let expected_hash_at_2_0 = hasher.finalize_reset();
    assert_eq!(proof_layer_depth_2[0].hash, Some(expected_hash_at_2_0));
    assert_eq!(proof_layer_depth_2[0].injected_elements, vec![]);
}

#[test]
fn decommit_leaves_of_several_sub_trees() {
    let base_column = column(8);
    let mut input = MerkleTreeInput::<M31>::new();
    input.insert_column(4, &base_column);
    let mut tree = Tree::new(input, config(&[1, 2, 1]));
    tree.commit();
    let decommitment = tree.decommit(vec![0, 2, 7]);
    let layers = &decommitment.decommitment_layers;
    assert_eq!(layers.len(), 4);

    // The leaves themselves.
    assert_eq!(layers[0].len(), 3);
    assert_eq!(layers[0][0].injected_elements, vec![m31(0)]);
    assert_eq!(layers[0][1].injected_elements, vec![m31(2)]);
    assert_eq!(layers[0][2].injected_elements, vec![m31(7)]);
    assert_eq!(layers[0][2].hash, None);
    assert_eq!(layers[0][2].position_in_layer, PositionInLayer::Leaf(7));

    // The siblings of the leaves.
    assert_eq!(layers[1].len(), 3);
    assert_eq!(layers[1][0].hash, Some(leaf_hash(1)));
    assert_eq!(layers[1][1].hash, Some(leaf_hash(3)));
    assert_eq!(layers[1][2].hash, Some(leaf_hash(6)));
    assert_eq!(layers[1][0].position_in_layer, PositionInLayer::Right(1));
    assert_eq!(layers[1][2].position_in_layer, PositionInLayer::Left(6));

    // The parents are 0, 1 and 3: only the sibling of 3 is not known.
    assert_eq!(layers[2].len(), 1);
    assert_eq!(
        layers[2][0].hash,
        Some(Blake3Hasher::concat_and_hash(&leaf_hash(4), &leaf_hash(5)))
    );
    assert_eq!(layers[2][0].position_in_layer, PositionInLayer::Left(2));

    // Their parents are 0 and 1, siblings without elements in their parent.
    assert_eq!(layers[3].len(), 0);
}

/// The columns of each depth, those of depth 1 first.
type Columns = Vec<Vec<Vec<M31>>>;

fn mixed_columns() -> Columns {
    vec![
        vec![vec![m31(100), m31(101)]],
        vec![],
        vec![
            (200..204).map(m31).collect(),
            (300..308).map(m31).collect(),
        ],
        vec![column(16)],
    ]
}

fn input_of(columns: &Columns) -> MerkleTreeInput<'_, M31> {
    let mut input = MerkleTreeInput::<M31>::new();
    for (i, layer) in columns.iter().enumerate() {
        for column in layer {
            input.insert_column(i + 1, column);
        }
    }
    input
}

fn elements_of(columns: &Columns, layer: usize, position: usize) -> Vec<M31> {
    let mut elements = vec![];
    for column in &columns[layer] {
        let size = column.len() >> layer;
        elements.extend_from_slice(&column[position * size..(position + 1) * size]);
    }
    elements
}

fn bytes_of(elements: &[M31]) -> Vec<u8> {
    elements.iter().flat_map(|e| e.0.to_le_bytes()).collect()
}

/// The hash of a node, straight from the columns.
fn hash_of<H: Hasher<NativeType = u8>>(
    columns: &Columns,
    layer: usize,
    position: usize,
) -> H::Hash {
    let mut words = vec![];
    if layer + 1 < columns.len() {
        for child in [2 * position, 2 * position + 1] {
            words.extend_from_slice(hash_of::<H>(columns, layer + 1, child).as_ref());
        }
    }
    words.extend(bytes_of(&elements_of(columns, layer, position)));
    H::hash(&words)
}

const LAYOUTS: [&[usize]; 5] = [&[4], &[1, 3], &[2, 2], &[1, 2, 1], &[1, 1, 1, 1]];

#[test]
fn hashes_do_not_depend_on_the_layout() {
    let columns = mixed_columns();
    for layout in LAYOUTS {
        let mut tree = Tree::new(input_of(&columns), config(layout));
        let root = tree.commit();
        assert_eq!(root, hash_of::<Blake3Hasher>(&columns, 0, 0));
        assert_eq!(tree.root(), root);
        for layer in 0..4 {
            for position in 0..1 << layer {
                assert_eq!(
                    tree.get_hash_at(layer, position),
                    hash_of::<Blake3Hasher>(&columns, layer, position)
                );
            }
        }
    }
}

#[test]
fn committing_again_gives_the_same_root() {
    let columns = mixed_columns();
    let mut tree = Tree::new(input_of(&columns), config(&[2, 1, 1]));
    let root = tree.commit();
    assert_eq!(tree.height(), 4);
    assert_eq!(tree.commit(), root);
    assert_eq!(tree.root(), root);
    assert_eq!(tree.height(), 4);
    assert_eq!(tree.multi_layer_height(0), 2);
    assert_eq!(tree.multi_layer_height(2), 1);
}

#[test]
fn commit_with_another_hash_function() {
    let columns = mixed_columns();
    let mut tree = MixedDegreeMerkleTree::<M31, Blake2sHasher>::new(
        input_of(&columns),
        config(&[3, 1]),
    );
    assert_eq!(tree.commit(), hash_of::<Blake2sHasher>(&columns, 0, 0));
}

#[test]
fn columns_longer_than_their_layer() {
    let column = vec![M31::from_u32_unchecked(0); 1024];
    let mut input = MerkleTreeInput::<M31>::new();
    input.insert_column(7, &column);
    let mut tree = Tree::new(input, config(&[5, 2]));
    let root = tree.commit();
    // Each of the 64 leaves holds 16 elements.
    assert_eq!(root, hash_symmetric_path::<Blake3Hasher>(&[0u8; 64], 7));
}

#[test]
fn no_hash_before_the_commit() {
    let columns = mixed_columns();
    let tree = Tree::new(input_of(&columns), config(&[0, 3, 0, 1]));
    assert_eq!(tree.multi_layers[0].config.n_sub_trees, 16);
    assert_eq!(tree.multi_layers[0].config.sub_tree_size, 0);
    assert_eq!(tree.multi_layers[1].config.n_sub_trees, 2);
    assert_eq!(tree.multi_layers[1].config.sub_tree_size, 7);
    assert_eq!(tree.get_hash_at(0, 0), Blake3Hash([0; 32]));
    assert_eq!(tree.get_hash_at(3, 7), Blake3Hash([0; 32]));
    assert_eq!(tree.root(), Blake3Hash([0; 32]));
}

#[test]
fn parents_of_runs() {
    assert_eq!(Tree::get_parent_indices(vec![]), Vec::<usize>::new());
    assert_eq!(Tree::get_parent_indices(vec![0, 2, 7]), vec![0, 1, 3]);
    assert_eq!(Tree::get_parent_indices(vec![0, 1, 3]), vec![0, 1]);
    assert_eq!(Tree::get_parent_indices(vec![4, 5, 1, 0, 5]), vec![2, 0, 2]);
}

#[test]
fn a_tree_without_layers_reveals_nothing() {
    let tree = Tree::new(MerkleTreeInput::<M31>::new(), config(&[]));
    assert_eq!(tree.height(), 0);
    let decommitment = tree.decommit(vec![]);
    assert_eq!(decommitment.decommitment_layers.len(), 1);
    assert_eq!(decommitment.decommitment_layers[0].len(), 0);
}

#[test]
fn a_queried_pair_reveals_the_elements_of_its_parent() {
    let columns = mixed_columns();
    let mut tree = Tree::new(input_of(&columns), config(&[2, 2]));
    tree.commit();
    let nodes = tree._decommit_intermediate_layer(3, &[6, 7, 1]);
    assert_eq!(nodes.len(), 2);
    assert_eq!(nodes[0].hash, None);
    assert_eq!(nodes[0].position_in_layer, PositionInLayer::Right(7));
    assert_eq!(nodes[0].injected_elements, vec![m31(203), m31(306), m31(307)]);
    assert_eq!(nodes[1].hash, Some(tree.get_hash_at(3, 0)));
    assert_eq!(nodes[1].position_in_layer, PositionInLayer::Left(0));
    assert_eq!(nodes[1].injected_elements, vec![m31(200), m31(300), m31(301)]);

    // No elements are injected at depth 2.
    assert_eq!(tree._decommit_intermediate_layer(2, &[2, 3]).len(), 0);
    assert_eq!(tree._decommit_intermediate_layer(2, &[]).len(), 0);

    let leaves = tree._decommit_leaf_layer(&[5, 5]);
    assert_eq!(leaves.len(), 2);
    assert_eq!(leaves[1].position_in_layer, PositionInLayer::Leaf(5));
    assert_eq!(leaves[1].injected_elements, vec![m31(10), m31(11)]);
}

/// Computes the root from a decommitment alone.
fn recompute(tree: &Tree, queries: &[usize]) -> Vec<(usize, Blake3Hash)> {
    let decommitment = tree.decommit(queries.to_vec());
    let layers = &decommitment.decommitment_layers;
    let mut known: Vec<(usize, Blake3Hash)> = vec![];
    for (node, query) in layers[0].iter().zip(queries) {
        known.push((*query, Blake3Hasher::hash(&bytes_of(&node.injected_elements))));
    }
    for layer in &layers[1..] {
        let mut nodes = layer.iter().peekable();
        let mut above: Vec<(usize, Blake3Hash)> = vec![];
        let mut i = 0;
        while i < known.len() {
            let (index, own) = known[i];
            let mut elements = vec![];
            let other = if i + 1 < known.len() && known[i + 1].0 == index ^ 1 {
                i += 1;
                if nodes.peek().is_some_and(|node| node.hash.is_none()) {
                    elements = bytes_of(&nodes.next().unwrap().injected_elements);
                }
                known[i].1
            } else {
                let node = nodes.next().unwrap();
                elements = bytes_of(&node.injected_elements);
                node.hash.unwrap()
            };
            i += 1;
            let (left, right) = if index % 2 == 0 { (own, other) } else { (other, own) };
            let mut hasher = Blake3Hasher::new();
            hasher.update(left.as_ref());
            hasher.update(right.as_ref());
            hasher.update(&elements);
            above.push((index / 2, hasher.finalize()));
        }
        assert!(nodes.next().is_none());
        above.dedup();
        known = above;
    }
    known
}

#[test]
fn a_decommitment_gives_the_root() {
    let columns = mixed_columns();
    let query_lists: [&[usize]; 7] = [
        &[0],
        &[7],
        &[0, 2, 7],
        &[2, 3, 4, 5],
        &[0, 1, 2, 3, 4, 5, 6, 7],
        &[7, 0, 6, 1],
        &[3, 3, 2],
    ];
    for layout in LAYOUTS {
        let mut tree = Tree::new(input_of(&columns), config(layout));
        let root = tree.commit();
        for queries in query_lists {
            assert_eq!(recompute(&tree, queries), vec![(0, root)]);
        }
    }
}

#[test]
fn the_siblings_above_one_leaf() {
    let base_column = column(8);
    let mut input = MerkleTreeInput::<M31>::new();
    input.insert_column(4, &base_column);
    let mut tree = Tree::new(input, config(&[1, 2, 1]));
    tree.commit();
    let decommitment = tree.decommit(vec![0]);
    let layers = &decommitment.decommitment_layers;
    let pair = |i: u32| Blake3Hasher::concat_and_hash(&leaf_hash(i), &leaf_hash(i + 1));
    assert_eq!(layers.iter().map(|l| l.len()).collect::<Vec<_>>(), vec![1, 1, 1, 1]);
    assert_eq!(layers[1][0].hash, Some(leaf_hash(1)));
    assert_eq!(layers[2][0].hash, Some(pair(2)));
    assert_eq!(
        layers[3][0].hash,
        Some(Blake3Hasher::concat_and_hash(&pair(4), &pair(6)))
    );
}

#[test]
fn a_tree_is_made_only_where_the_heights_add_up() {
    let columns = mixed_columns();
    assert!(Tree::try_new(input_of(&columns), config(&[2, 1])).is_none());
    assert!(Tree::try_new(input_of(&columns), config(&[2, 3])).is_none());
    assert!(Tree::try_new(input_of(&columns), config(&[])).is_none());
    let mut tree = Tree::try_new(input_of(&columns), config(&[2, 2])).unwrap();
    assert_eq!(tree.root(), Blake3Hash([0; 32]));
    assert_eq!(tree.multi_layers[0].config.n_sub_trees, 4);
    assert_eq!(tree.commit(), hash_of::<Blake3Hasher>(&columns, 0, 0));
}

#[test]
fn growing_queries_are_answered_in_order() {
    let columns = mixed_columns();
    let mut tree = Tree::new(input_of(&columns), config(&[4]));
    tree.commit();
    let positions: Vec<PositionInLayer> = tree
        ._decommit_intermediate_layer(3, &[1, 2, 3, 4, 7])
        .iter()
        .map(|node| node.position_in_layer)
        .collect();
    assert_eq!(
        positions,
        vec![
            PositionInLayer::Left(0),
            PositionInLayer::Right(3),
            PositionInLayer::Right(5),
            PositionInLayer::Left(6),
        ]
    );
    assert_eq!(Tree::get_parent_indices(vec![1, 1, 2, 3, 3, 6]), vec![0, 1, 3]);
}

#[test]
fn pairs_below_the_leaves_reveal_the_elements_of_the_leaves() {
    let columns = mixed_columns();
    let tree = Tree::new(input_of(&columns), config(&[4]));
    let nodes = tree._decommit_intermediate_layer(4, &[14, 15, 1, 0]);
    assert_eq!(nodes.len(), 2);
    assert_eq!(nodes[0].hash, None);
    assert_eq!(nodes[0].position_in_layer, PositionInLayer::Right(15));
    assert_eq!(nodes[0].injected_elements, vec![m31(14), m31(15)]);
    assert_eq!(nodes[1].hash, None);
    assert_eq!(nodes[1].position_in_layer, PositionInLayer::Left(0));
    assert_eq!(nodes[1].injected_elements, vec![m31(0), m31(1)]);
}
