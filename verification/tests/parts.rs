use mixed_degree_merkle::blake2_hash::{Blake2sHash, Blake2sHasher};
use mixed_degree_merkle::blake3_hash::{Blake3Hash, Blake3Hasher};
use mixed_degree_merkle::fields::{into_slice, M31};
use mixed_degree_merkle::hasher::{Digest, Hasher};
use mixed_degree_merkle::merkle_input::MerkleTreeInput;
use mixed_degree_merkle::merkle_multilayer::{MerkleMultiLayer, MerkleMultiLayerConfig};
use mixed_degree_merkle::mixed_degree_decommitment::PositionInLayer;

fn hex(bytes: &[u8]) -> String {
    bytes.iter().map(|b| format!("{:02x}", b)).collect()
}

fn column(start: u32, len: u32) -> Vec<M31> {
    (start..start + len).map(M31::from_u32_unchecked).collect()
}

#[test]
fn blake3_of_nothing() {
    assert_eq!(
        hex(Blake3Hasher::hash(&[]).as_ref()),
        "af1349b9f5f9a1a6a0404dea36dcc9499bcb25c9adc112b7cc9a93cae41f3262"
    );
}

#[test]
fn blake2s_of_abc() {
    assert_eq!(
        hex(Blake2sHasher::hash(b"abc").as_ref()),
        "508c5e8c327c14e2e1a72ba34eeb452f37458b209ed63a294d999b4c86675982"
    );
}

#[test]
fn pieces_are_hashed_as_one() {
    let mut blake3 = Blake3Hasher::new();
    blake3.update(b"ab");
    blake3.update(b"");
    blake3.update(b"c");
    assert_eq!(blake3.finalize_reset(), Blake3Hasher::hash(b"abc"));
    // The hasher starts anew.
    assert_eq!(blake3.finalize(), Blake3Hasher::hash(b""));

    let mut blake2s = Blake2sHasher::new();
    blake2s.update(b"ab");
    blake2s.update(b"c");
    assert_eq!(blake2s.finalize_reset(), Blake2sHasher::hash(b"abc"));
    assert_eq!(blake2s.finalize(), Blake2sHasher::hash(b""));
}

#[test]
fn concatenated_hashes() {
    let (a, b) = (Blake3Hash([1; 32]), Blake3Hash([2; 32]));
    let mut bytes = vec![1u8; 32];
    bytes.extend(vec![2u8; 32]);
    assert_eq!(Blake3Hasher::concat_and_hash(&a, &b), Blake3Hasher::hash(&bytes));
    let (a, b) = (Blake2sHash([1; 32]), Blake2sHash([2; 32]));
    assert_eq!(Blake2sHasher::concat_and_hash(&a, &b), Blake2sHasher::hash(&bytes));
}

#[test]
fn elements_are_hashed_lowest_byte_first() {
    let elements = [M31::from_u32_unchecked(0x01020304), M31::from_u32_unchecked(0x7fffffff)];
    assert_eq!(
        into_slice::<M31, u8>(&elements),
        vec![0x04, 0x03, 0x02, 0x01, 0xff, 0xff, 0xff, 0x7f]
    );
}

#[test]
fn injected_elements_of_several_columns() {
    let (short, long) = (column(0, 4), column(10, 8));
    let mut input = MerkleTreeInput::<M31>::new();
    input.insert_column(3, &short);
    input.insert_column(3, &long);
    input.insert_column(1, &short);
    assert_eq!(input.max_injected_depth(), 3);
    assert_eq!(input.get_columns(3).len(), 2);
    assert_eq!(input.get_columns(2).len(), 0);
    let elements = input.get_injected_elements(3, 2);
    assert_eq!(elements, vec![M31(2), M31(14), M31(15)]);
    assert_eq!(input.get_injected_elements(2, 1), vec![]);
    assert_eq!(input.get_injected_elements(1, 0), short);
}

#[test]
fn bags_make_up_a_column() {
    let long = column(0, 16);
    let mut input = MerkleTreeInput::<M31>::new();
    input.insert_column(3, &long);
    let mut all = vec![];
    for bag in 0..4 {
        all.extend(input.get_injected_elements(3, bag));
    }
    assert_eq!(all, long);
}

#[test]
fn split_and_prepend() {
    let (upper_column, lower_column) = (column(0, 2), column(10, 4));
    let mut input = MerkleTreeInput::<M31>::new();
    input.insert_column(1, &upper_column);
    input.insert_column(3, &lower_column);
    let mut lower = input.split(2);
    assert_eq!(input.max_injected_depth(), 1);
    assert_eq!(lower.max_injected_depth(), 2);
    assert_eq!(lower.get_columns(2)[0], &lower_column[..]);
    lower.prepend(input);
    assert_eq!(lower.max_injected_depth(), 3);
    assert_eq!(lower.get_injected_elements(1, 0), upper_column);
    assert_eq!(lower.get_injected_elements(3, 3), vec![M31(13)]);
}

#[test]
fn children_are_left_or_right() {
    assert_eq!(PositionInLayer::new_child(0), PositionInLayer::Left(0));
    assert_eq!(PositionInLayer::new_child(5), PositionInLayer::Right(5));
}

#[test]
fn multi_layer_over_hashes() {
    let config = MerkleMultiLayerConfig::new(2, 2);
    assert_eq!(config.sub_tree_size, 3);
    let (roots_column, leaves_column) = (column(0, 2), column(10, 4));
    let mut input = MerkleTreeInput::<M31>::new();
    input.insert_column(1, &roots_column);
    input.insert_column(2, &leaves_column);
    let prev_hashes: Vec<Blake3Hash> = (0..8).map(|i: u8| Blake3Hash([i; 32])).collect();
    let mut multi_layer = MerkleMultiLayer::<Blake3Hasher>::new(config);
    multi_layer.commit_layer::<M31, true>(&input, &prev_hashes);

    let node = |left: Blake3Hash, right: Blake3Hash, element: u32| {
        let mut bytes = left.as_ref().to_vec();
        bytes.extend(right.as_ref());
        bytes.extend(element.to_le_bytes());
        Blake3Hasher::hash(&bytes)
    };
    let leaves: Vec<Blake3Hash> = (0..4)
        .map(|i| node(prev_hashes[2 * i], prev_hashes[2 * i + 1], 10 + i as u32))
        .collect();
    for i in 0..4 {
        assert_eq!(multi_layer.get_hash_value(1, i), leaves[i]);
    }
    let roots = vec![node(leaves[0], leaves[1], 0), node(leaves[2], leaves[3], 1)];
    assert_eq!(multi_layer.get_roots(), roots);
    assert_eq!(multi_layer.get_hash_value(0, 1), roots[1]);
}
