# mixed_degree_merkle

A Merkle tree that commits to columns of different lengths in one root. A column at depth `d` is
spread over the `2^(d - 1)` nodes that lie `d - 1` steps below the root; a node hashes the hashes of
its two children, where it has any, and then the elements of its columns. Opening some leaves
reveals their elements and, layer by layer, the hashes and elements that are needed to compute the
root again.

The library is written in Verus: every function states what it returns, and Verus proves it. The two
functions that call the hash functions of the crates `blake2` and `blake3` are the exception: of
them Verus believes that the hash is a function of the bytes.

- `fields`: field elements and the words that stand for them in a hash
- `hasher`, `blake2_hash`, `blake3_hash`: hash functions
- `merkle_input`: the columns to commit to
- `merkle_multilayer`: consecutive layers, held as an array of sub-trees
- `mixed_degree_merkle_tree`: the tree: committing, reading hashes, opening leaves
- `mixed_degree_decommitment`: what is revealed to open leaves
- `tree_model`, `powers`: the mathematics that the contracts speak of
- `laws`: what holds of the tree as a whole
