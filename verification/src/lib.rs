//! A Merkle tree that commits to columns of different lengths in one root.

pub mod blake2_hash;
pub mod blake3_hash;
pub mod fields;
pub mod hasher;
pub mod laws;
pub mod merkle_input;
pub mod merkle_multilayer;
pub mod mixed_degree_decommitment;
pub mod mixed_degree_merkle_tree;
pub mod part_laws;
pub mod powers;
pub mod tree_model;
