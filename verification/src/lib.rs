//! Proof-of-solvency building blocks: a Merkle sum tree over user balances,
//! the witness checks of the inclusion and solvency circuits, and the
//! conversion of ingested signature and asset records.

pub mod circuits;
pub mod codec;
pub mod csv_parser;
pub mod encoding;
pub mod entry;
pub mod hash;
pub mod laws;
pub mod layers;
pub mod merkle_sum_tree;
pub mod node;
pub mod path;
pub mod proving;
pub mod shape;
pub mod sorting;
pub mod tree_model;
