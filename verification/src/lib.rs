//! A Hamming weight tree: a nearest-neighbour index for 128-bit binary
//! features under Hamming distance.
//!
//! A feature is a `u128`. For every level `0..=7` the feature is cut into
//! `2^level` equal substrings and the number of ones of each substring is
//! written into the substring's own bits, as that many ones packed to the
//! right. The eight words of a feature are its indices ([`indices::indices128`]);
//! the tree ([`Hwt`]) is a trie over them. Two words of the same level differ
//! in exactly as many bits as the substring weights differ in sum, which never
//! exceeds the Hamming distance of the two features and never shrinks from one
//! level to the next: this is what lets a search prune branches.
pub mod bits;
pub mod chf;
pub mod feature_heap;
pub mod hamming_queue;
pub mod hwt;
pub mod indices;
pub mod search;
pub mod swar_ops;
pub mod table;

pub use crate::feature_heap::FeatureHeap;
pub use crate::hamming_queue::{LeafQueue, NodeQueue};
pub use crate::hwt::Hwt;
