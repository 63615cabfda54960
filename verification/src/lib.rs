//! A sparse, dynamic, ordered set of 64-bit keys in the style of an
//! expanse-partitioned digital tree, with its node layouts and the
//! conversions between them, search, rank and select over a trie, the
//! optimistic concurrency protocol and epoch reclamation, counters, and a
//! metadata-sidecar blob map.

pub mod types;
pub mod bits;
pub mod node;
pub mod sorted;
pub mod set;
pub mod types32;
pub mod node32;
pub mod occ32;
pub mod occ_stats;
pub mod occ;
pub mod blobmap;
pub mod map;
pub mod poc_sidecar;
pub mod mutate;
pub mod mutate_map;
pub mod nav;
pub mod branch_forms;
pub mod rank;
