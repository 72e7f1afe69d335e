//! A tiered commitment tree: an append-only, sparsely witnessed Merkle
//! accumulator over 32-byte commitments.
//!
//! The tree is a quad tree of depth 24, organized into three nested tiers of
//! depth 8 each: a top tier of epochs, an epoch tier of blocks, and a block
//! tier of commitments.  Commitments are appended at strictly increasing
//! positions; ending a block or an epoch seals the current tier and advances
//! the position to the next tier boundary.  Individual commitments may be
//! witnessed (an authentication path of 24 levels relates them to the root)
//! or forgotten (their leaf collapses to a bare hash, leaving the root
//! unchanged).  The tree can be serialized incrementally into a storage model
//! of hash and commitment rows, and rebuilt from such rows.

use vstd::prelude::*;

mod deserialize;
mod hash;
mod path;
mod position;
mod segment;
mod serialize;
mod storage;
mod tier;
mod tree;

pub use hash::Commitment;
pub use hash::Digest;
pub use hash::Forgotten;
pub use hash::bytes32_eq;
pub use hash::leaf_hash_of;
pub use hash::node_hash_of;
pub use hash::zero_hash;
pub use hash::one_hash;

pub use position::BLOCK_SPAN;
pub use position::EPOCH_SPAN;
pub use position::TREE_SPAN;
pub use position::pow4;
pub use position::pow4_u64;
pub use position::digit;

pub use segment::Segment;
pub use segment::segs_wf;
pub use segment::gaps_sealed;
pub use segment::covered_end;
pub use segment::prev_covered_end;
pub use segment::region_ok;
pub use segment::region_hash;
pub use segment::children_hash;
pub use segment::first_ge;

pub use path::PathStep;
pub use path::WitnessProof;
pub use path::step_hash;
pub use path::fold_at;
pub use path::fold_path;
pub use path::path_root;

pub use tree::Tree;
pub use tree::Witness;
pub use tree::InsertError;
pub use tree::tree_root_hash;
pub use tree::next_block_boundary;
pub use tree::next_epoch_boundary;
pub use tree::lemma_boundary_advances;
pub use tree::lemma_seal_empty_advance;
pub use tree::level_base;
pub use tree::sibling_hash;
pub use tree::step_matches_siblings;

pub use tier::Item;
pub use tier::Tier;
pub use tier::lemma_tier_capacity;

pub use serialize::Options;
pub use serialize::Serializer;
pub use serialize::min_bound;
pub use serialize::rows_model;
pub use serialize::commitment_rows_model;
pub use serialize::commitment_rows;
pub use serialize::forgotten_rows;
pub use serialize::hash_rows;
pub use serialize::child_hash_rows;
pub use serialize::hash_rows_of;
pub use serialize::lemma_commitment_rows_faithful;
pub use serialize::lemma_commitment_rows_complete;
pub use serialize::lemma_hash_rows_wf;
pub use serialize::lemma_hash_rows_essential;
pub use serialize::lemma_hash_rows_cover_pruned;
pub use serialize::row_is_leaf_of;
pub use serialize::row_is_pruned_of;

pub use storage::InMemory;
pub use storage::kept_hashes;
pub use storage::kept_commitments;
pub use storage::hashes_after_deletes;
pub use storage::commitments_after_deletes;
pub use storage::write_to_store;

pub use deserialize::ReadError;
pub use deserialize::from_reader;
pub use deserialize::store_valid;
pub use deserialize::store_consistent;
pub use deserialize::hash_row_essential;
pub use deserialize::position_covered;
pub use deserialize::commitment_rows_valid;
pub use deserialize::hash_rows_valid;
pub use deserialize::has_leaf_at;
pub use deserialize::has_leaf_at_any;
pub use deserialize::leaf_from_row;
pub use deserialize::pruned_from_row;
pub use deserialize::segment_from_rows;
pub use deserialize::row_covered;
pub use deserialize::lemma_fresh_serialization_valid;

verus! {

} // verus!
