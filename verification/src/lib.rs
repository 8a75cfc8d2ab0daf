//! A persistent, rank-balanced, indexable sequence.
//!
//! The sequence is stored as a red-black tree whose leaves hold the elements
//! in order. Every operation is pure: it returns a new version and leaves the
//! receiver untouched, sharing unmodified subtrees between versions through
//! reference counting. Insertion, deletion, indexing, splitting at a position
//! and concatenation all take time logarithmic in the length.

mod laws;
mod node;
mod tree;

pub use laws::appended;
pub use laws::lemma_bulk_build_matches_appends;
pub use laws::lemma_erase_undoes_insert;
pub use laws::lemma_insert_at_end_is_push;
pub use laws::lemma_insert_then_index;
pub use laws::lemma_split_merge_round_trip;
pub use tree::Iter;
pub use tree::PersistentLazyRBTree;
