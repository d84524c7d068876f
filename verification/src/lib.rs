//! Finding groups of byte-identical files, in three narrowing passes.
//!
//! The library holds the whole grouping pipeline: files are collated by
//! size, then by a BLAKE3 fingerprint of their leading bytes, then by a
//! BLAKE3 hash of their remaining bytes keyed by that fingerprint; groups
//! of two or more at the end are the duplicate sets, which can be listed,
//! summarized, or turned into a deletion plan that spares the
//! lexicographically least member of each set. Walking directories,
//! reading file bytes and deleting files stay with the caller, which
//! hands in plain values: paths, sizes, and the bytes each read produced.

pub mod bytes;
pub mod consumers;
pub mod groups;
pub mod hashing;
pub mod laws;
pub mod passes;
pub mod seqs;

pub use bytes::bytes_equal;
pub use bytes::path_le;
pub use bytes::sort_paths;
pub use consumers::comparison_pairs;
pub use consumers::deletion_targets;
pub use consumers::duplicate_sets;
pub use consumers::listing_lines;
pub use consumers::summarize;
pub use consumers::SummaryStats;
pub use groups::FileEntry;
pub use groups::HashGroup;
pub use groups::HashGroups;
pub use groups::SizeGroup;
pub use groups::SizeGroups;
pub use hashing::PREHASH_SIZE;
pub use passes::drop_singletons;
pub use passes::full_hash_targets;
pub use passes::pass_one;
pub use passes::pass_three;
pub use passes::pass_two;
pub use passes::prehash_targets;
pub use passes::FullHashTask;
pub use passes::PrefixRead;
pub use passes::TailRead;
