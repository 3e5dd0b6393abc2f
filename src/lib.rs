//! Finds files whose contents are identical and decides, group by group, which
//! copies are removed.
//!
//! The library holds the logic of the three stages: content fingerprints
//! (`fingerprint`), the index from fingerprint to the files that share it
//! (`index`), and the operator-driven reconciliation that keeps the first file
//! of each duplicate group and removes the others (`confirm`, `reconcile`).
//! Walking the file system, reading files, prompting and deleting are left to
//! the caller, who hands the library plain values.

mod confirm;
mod fingerprint;
mod index;
mod reconcile;

pub use fingerprint::{calculate_hash, same_hash, sha256_of, DIGEST_LEN};
pub use confirm::{is_affirmative, is_yes_token, lowercase_of, trimmed_of};
pub use index::{
    duplicate_groups_of, files_with_hash, has_key, lemma_distinct_contents_no_groups,
    lemma_duplicate_groups_members, lemma_duplicate_groups_sizes,
    lemma_duplicates_grouped_together, lemma_files_with_hash_distinct,
    lemma_files_with_hash_members, lemma_groups_files_distinct,
    lemma_same_records_same_buckets, ids_increasing, Bucket, BucketView, FileId,
    FingerprintIndex, Record,
};
pub use reconcile::{
    all_duplicates, deletions_of, files_distinct, lemma_confirmed_group_keeps_first,
    lemma_declined_group_untouched, lemma_deletions_members, lemma_finished_run,
    lemma_run_outcome,
    marked_for_deletion, removable, Action, Reconciler,
};
