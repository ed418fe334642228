//! Canonical k-mer indexing of DNA windows, k-mer counting over sets of
//! sequences, and detection of repetitive regions from those counts.
//!
//! A window of `k` bases (`1 <= k <= 32`) packs into a `u64`, two bits per
//! base. Counting is global over all sequences given; the repeat detector
//! keeps the k-mers counted at least a threshold number of times and merges
//! consecutive windows that carry one of them into regions.

pub mod bases;
pub mod canonical;
pub mod counting;
pub mod repeats;

pub use bases::{base2bit, base2bitcmp};
pub use canonical::{back_to_seq, to_idx, MAX_K};
pub use counting::{count_kmers, kmer_histogram, merge_counts, KmerError, SeqRecord};
pub use repeats::{
    annotate_repetitive_kmers, find_repeat_regions, merge_hit_runs, repetitive_kmers, RepeatRegion,
};
