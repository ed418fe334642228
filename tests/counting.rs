use mito_check::{count_kmers, kmer_histogram, merge_counts, KmerError, SeqRecord};
use std::collections::HashMap;

fn record(id: &str, seq: &[u8]) -> SeqRecord {
    SeqRecord::new(id.to_string(), seq.to_vec())
}

#[test]
fn literal_example_counts() {
    let records = vec![record("s", b"ACGTACGT")];
    let counts = count_kmers(&records, 3).unwrap();
    // ACG and CGT are both read forward; GTA and TAC are both read on the
    // other strand and land on two indices.
    let expected: HashMap<u64, u32> = [(6, 2), (27, 2), (49, 1), (44, 1)].into_iter().collect();
    assert_eq!(counts, expected);
}

#[test]
fn rejects_k_out_of_range() {
    let records = vec![record("s", b"ACGTACGT")];
    assert_eq!(count_kmers(&records, 0), Err(KmerError::InvalidConfiguration { k: 0 }));
    assert_eq!(count_kmers(&records, 33), Err(KmerError::InvalidConfiguration { k: 33 }));
    let long = vec![record("s", &[b'C'; 40])];
    let counts = count_kmers(&long, 32).unwrap();
    assert_eq!(counts.len(), 1);
    assert_eq!(counts[&0x5555_5555_5555_5555], 9);
}

#[test]
fn short_sequences_have_no_windows() {
    let records = vec![record("a", b"ACG"), record("b", b"")];
    assert!(count_kmers(&records, 4).unwrap().is_empty());
    assert!(count_kmers(&[], 3).unwrap().is_empty());
}

#[test]
fn counts_are_global_over_records() {
    let records = vec![record("a", b"ACG"), record("b", b"ACG")];
    let counts = count_kmers(&records, 3).unwrap();
    let expected: HashMap<u64, u32> = [(6, 2)].into_iter().collect();
    assert_eq!(counts, expected);
}

#[test]
fn order_of_records_does_not_matter() {
    let a = record("a", b"ACGTTGCAAC");
    let b = record("b", b"GGATCCATTT");
    let c = record("c", b"ACGTTGCAAC");
    let forward = count_kmers(&[record("a", &a.seq), record("b", &b.seq), record("c", &c.seq)], 4);
    let backward = count_kmers(&[c, b, a], 4);
    assert_eq!(forward, backward);
}

#[test]
fn histogram_of_counts() {
    let records = vec![record("s", b"ACGTACGT")];
    let counts = count_kmers(&records, 3).unwrap();
    assert_eq!(kmer_histogram(&counts), vec![(1, 2), (2, 2)]);
    let counts: HashMap<u64, u32> = [(1, 7), (2, 3), (3, 7), (4, 1), (5, 7)].into_iter().collect();
    assert_eq!(kmer_histogram(&counts), vec![(1, 1), (3, 1), (7, 3)]);
    assert!(kmer_histogram(&HashMap::new()).is_empty());
}

#[test]
fn record_accessors() {
    let r = record("chrM", b"ACGT");
    assert_eq!(r.id(), "chrM");
    assert_eq!(r.seq(), b"ACGT");
}

#[test]
fn shards_merge_to_the_whole() {
    let a = record("a", b"ACGTTGCAACGT");
    let b = record("b", b"GGATCCATACGA");
    let whole = count_kmers(&[record("a", &a.seq), record("b", &b.seq)], 3).unwrap();
    let mut left = count_kmers(&[a], 3).unwrap();
    let right = count_kmers(&[b], 3).unwrap();
    merge_counts(&mut left, &right);
    assert_eq!(left, whole);
}

#[test]
fn merged_counts_saturate() {
    let mut a: HashMap<u64, u32> = [(1, u32::MAX), (2, 3)].into_iter().collect();
    let b: HashMap<u64, u32> = [(1, 5), (3, 4), (2, 1)].into_iter().collect();
    merge_counts(&mut a, &b);
    let expected: HashMap<u64, u32> = [(1, u32::MAX), (2, 4), (3, 4)].into_iter().collect();
    assert_eq!(a, expected);
}
