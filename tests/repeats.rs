use mito_check::{
    annotate_repetitive_kmers, count_kmers, find_repeat_regions, merge_hit_runs,
    repetitive_kmers, KmerError, RepeatRegion, SeqRecord,
};
use std::collections::HashMap;

fn region(start: usize, end: usize, count: u32) -> RepeatRegion {
    RepeatRegion { start, end, count }
}

#[test]
fn threshold_is_inclusive() {
    let counts: HashMap<u64, u32> = [(1, 5), (2, 4), (3, 6)].into_iter().collect();
    let kept = repetitive_kmers(&counts, 5);
    let expected: HashMap<u64, u32> = [(1, 5), (3, 6)].into_iter().collect();
    assert_eq!(kept, expected);
    assert!(repetitive_kmers(&counts, 7).is_empty());
    assert_eq!(repetitive_kmers(&counts, 0), counts);
}

#[test]
fn merges_consecutive_hits() {
    let hits = [Some(2), Some(2), None, Some(3), Some(4), Some(5)];
    let regions = merge_hit_runs(&hits, 2);
    assert_eq!(regions, vec![region(0, 3, 2), region(3, 7, 4)]);
    assert_eq!(regions[1].end, 5 + 2);
}

#[test]
fn mean_count_is_truncated() {
    assert_eq!(merge_hit_runs(&[Some(2), Some(3)], 1), vec![region(0, 2, 2)]);
    assert_eq!(
        merge_hit_runs(&[Some(u32::MAX), Some(u32::MAX), Some(u32::MAX - 3)], 4),
        vec![region(0, 6, u32::MAX - 1)]
    );
}

#[test]
fn no_hits_no_regions() {
    assert!(merge_hit_runs(&[], 3).is_empty());
    assert!(merge_hit_runs(&[None, None], 3).is_empty());
    assert_eq!(merge_hit_runs(&[None, Some(9), None], 3), vec![region(1, 4, 9)]);
}

#[test]
fn regions_of_one_sequence() {
    let kept: HashMap<u64, u32> = [(6, 2), (27, 2)].into_iter().collect();
    let regions = find_repeat_regions(b"ACGTACGT", &kept, 3).unwrap();
    assert_eq!(regions, vec![region(0, 4, 2), region(4, 8, 2)]);
    assert_eq!(
        find_repeat_regions(b"ACGTACGT", &kept, 0),
        Err(KmerError::InvalidConfiguration { k: 0 })
    );
    assert!(find_repeat_regions(b"AC", &kept, 3).unwrap().is_empty());
}

#[test]
fn annotates_each_record() {
    let records = vec![
        SeqRecord::new("a".to_string(), b"ACGTACGT".to_vec()),
        SeqRecord::new("b".to_string(), b"TTTT".to_vec()),
    ];
    let counts = count_kmers(&records, 3).unwrap();
    assert_eq!(counts[&63], 2);
    let regions = annotate_repetitive_kmers(&records, 3, 2).unwrap();
    assert_eq!(regions, vec![vec![region(0, 4, 2), region(4, 8, 2)], vec![region(0, 4, 2)]]);
    let regions = annotate_repetitive_kmers(&records, 3, 3).unwrap();
    assert_eq!(regions, vec![vec![], vec![]]);
    assert_eq!(
        annotate_repetitive_kmers(&records, 40, 2),
        Err(KmerError::InvalidConfiguration { k: 40 })
    );
}
