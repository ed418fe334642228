use mito_check::{back_to_seq, base2bit, base2bitcmp, to_idx};

fn reverse_complement(w: &[u8]) -> Vec<u8> {
    w.iter()
        .rev()
        .map(|&b| match b {
            b'A' => b'T',
            b'T' => b'A',
            b'C' => b'G',
            b'G' => b'C',
            b'a' => b't',
            b't' => b'a',
            b'c' => b'g',
            b'g' => b'c',
            other => other,
        })
        .collect()
}

#[test]
fn forward_codes() {
    assert_eq!(base2bit(b'A'), 0);
    assert_eq!(base2bit(b'a'), 0);
    assert_eq!(base2bit(b'C'), 1);
    assert_eq!(base2bit(b'c'), 1);
    assert_eq!(base2bit(b'G'), 2);
    assert_eq!(base2bit(b'g'), 2);
    assert_eq!(base2bit(b'T'), 3);
    assert_eq!(base2bit(b't'), 3);
    assert_eq!(base2bit(b'N'), 0);
    assert_eq!(base2bit(b'-'), 0);
}

#[test]
fn complement_codes() {
    assert_eq!(base2bitcmp(b'A'), 3);
    assert_eq!(base2bitcmp(b'a'), 3);
    assert_eq!(base2bitcmp(b'C'), 2);
    assert_eq!(base2bitcmp(b'c'), 2);
    assert_eq!(base2bitcmp(b'G'), 1);
    assert_eq!(base2bitcmp(b'g'), 1);
    assert_eq!(base2bitcmp(b'T'), 0);
    assert_eq!(base2bitcmp(b't'), 0);
    assert_eq!(base2bitcmp(b'N'), 0);
}

#[test]
fn indices_of_three_mers() {
    assert_eq!(to_idx(b"ACG"), 6);
    assert_eq!(to_idx(b"CGT"), 27);
    assert_eq!(to_idx(b"GTA"), 49);
    assert_eq!(to_idx(b"TAC"), 44);
}

#[test]
fn self_complementary_window_is_stable() {
    let w = b"ACGT";
    let rc = reverse_complement(w);
    assert_eq!(rc, w.to_vec());
    assert_eq!(to_idx(w), 27);
    assert_eq!(to_idx(&rc), 27);
    assert_eq!(to_idx(b"acgt"), 27);
    let w = b"GAATTC";
    assert_eq!(reverse_complement(w), w.to_vec());
    assert_eq!(to_idx(w), to_idx(&reverse_complement(w)));
}

#[test]
fn strand_pair_gets_two_indices() {
    // The orientation test compares a window with its mirror, not with its
    // reverse complement, so a window and its reverse complement can both be
    // read forward.
    assert_eq!(reverse_complement(b"AC"), b"GT".to_vec());
    assert_eq!(to_idx(b"AC"), 1);
    assert_eq!(to_idx(b"GT"), 11);
}

#[test]
fn final_comparison_keeps_case() {
    assert_eq!(to_idx(b"AG"), 2);
    assert_eq!(to_idx(b"aG"), 7);
    assert_eq!(to_idx(b"AA"), 0);
    assert_eq!(to_idx(b"Aa"), 15);
}

#[test]
fn odd_palindrome_reads_forward() {
    assert_eq!(to_idx(b"ACA"), 4);
    assert_eq!(to_idx(b"T"), 3);
}

#[test]
fn other_bytes_encode_as_a() {
    assert_eq!(to_idx(b"N"), 0);
    assert_eq!(to_idx(b"NA"), 12);
    assert_eq!(to_idx(b"ANA"), to_idx(b"AAA"));
}

#[test]
fn index_stays_below_four_to_the_k() {
    assert_eq!(to_idx(&[b'T'; 32]), u64::MAX);
    assert_eq!(to_idx(&[b'A'; 32]), 0);
    assert_eq!(to_idx(b"GGGG"), 170);
    assert!(to_idx(b"GGGG") < 256);
    for w in [&b"ACGTTGCA"[..], b"TTTTTTTT", b"GATTACAG", b"CCCCGGGA"] {
        assert!(to_idx(w) < 1u64 << 16);
    }
}

#[test]
fn decode_packed_index() {
    assert_eq!(back_to_seq(27, 4), b"ACGT".to_vec());
    assert_eq!(back_to_seq(6, 3), b"ACG".to_vec());
    assert_eq!(back_to_seq(49, 3), b"TAC".to_vec());
    assert_eq!(back_to_seq(u64::MAX, 32), vec![b'T'; 32]);
    assert_eq!(back_to_seq(0, 0), Vec::<u8>::new());
    assert_eq!(back_to_seq(to_idx(b"CGT"), 3), b"CGT".to_vec());
}
