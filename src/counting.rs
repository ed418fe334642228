//! Counting canonical k-mers over a set of sequences.
use std::collections::HashMap;
use vstd::prelude::*;
use crate::canonical::{canonical_index, to_idx, MAX_K};

verus! {

/// A named sequence of bases, as a FASTA record holds it.
pub struct SeqRecord {
    pub id: String,
    pub seq: Vec<u8>,
}

impl SeqRecord {
    pub fn new(id: String, seq: Vec<u8>) -> (r: SeqRecord)
        ensures
            r.id@ == id@,
            r.seq@ == seq@,
    {
        SeqRecord { id, seq }
    }

    pub fn id(&self) -> (r: &str)
        ensures
            r@ == self.id@,
    {
        self.id.as_str()
    }

    pub fn seq(&self) -> (r: &[u8])
        ensures
            r@ == self.seq@,
    {
        self.seq.as_slice()
    }
}

/// Why a k-mer computation was refused.
#[derive(Debug, Clone, Copy, PartialEq, Eq, Structural)]
pub enum KmerError {
    /// `k` is zero, or too large for a packed index.
    InvalidConfiguration { k: usize },
}

/// Window lengths whose packed index fits in 64 bits.
pub open spec fn valid_k(k: nat) -> bool {
    1 <= k <= MAX_K
}

/// Number of windows of length `k` in `s`, sliding by one.
pub open spec fn num_windows(s: Seq<u8>, k: nat) -> nat {
    if s.len() >= k {
        (s.len() - k + 1) as nat
    } else {
        0
    }
}

/// The window of length `k` that starts at `i`.
pub open spec fn window(s: Seq<u8>, k: nat, i: int) -> Seq<u8> {
    s.subrange(i, i + k)
}

/// How many of the first `n` windows of `s` have canonical index `x`.
pub open spec fn window_hits(s: Seq<u8>, k: nat, x: nat, n: nat) -> nat
    decreases n,
{
    if n == 0 {
        0
    } else {
        window_hits(s, k, x, (n - 1) as nat) + if canonical_index(window(s, k, n - 1)) == x {
            1nat
        } else {
            0nat
        }
    }
}

/// How many windows of `s` have canonical index `x`.
pub open spec fn occurrences_in(s: Seq<u8>, k: nat, x: nat) -> nat {
    window_hits(s, k, x, num_windows(s, k))
}

/// How many windows, over all of `seqs`, have canonical index `x`.
pub open spec fn occurrences(seqs: Seq<Seq<u8>>, k: nat, x: nat) -> nat
    decreases seqs.len(),
{
    if seqs.len() == 0 {
        0
    } else {
        occurrences(seqs.drop_last(), k, x) + occurrences_in(seqs.last(), k, x)
    }
}

/// A count held in 32 bits, stopping at the largest value.
pub open spec fn saturate(n: nat) -> u32 {
    if n > u32::MAX {
        u32::MAX
    } else {
        n as u32
    }
}

/// The table that holds each index of positive tally `f(x)`, with that tally.
pub open spec fn tally_map(f: spec_fn(u64) -> nat) -> Map<u64, u32> {
    Map::new(|x: u64| f(x) > 0, |x: u64| saturate(f(x)))
}

/// The k-mer count table of `seqs`: each canonical index that occurs, with
/// its number of occurrences over all sequences.
pub open spec fn kmer_counts(seqs: Seq<Seq<u8>>, k: nat) -> Map<u64, u32> {
    tally_map(|x: u64| occurrences(seqs, k, x as nat))
}

/// The sequences of some records.
pub open spec fn record_seqs(rs: Seq<SeqRecord>) -> Seq<Seq<u8>> {
    Seq::new(rs.len(), |i: int| rs[i].seq@)
}

proof fn lemma_occurrences_remove(seqs: Seq<Seq<u8>>, j: int, k: nat, x: nat)
    requires
        0 <= j < seqs.len(),
    ensures
        occurrences(seqs, k, x) == occurrences_in(seqs[j], k, x) + occurrences(seqs.remove(j), k, x),
    decreases seqs.len(),
{
    if j == seqs.len() - 1 {
        assert(seqs.remove(j) =~= seqs.drop_last());
    } else {
        lemma_occurrences_remove(seqs.drop_last(), j, k, x);
        assert(seqs.remove(j).drop_last() =~= seqs.drop_last().remove(j));
        assert(seqs.remove(j).last() == seqs.last());
    }
}

proof fn lemma_occurrences_permutation(a: Seq<Seq<u8>>, b: Seq<Seq<u8>>, k: nat, x: nat)
    requires
        a.to_multiset() == b.to_multiset(),
    ensures
        occurrences(a, k, x) == occurrences(b, k, x),
    decreases a.len(),
{
    broadcast use vstd::seq_lib::group_to_multiset_ensures;

    if a.len() == 0 {
        a.to_multiset_ensures();
        b.to_multiset_ensures();
    } else {
        let e = a.last();
        assert(a.contains(e)) by {
            assert(a[a.len() - 1] == e);
        }
        assert(a.to_multiset().count(e) > 0);
        assert(b.to_multiset().count(e) > 0);
        assert(b.contains(e));
        let j = choose|j: int| 0 <= j < b.len() && b[j] == e;
        assert(a.drop_last() =~= a.remove(a.len() - 1));
        assert(a.drop_last().to_multiset() =~= b.remove(j).to_multiset());
        lemma_occurrences_permutation(a.drop_last(), b.remove(j), k, x);
        lemma_occurrences_remove(b, j, k, x);
    }
}

/// Counting does not depend on the order of the sequences: two lists that
/// hold the same sequences, each as many times, give the same count table.
pub proof fn kmer_counts_order_independent(a: Seq<Seq<u8>>, b: Seq<Seq<u8>>, k: nat)
    requires
        a.to_multiset() == b.to_multiset(),
    ensures
        kmer_counts(a, k) == kmer_counts(b, k),
{
    assert forall|x: u64| occurrences(a, k, x as nat) == occurrences(b, k, x as nat) by {
        lemma_occurrences_permutation(a, b, k, x as nat);
    }
    assert(kmer_counts(a, k) =~= kmer_counts(b, k));
}

/// The count of `x` in `m`, zero where `m` does not hold it.
pub open spec fn count_or_zero(m: Map<u64, u32>, x: u64) -> nat {
    if m.contains_key(x) {
        m[x] as nat
    } else {
        0
    }
}

/// Two count tables added key by key, each sum held at the largest `u32`.
pub open spec fn merged_counts(a: Map<u64, u32>, b: Map<u64, u32>) -> Map<u64, u32> {
    Map::new(
        |x: u64| a.contains_key(x) || b.contains_key(x),
        |x: u64| saturate(count_or_zero(a, x) + count_or_zero(b, x)),
    )
}

proof fn lemma_occurrences_append(a: Seq<Seq<u8>>, b: Seq<Seq<u8>>, k: nat, x: nat)
    ensures
        occurrences(a + b, k, x) == occurrences(a, k, x) + occurrences(b, k, x),
    decreases b.len(),
{
    if b.len() == 0 {
        assert(a + b =~= a);
    } else {
        assert((a + b).drop_last() =~= a + b.drop_last());
        assert((a + b).last() == b.last());
        lemma_occurrences_append(a, b.drop_last(), k, x);
    }
}

/// Counting splits over a partition of the sequences: the table of `a`
/// followed by `b` is the two tables added key by key, so shards of the
/// input can be counted apart and then merged.
pub proof fn kmer_counts_of_concatenation(a: Seq<Seq<u8>>, b: Seq<Seq<u8>>, k: nat)
    ensures
        kmer_counts(a + b, k) == merged_counts(kmer_counts(a, k), kmer_counts(b, k)),
{
    assert forall|x: u64|
        occurrences(a + b, k, x as nat) == occurrences(a, k, x as nat) + occurrences(b, k, x as nat) by {
        lemma_occurrences_append(a, b, k, x as nat);
    }
    let ca = kmer_counts(a, k);
    let cb = kmer_counts(b, k);
    let m = merged_counts(ca, cb);
    assert forall|x: u64| #[trigger] m.contains_key(x) implies m[x] == kmer_counts(a + b, k)[x] by {
        assert(count_or_zero(ca, x) == saturate(occurrences(a, k, x as nat)));
        assert(count_or_zero(cb, x) == saturate(occurrences(b, k, x as nat)));
    }
    assert(kmer_counts(a + b, k) =~= m);
}

/// Adds the counts of `other` into `counts`, key by key; a sum past the
/// largest `u32` is held there.
pub fn merge_counts(counts: &mut HashMap<u64, u32>, other: &HashMap<u64, u32>)
    ensures
        final(counts)@ == merged_counts(old(counts)@, other@),
{
    let ghost start = counts@;
    let ghost mut seen: Set<u64> = Set::empty();
    for (key, count) in it: other.iter()
        invariant
            it.seq().no_duplicates(),
            forall|i: int|
                0 <= i < it.seq().len() ==> #[trigger] other@.contains_key(*it.seq()[i].0)
                    && other@[*it.seq()[i].0] == *it.seq()[i].1,
            forall|y: u64|
                #[trigger] seen.contains(y) <==> exists|i: int|
                    0 <= i < it.index() && *it.seq()[i].0 == y,
            counts@ == merged_counts(start, other@.restrict(seen)),
            forall|y: u64|
                #![trigger other@.contains_key(y)]
                other@.contains_key(y) ==> seen.contains(y) || (exists|i: int|
                    it.index() <= i < it.seq().len() && *it.seq()[i].0 == y),
    {
        let ghost before = counts@;
        proof {
            let idx = it.index();
            assert(*it.seq()[idx].0 == *key && *it.seq()[idx].1 == *count);
            assert(!seen.contains(*key)) by {
                if seen.contains(*key) {
                    let i = choose|i: int| 0 <= i < idx && *it.seq()[i].0 == *key;
                    assert(other@.contains_key(*it.seq()[i].0));
                    assert(*it.seq()[i].1 == *it.seq()[idx].1);
                    assert(it.seq()[i] == it.seq()[idx]);
                }
            }
        }
        let sum = match counts.get(key) {
            Some(c) => c.saturating_add(*count),
            None => *count,
        };
        counts.insert(*key, sum);
        proof {
            let k0 = *key;
            let ns = seen.insert(k0);
            let goal = merged_counts(start, other@.restrict(ns));
            assert forall|x: u64| #[trigger] goal.contains_key(x) implies counts@.contains_key(x)
                && counts@[x] == goal[x] by {
                if x == k0 {
                    assert(count_or_zero(other@.restrict(ns), x) == *count as nat);
                    assert(count_or_zero(other@.restrict(seen), x) == 0);
                } else {
                    assert(count_or_zero(other@.restrict(ns), x) == count_or_zero(
                        other@.restrict(seen),
                        x,
                    ));
                }
            }
            assert(counts@ =~= merged_counts(start, other@.restrict(ns)));
            seen = ns;
        }
    }
    proof {
        assert(other@.restrict(seen) =~= other@);
    }
}

/// Adds the windows of `s` to a table that counts those of `done`.
fn add_windows(
    counts: &mut HashMap<u64, u32>,
    s: &[u8],
    k: usize,
    Ghost(done): Ghost<Seq<Seq<u8>>>,
)
    requires
        valid_k(k as nat),
        old(counts)@ == kmer_counts(done, k as nat),
    ensures
        final(counts)@ == kmer_counts(done.push(s@), k as nat),
{
    let ghost kk = k as nat;
    let n = s.len();
    let nw: usize = if n >= k {
        n - k + 1
    } else {
        0
    };
    let mut j: usize = 0;
    while j < nw
        invariant
            valid_k(kk),
            kk == k,
            n == s@.len(),
            nw == num_windows(s@, kk),
            j <= nw,
            counts@ == tally_map(
                |x: u64| occurrences(done, kk, x as nat) + window_hits(s@, kk, x as nat, j as nat),
            ),
        decreases nw - j,
    {
        let idx = to_idx(&s[j..j + k]);
        assert(s@.subrange(j as int, j + k) == window(s@, kk, j as int));
        let next = match counts.get(&idx) {
            Some(c) => c.saturating_add(1),
            None => 1,
        };
        counts.insert(idx, next);
        j += 1;
        proof {
            let f = |x: u64| occurrences(done, kk, x as nat) + window_hits(s@, kk, x as nat, j as nat);
            assert forall|x: u64| #[trigger] counts@.contains_key(x) == (f(x) > 0) && (f(x) > 0 ==> counts@[x] == saturate(f(x))) by {
                assert(window_hits(s@, kk, x as nat, j as nat) == window_hits(s@, kk, x as nat, (j - 1) as nat) + if canonical_index(window(s@, kk, j - 1)) == x as nat { 1nat } else { 0nat });
            }
            assert(counts@ =~= tally_map(f));
        }
    }
    proof {
        let p = done.push(s@);
        assert(p.drop_last() =~= done);
        assert forall|x: u64| #[trigger] occurrences(p, kk, x as nat) == occurrences(done, kk, x as nat) + window_hits(s@, kk, x as nat, j as nat) by {
        }
        assert(counts@ =~= kmer_counts(p, kk));
    }
}

/// Counts the canonical k-mers of all records together: each index that
/// occurs maps to its number of windows over all sequences (held at the
/// largest `u32` if it would exceed it). Fails unless `1 <= k <= 32`.
pub fn count_kmers(records: &[SeqRecord], k: usize) -> (r: Result<HashMap<u64, u32>, KmerError>)
    ensures
        match r {
            Ok(m) => valid_k(k as nat) && m@ == kmer_counts(record_seqs(records@), k as nat),
            Err(e) => !valid_k(k as nat) && e == (KmerError::InvalidConfiguration { k }),
        },
{
    if k == 0 || k > MAX_K {
        return Err(KmerError::InvalidConfiguration { k });
    }
    let mut counts: HashMap<u64, u32> = HashMap::new();
    let ghost seqs = record_seqs(records@);
    let mut g: usize = 0;
    proof {
        assert(counts@ =~= kmer_counts(seqs.subrange(0, 0), k as nat));
    }
    while g < records.len()
        invariant
            valid_k(k as nat),
            seqs == record_seqs(records@),
            g <= records@.len(),
            counts@ == kmer_counts(seqs.subrange(0, g as int), k as nat),
        decreases records@.len() - g,
    {
        add_windows(&mut counts, records[g].seq.as_slice(), k, Ghost(seqs.subrange(0, g as int)));
        proof {
            assert(seqs.subrange(0, g as int).push(records@[g as int].seq@) =~= seqs.subrange(0, g + 1));
        }
        g += 1;
    }
    proof {
        assert(seqs.subrange(0, records@.len() as int) =~= seqs);
    }
    Ok(counts)
}

/// The keys among `keys` that `m` counts exactly `c` times.
pub open spec fn with_count(m: Map<u64, u32>, keys: Set<u64>, c: u32) -> Set<u64> {
    keys.filter(|y: u64| m[y] == c)
}

/// `h` lists each count that `m` gives a key of `keys`, in increasing
/// order, with the number of such keys that have it.
pub open spec fn is_histogram_over(m: Map<u64, u32>, keys: Set<u64>, h: Seq<(u32, usize)>) -> bool {
    &&& forall|i: int, j: int| 0 <= i < j < h.len() ==> (#[trigger] h[i]).0 < (#[trigger] h[j]).0
    &&& forall|i: int|
        0 <= i < h.len() ==> (#[trigger] h[i]).1 > 0 && h[i].1 as nat == with_count(
            m,
            keys,
            h[i].0,
        ).len()
    &&& forall|y: u64| keys.contains(y) ==> exists|i: int| 0 <= i < h.len() && (#[trigger] h[i]).0 == m[y]
}

/// `h` is the histogram of the count table `m`: each count that occurs,
/// in increasing order, with the number of k-mers counted that many times.
pub open spec fn is_count_histogram(m: Map<u64, u32>, h: Seq<(u32, usize)>) -> bool {
    is_histogram_over(m, m.dom(), h)
}

proof fn lemma_with_count_len(m: Map<u64, u32>, keys: Set<u64>, c: u32)
    requires
        keys.finite(),
    ensures
        with_count(m, keys, c).finite(),
        with_count(m, keys, c).len() <= keys.len(),
{
    let f = |y: u64| m[y] == c;
    keys.lemma_len_filter(f);
    assert(with_count(m, keys, c) =~= keys.filter(f));
}

/// Adds one more key `x`, counted `c` times, to a histogram over `keys`.
fn add_to_histogram(
    h: &mut Vec<(u32, usize)>,
    c: u32,
    Ghost(m): Ghost<Map<u64, u32>>,
    Ghost(keys): Ghost<Set<u64>>,
    Ghost(x): Ghost<u64>,
)
    requires
        is_histogram_over(m, keys, old(h)@),
        keys.finite(),
        keys.len() < usize::MAX,
        !keys.contains(x),
        m[x] == c,
    ensures
        is_histogram_over(m, keys.insert(x), final(h)@),
{
    let ghost nk = keys.insert(x);
    let ghost h0 = h@;
    proof {
        assert forall|c2: u32|
            #[trigger] with_count(m, nk, c2) == if c2 == c {
                with_count(m, keys, c2).insert(x)
            } else {
                with_count(m, keys, c2)
            } by {
            if c2 == c {
                assert(with_count(m, nk, c2) =~= with_count(m, keys, c2).insert(x));
            } else {
                assert(with_count(m, nk, c2) =~= with_count(m, keys, c2));
            }
        }
    }
    let mut p: usize = 0;
    while p < h.len() && h[p].0 < c
        invariant
            h@ == h0,
            p <= h@.len(),
            forall|q: int| 0 <= q < p ==> (#[trigger] h@[q]).0 < c,
        decreases h@.len() - p,
    {
        p += 1;
    }
    if p < h.len() && h[p].0 == c {
        let n = h[p].1;
        proof {
            lemma_with_count_len(m, keys, c);
        }
        h[p] = (c, n + 1);
        proof {
            assert(h@ == h0.update(p as int, (c, (n + 1) as usize)));
            assert forall|y: u64| nk.contains(y) implies exists|i: int|
                0 <= i < h@.len() && (#[trigger] h@[i]).0 == m[y] by {
                if y == x {
                    assert(h@[p as int].0 == m[y]);
                } else {
                    let i = choose|i: int| 0 <= i < h0.len() && (#[trigger] h0[i]).0 == m[y];
                    assert(h@[i].0 == m[y]);
                }
            }
        }
    } else {
        proof {
            assert(with_count(m, keys, c) =~= Set::empty()) by {
                assert forall|y: u64| !(#[trigger] with_count(m, keys, c).contains(y)) by {
                    if keys.contains(y) && m[y] == c {
                        let i = choose|i: int| 0 <= i < h0.len() && (#[trigger] h0[i]).0 == m[y];
                        if i < p {
                        } else {
                            assert(h0[p as int].0 <= h0[i].0);
                        }
                    }
                }
            }
            h0.insert_ensures(p as int, (c, 1usize));
        }
        h.insert(p, (c, 1));
        proof {
            assert forall|y: u64| nk.contains(y) implies exists|i: int|
                0 <= i < h@.len() && (#[trigger] h@[i]).0 == m[y] by {
                if y == x {
                    assert(h@[p as int].0 == m[y]);
                } else {
                    let i = choose|i: int| 0 <= i < h0.len() && (#[trigger] h0[i]).0 == m[y];
                    if i < p {
                        assert(h@[i].0 == m[y]);
                    } else {
                        assert(h@[i + 1].0 == m[y]);
                    }
                }
            }
        }
    }
}

/// The histogram of a count table: each count that occurs, in increasing
/// order, with the number of k-mers that have it.
pub fn kmer_histogram(counts: &HashMap<u64, u32>) -> (h: Vec<(u32, usize)>)
    ensures
        is_count_histogram(counts@, h@),
{
    let total = counts.len();
    let mut h: Vec<(u32, usize)> = Vec::new();
    let ghost mut seen: Set<u64> = Set::empty();
    for (key, count) in it: counts.iter()
        invariant
            total == counts@.len(),
            it.seq().len() == counts@.len(),
            it.seq().no_duplicates(),
            forall|i: int|
                0 <= i < it.seq().len() ==> #[trigger] counts@.contains_key(*it.seq()[i].0)
                    && counts@[*it.seq()[i].0] == *it.seq()[i].1,
            seen.finite(),
            seen.len() == it.index(),
            forall|y: u64|
                #[trigger] seen.contains(y) <==> exists|i: int|
                    0 <= i < it.index() && *it.seq()[i].0 == y,
            is_histogram_over(counts@, seen, h@),
            forall|y: u64|
                #![trigger counts@.contains_key(y)]
                counts@.contains_key(y) ==> seen.contains(y) || (exists|i: int|
                    it.index() <= i < it.seq().len() && *it.seq()[i].0 == y),
    {
        proof {
            let idx = it.index();
            assert(!seen.contains(*key)) by {
                if seen.contains(*key) {
                    let i = choose|i: int| 0 <= i < idx && *it.seq()[i].0 == *key;
                    assert(it.seq()[i] == it.seq()[idx]);
                }
            }
        }
        add_to_histogram(&mut h, *count, Ghost(counts@), Ghost(seen), Ghost(*key));
        proof {
            seen = seen.insert(*key);
        }
    }
    proof {
        assert(seen =~= counts@.dom());
    }
    h
}

} // verus!
