//! Repetitive regions: runs of consecutive windows whose k-mer is frequent.
use std::collections::HashMap;
use vstd::prelude::*;
use crate::canonical::{canonical_index, to_idx, MAX_K};
use crate::counting::{
    count_kmers, kmer_counts, num_windows, record_seqs, valid_k, window, KmerError, SeqRecord,
};

verus! {

/// A run of consecutive repetitive windows of one sequence. `start` is the
/// first window's offset, `end` the exclusive end of the bases the run
/// covers (last window's offset plus `k`), and `count` the truncated mean of
/// the windows' counts.
#[derive(Debug, Clone, Copy, PartialEq, Eq, Structural)]
pub struct RepeatRegion {
    pub start: usize,
    pub end: usize,
    pub count: u32,
}

/// The entries of `m` whose count is at least `t`.
pub open spec fn at_least(m: Map<u64, u32>, t: u32) -> Map<u64, u32> {
    Map::new(|x: u64| m.contains_key(x) && m[x] >= t, |x: u64| m[x])
}

/// Keeps the k-mers whose count is at least `threshold`; a count equal to
/// the threshold is kept.
pub fn repetitive_kmers(counts: &HashMap<u64, u32>, threshold: u32) -> (r: HashMap<u64, u32>)
    ensures
        r@ == at_least(counts@, threshold),
        forall|x: u64|
            #[trigger] r@.contains_key(x) <==> counts@.contains_key(x) && counts@[x] >= threshold,
{
    let mut kept: HashMap<u64, u32> = HashMap::new();
    for (key, count) in it: counts.iter()
        invariant
            forall|i: int|
                0 <= i < it.seq().len() ==> #[trigger] counts@.contains_key(*it.seq()[i].0)
                    && counts@[*it.seq()[i].0] == *it.seq()[i].1,
            forall|x: u64| #[trigger]
                kept@.contains_key(x) ==> counts@.contains_key(x) && counts@[x] >= threshold
                    && kept@[x] == counts@[x],
            forall|x: u64|
                #![trigger counts@.contains_key(x)]
                counts@.contains_key(x) && counts@[x] >= threshold ==> kept@.contains_key(x) || (
                exists|i: int| it.index() <= i < it.seq().len() && *it.seq()[i].0 == x),
    {
        if *count >= threshold {
            kept.insert(*key, *count);
        }
    }
    proof {
        assert(kept@ =~= at_least(counts@, threshold));
    }
    kept
}

/// Sum of the counts of the hits at positions `first .. end`.
pub open spec fn run_total(hits: Seq<Option<u32>>, first: int, end: int) -> nat
    decreases end - first,
{
    if end <= first {
        0
    } else {
        run_total(hits, first, end - 1) + match hits[end - 1] {
            Some(c) => c as nat,
            None => 0nat,
        }
    }
}

/// Positions `first ..= last` are all hits, and the run can grow on neither side.
pub open spec fn is_maximal_run(hits: Seq<Option<u32>>, first: int, last: int) -> bool {
    &&& 0 <= first <= last < hits.len()
    &&& forall|i: int| first <= i <= last ==> #[trigger] hits[i] is Some
    &&& first == 0 || hits[first - 1] is None
    &&& last + 1 == hits.len() || hits[last + 1] is None
}

/// The region that the run of hits `first ..= last` stands for.
pub open spec fn region_of_run(hits: Seq<Option<u32>>, first: int, last: int, k: nat) -> RepeatRegion {
    RepeatRegion {
        start: first as usize,
        end: (last + k) as usize,
        count: (run_total(hits, first, last + 1) / ((last - first + 1) as nat)) as u32,
    }
}

/// Last window position of a region.
pub open spec fn last_window(r: RepeatRegion, k: nat) -> int {
    r.end - k
}

/// Window position `i` lies in region `r`.
pub open spec fn covers(r: RepeatRegion, k: nat, i: int) -> bool {
    r.start <= i <= last_window(r, k)
}

/// `r` is the region of a maximal run of hits.
#[verifier::opaque]
pub open spec fn is_run_region(hits: Seq<Option<u32>>, k: nat, r: RepeatRegion) -> bool {
    &&& is_maximal_run(hits, r.start as int, last_window(r, k))
    &&& r == region_of_run(hits, r.start as int, last_window(r, k), k)
}

/// `rs` lists, in order, one region for each maximal run of hits.
pub open spec fn are_repeat_regions(hits: Seq<Option<u32>>, k: nat, rs: Seq<RepeatRegion>) -> bool {
    &&& forall|j: int| 0 <= j < rs.len() ==> #[trigger] is_run_region(hits, k, rs[j])
    &&& forall|j: int|
        0 <= j < rs.len() - 1 ==> last_window(#[trigger] rs[j], k) < rs[j + 1].start
    &&& forall|i: int|
        0 <= i < hits.len() && #[trigger] hits[i] is Some ==> exists|j: int|
            0 <= j < rs.len() && #[trigger] covers(rs[j], k, i)
}

proof fn lemma_run_total_bound(hits: Seq<Option<u32>>, first: int, end: int)
    requires
        first <= end,
    ensures
        run_total(hits, first, end) <= (end - first) * 0xffff_ffff,
    decreases end - first,
{
    if end > first {
        lemma_run_total_bound(hits, first, end - 1);
    }
}

proof fn lemma_run_total_step(hits: Seq<Option<u32>>, first: int, end: int)
    requires
        first <= end < hits.len(),
        hits[end] is Some,
    ensures
        run_total(hits, first, end + 1) == run_total(hits, first, end) + hits[end]->Some_0,
        run_total(hits, end, end) == 0,
{
}

/// Builds the region for the run of hits `first .. end` whose counts sum to `total`.
fn close_run(
    hits: &[Option<u32>],
    first: usize,
    end: usize,
    total: u128,
    k: usize,
) -> (r: RepeatRegion)
    requires
        first < end <= hits@.len(),
        hits@.len() + k <= usize::MAX + 1,
        total == run_total(hits@, first as int, end as int),
    ensures
        r == region_of_run(hits@, first as int, end - 1, k as nat),
{
    let n: u128 = (end - first) as u128;
    proof {
        lemma_run_total_bound(hits@, first as int, end as int);
        assert(total / n <= 0xffff_ffff) by (nonlinear_arith)
            requires
                total <= n * 0xffff_ffff,
                n > 0,
        ;
    }
    RepeatRegion { start: first, end: end - 1 + k, count: (total / n) as u32 }
}

/// Appending the region of the run `first .. end` keeps the earlier regions
/// and covers the run.
proof fn lemma_push_region(
    hits: Seq<Option<u32>>,
    k: nat,
    rs: Seq<RepeatRegion>,
    region: RepeatRegion,
    first: int,
    end: int,
)
    requires
        0 <= first < end <= hits.len(),
        region == region_of_run(hits, first, end - 1, k),
        end - 1 + k <= usize::MAX,
        forall|p: int| first <= p < end ==> #[trigger] hits[p] is Some,
        first == 0 || hits[first - 1] is None,
        end == hits.len() || hits[end] is None,
    ensures
        is_run_region(hits, k, region),
        last_window(region, k) == end - 1,
        region.start == first,
        forall|j: int| 0 <= j < rs.len() ==> rs.push(region)[j] == rs[j],
        forall|p: int|
            #![trigger hits[p]]
            first <= p < end ==> covers(rs.push(region)[rs.len() as int], k, p),
{
    reveal(is_run_region);
}

/// Merges the hits of consecutive windows into regions, one per maximal
/// run. `hits[i]` holds the count of window `i` when it is repetitive.
pub fn merge_hit_runs(hits: &[Option<u32>], k: usize) -> (r: Vec<RepeatRegion>)
    requires
        hits@.len() + k <= usize::MAX + 1,
    ensures
        are_repeat_regions(hits@, k as nat, r@),
{
    let n = hits.len();
    let mut out: Vec<RepeatRegion> = Vec::new();
    let mut open = false;
    let mut first: usize = 0;
    let mut total: u128 = 0;
    let mut i: usize = 0;
    while i < n
        invariant
            n == hits@.len(),
            n + k <= usize::MAX + 1,
            i <= n,
            open ==> first < i && (first == 0 || hits@[first - 1] is None)
                && total == run_total(hits@, first as int, i as int)
                && forall|p: int| first <= p < i ==> #[trigger] hits@[p] is Some,
            !open ==> i == 0 || hits@[i - 1] is None,
            forall|j: int| 0 <= j < out@.len() ==> #[trigger] is_run_region(hits@, k as nat, out@[j]),
            forall|j: int|
                0 <= j < out@.len() - 1 ==> last_window(#[trigger] out@[j], k as nat) < out@[j + 1].start,
            out@.len() > 0 ==> last_window(out@.last(), k as nat) + 1 < i,
            out@.len() > 0 && open ==> last_window(out@.last(), k as nat) + 1 < first,
            forall|p: int|
                0 <= p < i && #[trigger] hits@[p] is Some && !(open && first <= p) ==> exists|j: int|
                    0 <= j < out@.len() && #[trigger] covers(out@[j], k as nat, p),
        decreases n - i,
    {
        let ghost old_out = out@;
        match hits[i] {
            Some(c) => {
                if open {
                    proof {
                        lemma_run_total_bound(hits@, first as int, i as int);
                    }
                    total = total + c as u128;
                } else {
                    open = true;
                    first = i;
                    total = c as u128;
                }
                proof {
                    lemma_run_total_step(hits@, first as int, i as int);
                }
            }
            None => {
                if open {
                    let region = close_run(hits, first, i, total, k);
                    out.push(region);
                    open = false;
                    proof {
                        lemma_push_region(hits@, k as nat, old_out, region, first as int, i as int);
                        assert forall|p: int|
                            0 <= p < i + 1 && #[trigger] hits@[p] is Some implies exists|j: int|
                                0 <= j < out@.len() && #[trigger] covers(out@[j], k as nat, p) by {
                            if p < first {
                                let j = choose|j: int|
                                    0 <= j < old_out.len() && #[trigger] covers(old_out[j], k as nat, p);
                                assert(out@[j] == old_out[j]);
                            } else {
                                assert(covers(out@[old_out.len() as int], k as nat, p));
                            }
                        }
                    }
                }
            }
        }
        i += 1;
    }
    if open {
        let ghost old_out = out@;
        let region = close_run(hits, first, n, total, k);
        out.push(region);
        proof {
            lemma_push_region(hits@, k as nat, old_out, region, first as int, n as int);
            assert forall|p: int|
                0 <= p < n && #[trigger] hits@[p] is Some implies exists|j: int|
                    0 <= j < out@.len() && #[trigger] covers(out@[j], k as nat, p) by {
                if p < first {
                    let j = choose|j: int|
                        0 <= j < old_out.len() && #[trigger] covers(old_out[j], k as nat, p);
                    assert(out@[j] == old_out[j]);
                } else {
                    assert(covers(out@[old_out.len() as int], k as nat, p));
                }
            }
        }
    }
    out
}

/// Hit of window `i` of `s`: its count in `kept`, if its index is there.
pub open spec fn window_hit(s: Seq<u8>, kept: Map<u64, u32>, k: nat, i: int) -> Option<u32> {
    let x = canonical_index(window(s, k, i)) as u64;
    if kept.contains_key(x) {
        Some(kept[x])
    } else {
        None
    }
}

/// Hits of all windows of `s`, in order.
pub open spec fn window_hits_of(s: Seq<u8>, kept: Map<u64, u32>, k: nat) -> Seq<Option<u32>> {
    Seq::new(num_windows(s, k), |i: int| window_hit(s, kept, k, i))
}

/// Slides a window of length `k` over `seq` and merges the windows whose
/// canonical index is in `kept` into regions. Fails unless `1 <= k <= 32`.
pub fn find_repeat_regions(seq: &[u8], kept: &HashMap<u64, u32>, k: usize) -> (r: Result<
    Vec<RepeatRegion>,
    KmerError,
>)
    ensures
        match r {
            Ok(v) => {
                &&& valid_k(k as nat)
                &&& are_repeat_regions(window_hits_of(seq@, kept@, k as nat), k as nat, v@)
                &&& forall|j: int|
                    0 <= j < v@.len() ==> (#[trigger] v@[j]).start + k <= v@[j].end <= seq@.len()
            },
            Err(e) => !valid_k(k as nat) && e == (KmerError::InvalidConfiguration { k }),
        },
{
    if k == 0 || k > MAX_K {
        return Err(KmerError::InvalidConfiguration { k });
    }
    let ghost want = window_hits_of(seq@, kept@, k as nat);
    let n = seq.len();
    let nw: usize = if n >= k {
        n - k + 1
    } else {
        0
    };
    let mut hits: Vec<Option<u32>> = Vec::new();
    let mut i: usize = 0;
    while i < nw
        invariant
            valid_k(k as nat),
            n == seq@.len(),
            nw == num_windows(seq@, k as nat),
            want == window_hits_of(seq@, kept@, k as nat),
            i <= nw,
            hits@ == want.take(i as int),
        decreases nw - i,
    {
        let idx = to_idx(&seq[i..i + k]);
        assert(seq@.subrange(i as int, i + k) == window(seq@, k as nat, i as int));
        let hit = match kept.get(&idx) {
            Some(c) => Some(*c),
            None => None,
        };
        hits.push(hit);
        proof {
            assert(hits@ =~= want.take(i + 1));
        }
        i += 1;
    }
    proof {
        assert(hits@ =~= want);
    }
    let regions = merge_hit_runs(hits.as_slice(), k);
    proof {
        reveal(is_run_region);
        assert forall|j: int| 0 <= j < regions@.len() implies (#[trigger] regions@[j]).start + k
            <= regions@[j].end <= seq@.len() by {
            assert(is_run_region(want, k as nat, regions@[j]));
        }
    }
    Ok(regions)
}

/// The repeat detector over a set of records: counts the k-mers of all
/// records, keeps those counted at least `threshold` times, and lists the
/// repetitive regions of each record, in record order. Fails unless
/// `1 <= k <= 32`.
pub fn annotate_repetitive_kmers(records: &[SeqRecord], k: usize, threshold: u32) -> (r: Result<
    Vec<Vec<RepeatRegion>>,
    KmerError,
>)
    ensures
        match r {
            Ok(v) => {
                &&& valid_k(k as nat)
                &&& v@.len() == records@.len()
                &&& forall|i: int|
                    0 <= i < records@.len() ==> are_repeat_regions(
                        window_hits_of(
                            records@[i].seq@,
                            at_least(kmer_counts(record_seqs(records@), k as nat), threshold),
                            k as nat,
                        ),
                        k as nat,
                        #[trigger] v@[i]@,
                    )
                &&& forall|i: int, j: int|
                    0 <= i < records@.len() && 0 <= j < v@[i]@.len() ==> (#[trigger] v@[i]@[j]).start
                        + k <= v@[i]@[j].end <= records@[i].seq@.len()
            },
            Err(e) => !valid_k(k as nat) && e == (KmerError::InvalidConfiguration { k }),
        },
{
    let counts = match count_kmers(records, k) {
        Ok(m) => m,
        Err(e) => return Err(e),
    };
    let kept = repetitive_kmers(&counts, threshold);
    let ghost kept_view = at_least(kmer_counts(record_seqs(records@), k as nat), threshold);
    let mut out: Vec<Vec<RepeatRegion>> = Vec::new();
    let mut g: usize = 0;
    while g < records.len()
        invariant
            valid_k(k as nat),
            kept@ == kept_view,
            g <= records@.len(),
            out@.len() == g,
            forall|i: int|
                0 <= i < g ==> are_repeat_regions(
                    window_hits_of(records@[i].seq@, kept_view, k as nat),
                    k as nat,
                    #[trigger] out@[i]@,
                ),
            forall|i: int, j: int|
                0 <= i < g && 0 <= j < out@[i]@.len() ==> (#[trigger] out@[i]@[j]).start + k
                    <= out@[i]@[j].end <= records@[i].seq@.len(),
        decreases records@.len() - g,
    {
        let regions = match find_repeat_regions(records[g].seq.as_slice(), &kept, k) {
            Ok(v) => v,
            Err(e) => return Err(e),
        };
        out.push(regions);
        g += 1;
    }
    Ok(out)
}

} // verus!
