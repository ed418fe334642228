//! The canonical packed index of a k-mer window, and its decoding.
use vstd::prelude::*;
use vstd::arithmetic::div_mod::lemma_div_denominator;
use crate::bases::{base2bit, base2bitcmp, base_code, comp_code};

verus! {

/// Longest window whose packed index fits in 64 bits (two bits per base).
pub const MAX_K: usize = 32;

/// `4^n`.
pub open spec fn pow4(n: nat) -> nat
    decreases n,
{
    if n == 0 {
        1
    } else {
        4 * pow4((n - 1) as nat)
    }
}

/// ASCII upper case of a byte.
pub open spec fn upper(b: u8) -> u8 {
    if 0x61 <= b && b <= 0x7a {
        (b - 0x20) as u8
    } else {
        b
    }
}

/// First index from `i` on, below half the length of `w`, where the byte and
/// its mirror `w[len - 1 - i]` differ ignoring case; half the length if none.
pub open spec fn mirror_stop_from(w: Seq<u8>, i: nat) -> nat
    decreases w.len() / 2 - i,
{
    if i < w.len() / 2 && upper(w[i as int]) == upper(w[w.len() - 1 - i]) {
        mirror_stop_from(w, i + 1)
    } else {
        i
    }
}

/// Where the inward walk over mirror pairs of `w` stops.
pub open spec fn mirror_stop(w: Seq<u8>) -> nat {
    mirror_stop_from(w, 0)
}

/// The window is read on its own strand when, at the stopping index, its
/// byte is not above the mirrored byte (raw bytes, case kept).
pub open spec fn is_forward_canonical(w: Seq<u8>) -> bool {
    let i = mirror_stop(w) as int;
    w[i] <= w[w.len() - 1 - i]
}

/// Forward codes folded left to right: the last base holds the low two bits.
pub open spec fn pack_forward(w: Seq<u8>) -> nat
    decreases w.len(),
{
    if w.len() == 0 {
        0
    } else {
        4 * pack_forward(w.drop_last()) + base_code(w.last())
    }
}

/// Complement codes folded right to left: the first base holds the low two bits.
pub open spec fn pack_revcomp(w: Seq<u8>) -> nat
    decreases w.len(),
{
    if w.len() == 0 {
        0
    } else {
        4 * pack_revcomp(w.drop_first()) + comp_code(w.first())
    }
}

/// The canonical index of a window.
pub open spec fn canonical_index(w: Seq<u8>) -> nat {
    if is_forward_canonical(w) {
        pack_forward(w)
    } else {
        pack_revcomp(w)
    }
}

/// Letter of a two-bit code.
pub open spec fn base_letter(d: nat) -> u8 {
    if d == 0 {
        0x41
    } else if d == 1 {
        0x43
    } else if d == 2 {
        0x47
    } else {
        0x54
    }
}

/// The `k` letters of a packed index, most significant base first.
pub open spec fn decode_kmer(x: nat, k: nat) -> Seq<u8> {
    Seq::new(k, |j: int| base_letter((x / pow4((k - 1 - j) as nat)) % 4))
}

pub proof fn lemma_pow4_mono(a: nat, b: nat)
    requires
        a <= b,
    ensures
        pow4(a) <= pow4(b),
    decreases b,
{
    if a < b {
        lemma_pow4_mono(a, (b - 1) as nat);
    }
}

proof fn lemma_pow4_31()
    ensures
        pow4(31) == 0x4000_0000_0000_0000,
{
    reveal_with_fuel(pow4, 32);
}

pub proof fn lemma_pack_forward_bound(w: Seq<u8>)
    ensures
        pack_forward(w) < pow4(w.len()),
    decreases w.len(),
{
    if w.len() > 0 {
        lemma_pack_forward_bound(w.drop_last());
    }
}

pub proof fn lemma_pack_revcomp_bound(w: Seq<u8>)
    ensures
        pack_revcomp(w) < pow4(w.len()),
    decreases w.len(),
{
    if w.len() > 0 {
        lemma_pack_revcomp_bound(w.drop_first());
    }
}

proof fn lemma_shift_in(acc: u64, c: u64)
    requires
        acc < 0x4000_0000_0000_0000,
        c < 4,
    ensures
        (acc << 2) | c == acc * 4 + c,
{
    assert((acc << 2) | c == acc * 4 + c) by (bit_vector)
        requires
            acc < 0x4000_0000_0000_0000,
            c < 4,
    ;
}

/// Watson-Crick partner of a base byte, case kept; other bytes stay as they are.
pub open spec fn complement_byte(b: u8) -> u8 {
    if b == 0x41 {
        0x54u8
    } else if b == 0x54 {
        0x41u8
    } else if b == 0x43 {
        0x47u8
    } else if b == 0x47 {
        0x43u8
    } else if b == 0x61 {
        0x74u8
    } else if b == 0x74 {
        0x61u8
    } else if b == 0x63 {
        0x67u8
    } else if b == 0x67 {
        0x63u8
    } else {
        b
    }
}

/// The window read on the other strand: reversed, each base complemented.
pub open spec fn reverse_complement(w: Seq<u8>) -> Seq<u8> {
    Seq::new(w.len(), |i: int| complement_byte(w[w.len() - 1 - i]))
}

/// The canonical index of a window of length `k` (`1 <= k <= 32`) lies
/// below `4^k`.
pub proof fn canonical_index_below_pow4(w: Seq<u8>)
    requires
        1 <= w.len() <= MAX_K,
    ensures
        canonical_index(w) < pow4(w.len()),
{
    lemma_pack_forward_bound(w);
    lemma_pack_revcomp_bound(w);
}

/// A window that is its own reverse complement (such as `ACGT`) gets one
/// index, whichever of its two strands is read.
pub proof fn self_complementary_index_stable(w: Seq<u8>)
    requires
        1 <= w.len() <= MAX_K,
        reverse_complement(w) == w,
    ensures
        canonical_index(w) == canonical_index(reverse_complement(w)),
{
}

/// Every byte of `w` is one of the upper-case letters A, C, G, T.
pub open spec fn is_upper_acgt(w: Seq<u8>) -> bool {
    forall|i: int|
        0 <= i < w.len() ==> #[trigger] w[i] == 0x41 || w[i] == 0x43 || w[i] == 0x47 || w[i] == 0x54
}

proof fn lemma_revcomp_involution(w: Seq<u8>)
    ensures
        reverse_complement(reverse_complement(w)) == w,
        reverse_complement(w).len() == w.len(),
{
    assert(reverse_complement(reverse_complement(w)) =~= w);
}

proof fn lemma_pack_revcomp_is_forward_of_revcomp(w: Seq<u8>)
    ensures
        pack_revcomp(w) == pack_forward(reverse_complement(w)),
    decreases w.len(),
{
    let rc = reverse_complement(w);
    if w.len() > 0 {
        assert(rc.drop_last() =~= reverse_complement(w.drop_first()));
        assert(rc.last() == complement_byte(w[0]));
        lemma_pack_revcomp_is_forward_of_revcomp(w.drop_first());
    }
}

proof fn lemma_mirror_stop_from(w: Seq<u8>, i: nat)
    requires
        i <= w.len() / 2,
    ensures
        i <= mirror_stop_from(w, i) <= w.len() / 2,
        mirror_stop_from(w, i) < w.len() / 2 ==> upper(w[mirror_stop_from(w, i) as int]) != upper(
            w[w.len() - 1 - mirror_stop_from(w, i)],
        ),
        forall|j: int|
            i <= j < mirror_stop_from(w, i) ==> upper(#[trigger] w[j]) == upper(w[w.len() - 1 - j]),
    decreases w.len() / 2 - i,
{
    if i < w.len() / 2 && upper(w[i as int]) == upper(w[w.len() - 1 - i]) {
        lemma_mirror_stop_from(w, i + 1);
    }
}

proof fn lemma_mirror_stop_revcomp(w: Seq<u8>, i: nat)
    requires
        is_upper_acgt(w),
        i <= w.len() / 2,
    ensures
        mirror_stop_from(reverse_complement(w), i) == mirror_stop_from(w, i),
    decreases w.len() / 2 - i,
{
    let rc = reverse_complement(w);
    let n = w.len();
    if i < n / 2 {
        assert(rc[i as int] == complement_byte(w[n - 1 - i]));
        assert(rc[n - 1 - i] == complement_byte(w[i as int]));
        assert(w[i as int] == 0x41 || w[i as int] == 0x43 || w[i as int] == 0x47 || w[i as int] == 0x54);
        assert(w[n - 1 - i] == 0x41 || w[n - 1 - i] == 0x43 || w[n - 1 - i] == 0x47 || w[n - 1 - i] == 0x54);
        lemma_mirror_stop_revcomp(w, i + 1);
    }
}

/// On upper-case A, C, G, T the strand choice is the same for a window and
/// for its reverse complement.
proof fn lemma_forward_canonical_revcomp(w: Seq<u8>)
    requires
        1 <= w.len(),
        is_upper_acgt(w),
    ensures
        is_forward_canonical(reverse_complement(w)) == is_forward_canonical(w),
{
    let rc = reverse_complement(w);
    let n = w.len();
    lemma_mirror_stop_revcomp(w, 0);
    lemma_mirror_stop_from(w, 0);
    lemma_mirror_stop_from(rc, 0);
    let s = mirror_stop(w) as int;
    assert(rc[s] == complement_byte(w[n - 1 - s]));
    assert(rc[n - 1 - s] == complement_byte(w[s]));
    assert(w[s] == 0x41 || w[s] == 0x43 || w[s] == 0x47 || w[s] == 0x54);
    assert(w[n - 1 - s] == 0x41 || w[n - 1 - s] == 0x43 || w[n - 1 - s] == 0x47 || w[n - 1 - s] == 0x54);
    if s == n / 2 && n % 2 == 0 {
        assert(upper(w[s - 1]) == upper(w[n - 1 - (s - 1)]));
        assert(w[s - 1] == 0x41 || w[s - 1] == 0x43 || w[s - 1] == 0x47 || w[s - 1] == 0x54);
    }
}

proof fn lemma_pack_forward_injective(u: Seq<u8>, v: Seq<u8>)
    requires
        is_upper_acgt(u),
        is_upper_acgt(v),
        u.len() == v.len(),
        pack_forward(u) == pack_forward(v),
    ensures
        u == v,
    decreases u.len(),
{
    if u.len() > 0 {
        let n = u.len() - 1;
        assert(u[n] == 0x41 || u[n] == 0x43 || u[n] == 0x47 || u[n] == 0x54);
        assert(v[n] == 0x41 || v[n] == 0x43 || v[n] == 0x47 || v[n] == 0x54);
        assert(u.drop_last().len() == v.drop_last().len());
        assert(is_upper_acgt(u.drop_last()));
        assert(is_upper_acgt(v.drop_last()));
        lemma_pack_forward_injective(u.drop_last(), v.drop_last());
        assert(u =~= u.drop_last().push(u.last()));
        assert(v =~= v.drop_last().push(v.last()));
    } else {
        assert(u =~= v);
    }
}

/// For windows of upper-case A, C, G, T, a window and its reverse
/// complement get the same canonical index exactly when the window is its
/// own reverse complement.
pub proof fn strand_indices_agree_iff_self_complementary(w: Seq<u8>)
    requires
        1 <= w.len() <= MAX_K,
        is_upper_acgt(w),
    ensures
        canonical_index(w) == canonical_index(reverse_complement(w)) <==> reverse_complement(w) == w,
{
    let rc = reverse_complement(w);
    lemma_revcomp_involution(w);
    lemma_forward_canonical_revcomp(w);
    lemma_pack_revcomp_is_forward_of_revcomp(w);
    lemma_pack_revcomp_is_forward_of_revcomp(rc);
    assert(is_upper_acgt(rc)) by {
        assert forall|i: int| 0 <= i < rc.len() implies #[trigger] rc[i] == 0x41 || rc[i] == 0x43
            || rc[i] == 0x47 || rc[i] == 0x54 by {
            assert(w[w.len() - 1 - i] == 0x41 || w[w.len() - 1 - i] == 0x43 || w[w.len() - 1 - i] == 0x47 || w[w.len() - 1 - i] == 0x54);
        }
    }
    if canonical_index(w) == canonical_index(rc) {
        lemma_pack_forward_injective(w, rc);
    }
}

/// Folds the forward codes of `w` left to right.
fn fold_forward(w: &[u8]) -> (r: u64)
    requires
        w@.len() <= MAX_K,
    ensures
        r as nat == pack_forward(w@),
{
    let mut acc: u64 = 0;
    let mut i: usize = 0;
    while i < w.len()
        invariant
            i <= w@.len() <= MAX_K,
            acc as nat == pack_forward(w@.subrange(0, i as int)),
        decreases w@.len() - i,
    {
        proof {
            lemma_pack_forward_bound(w@.subrange(0, i as int));
            lemma_pow4_mono(i as nat, 31);
            lemma_pow4_31();
            assert(w@.subrange(0, i + 1).drop_last() =~= w@.subrange(0, i as int));
        }
        let c = base2bit(w[i]);
        proof {
            lemma_shift_in(acc, c);
        }
        acc = (acc << 2) | c;
        i += 1;
    }
    proof {
        assert(w@.subrange(0, w@.len() as int) =~= w@);
    }
    acc
}

/// Folds the complement codes of `w` right to left.
fn fold_revcomp(w: &[u8]) -> (r: u64)
    requires
        w@.len() <= MAX_K,
    ensures
        r as nat == pack_revcomp(w@),
{
    let n = w.len();
    let mut acc: u64 = 0;
    let mut i: usize = n;
    while i > 0
        invariant
            i <= n == w@.len() <= MAX_K,
            acc as nat == pack_revcomp(w@.subrange(i as int, n as int)),
        decreases i,
    {
        proof {
            lemma_pack_revcomp_bound(w@.subrange(i as int, n as int));
            lemma_pow4_mono((n - i) as nat, 31);
            lemma_pow4_31();
            assert(w@.subrange(i - 1, n as int).drop_first() =~= w@.subrange(i as int, n as int));
        }
        let c = base2bitcmp(w[i - 1]);
        proof {
            lemma_shift_in(acc, c);
        }
        acc = (acc << 2) | c;
        i -= 1;
    }
    proof {
        assert(w@.subrange(0, n as int) =~= w@);
    }
    acc
}

/// ASCII upper case of a byte.
fn to_upper(b: u8) -> (r: u8)
    ensures
        r == upper(b),
{
    if 0x61 <= b && b <= 0x7a {
        b - 0x20
    } else {
        b
    }
}

/// Canonical index of a window: its forward packing when the window is read
/// on its own strand, else the packing of its reverse complement.
pub fn to_idx(w: &[u8]) -> (r: u64)
    requires
        1 <= w@.len() <= MAX_K,
    ensures
        r as nat == canonical_index(w@),
        (r as nat) < pow4(w@.len()),
{
    let n = w.len();
    let mut i: usize = 0;
    while i < n / 2 && to_upper(w[i]) == to_upper(w[n - i - 1])
        invariant
            n == w@.len(),
            1 <= n,
            i <= n / 2,
            mirror_stop_from(w@, i as nat) == mirror_stop(w@),
        decreases n / 2 - i,
    {
        i += 1;
    }
    proof {
        lemma_pack_forward_bound(w@);
        lemma_pack_revcomp_bound(w@);
    }
    if w[i] <= w[n - i - 1] {
        fold_forward(w)
    } else {
        fold_revcomp(w)
    }
}

/// Spells out a packed index as `k` upper-case letters, most significant
/// base first.
pub fn back_to_seq(kmer: u64, k: usize) -> (r: Vec<u8>)
    requires
        k <= MAX_K,
    ensures
        r@ == decode_kmer(kmer as nat, k as nat),
{
    let mut out: Vec<u8> = vec![0x41u8; k];
    let mut rest: u64 = kmer;
    let mut offset: usize = 0;
    assert(pow4(0) == 1);
    while offset < k
        invariant
            k <= MAX_K,
            out@.len() == k,
            offset <= k,
            rest as nat == kmer as nat / pow4(offset as nat),
            forall|j: int|
                k - offset <= j < k ==> out@[j] == #[trigger] decode_kmer(kmer as nat, k as nat)[j],
        decreases k - offset,
    {
        let d = rest & 3;
        assert(rest & 3 == rest % 4) by (bit_vector);
        let letter: u8 = if d == 0 {
            0x41
        } else if d == 1 {
            0x43
        } else if d == 2 {
            0x47
        } else {
            0x54
        };
        out[k - 1 - offset] = letter;
        proof {
            assert(rest >> 2 == rest / 4) by (bit_vector);
            lemma_pow4_mono(0, offset as nat);
            lemma_div_denominator(kmer as int, pow4(offset as nat) as int, 4);
        }
        rest = rest >> 2;
        offset += 1;
    }
    out
}

} // verus!
