//! Two-bit codes of nucleotide bytes. Bytes are ASCII: 0x41, 0x43, 0x47 and
//! 0x54 are `A`, `C`, `G` and `T`; the lower-case letters are 0x20 higher.
use vstd::prelude::*;

verus! {

/// Two-bit code of a byte on the forward strand: A, C, G, T (either case)
/// give 0, 1, 2, 3; every other byte gives 0.
pub open spec fn base_code(b: u8) -> nat {
    if b == 0x43u8 || b == 0x63u8 {
        1
    } else if b == 0x47u8 || b == 0x67u8 {
        2
    } else if b == 0x54u8 || b == 0x74u8 {
        3
    } else {
        0
    }
}

/// Two-bit code of the complementary base: A, C, G, T (either case) give
/// 3, 2, 1, 0; every other byte gives 0.
pub open spec fn comp_code(b: u8) -> nat {
    if b == 0x41u8 || b == 0x61u8 {
        3
    } else if b == 0x43u8 || b == 0x63u8 {
        2
    } else if b == 0x47u8 || b == 0x67u8 {
        1
    } else {
        0
    }
}

/// Looks up the forward two-bit code of a byte.
pub fn base2bit(b: u8) -> (r: u64)
    ensures
        r as nat == base_code(b),
        r < 4,
{
    if b == 0x43 || b == 0x63 {
        1
    } else if b == 0x47 || b == 0x67 {
        2
    } else if b == 0x54 || b == 0x74 {
        3
    } else {
        0
    }
}

/// Looks up the two-bit code of the complement of a byte.
pub fn base2bitcmp(b: u8) -> (r: u64)
    ensures
        r as nat == comp_code(b),
        r < 4,
{
    if b == 0x41 || b == 0x61 {
        3
    } else if b == 0x43 || b == 0x63 {
        2
    } else if b == 0x47 || b == 0x67 {
        1
    } else {
        0
    }
}

} // verus!
