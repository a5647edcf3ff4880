use vstd::prelude::*;
use vstd::std_specs::bits::{axiom_u64_leading_zeros, u64_leading_zeros};
use crate::bitmap::{low_mask, make_low_mask};

verus! {

/// Number of high-order bits that `p` and `s` have in common.
pub open spec fn shared_prefix(p: u64, s: u64) -> int {
    u64_leading_zeros(p ^ s)
}

/// Number of low-order bits that tell apart the keys of the bracket `[p, s]`.
pub open spec fn suffix_width(p: u64, s: u64) -> int {
    64 - shared_prefix(p, s)
}

/// The infix of `key` in the bracket `[p, s]`: of the key's bits below the prefix shared by
/// `p` and `s`, the `width` highest, with zeros below where fewer bits are left.
pub open spec fn infix_of(key: u64, p: u64, s: u64, width: u64) -> u64 {
    let w = suffix_width(p, s);
    let suffix = if w >= 64 {
        key
    } else {
        key & low_mask(w as u64)
    };
    if w >= width {
        suffix >> ((w - width) as u64)
    } else {
        suffix << ((width - w) as u64)
    }
}

/// Number of high-order bits that `p` and `s` have in common.
pub fn shared_prefix_len(p: u64, s: u64) -> (n: u32)
    ensures
        n == shared_prefix(p, s),
        n <= 64,
{
    proof {
        axiom_u64_leading_zeros(p ^ s);
    }
    (p ^ s).leading_zeros()
}

/// The infix of `key` in the bracket `[predecessor, successor]`, of
/// `quotient_size + remainder_size` bits.
pub fn extract_partial_key(
    key: u64,
    predecessor: u64,
    successor: u64,
    quotient_size: u8,
    remainder_size: u8,
) -> (infix: u64)
    requires
        1 <= quotient_size + remainder_size <= 63,
    ensures
        infix == infix_of(key, predecessor, successor, (quotient_size + remainder_size) as u64),
        infix < 1u64 << ((quotient_size + remainder_size) as u64),
{
    let shared = shared_prefix_len(predecessor, successor);
    let w = 64 - shared as u64;
    let width = (quotient_size + remainder_size) as u64;
    let suffix = if w >= 64 {
        key
    } else {
        key & make_low_mask(w)
    };
    let infix = if w >= width {
        suffix >> (w - width)
    } else {
        suffix << (width - w)
    };
    proof {
        lemma_infix_bound(key, predecessor, successor, width);
    }
    infix
}

/// An infix of `width` bits is below `2^width`.
pub proof fn lemma_infix_bound(key: u64, p: u64, s: u64, width: u64)
    requires
        width <= 63,
    ensures
        infix_of(key, p, s, width) < 1u64 << width,
{
    axiom_u64_leading_zeros(p ^ s);
    let w = suffix_width(p, s);
    if w >= 64 {
        let d = (64 - width) as u64;
        assert(key >> d < 1u64 << width) by (bit_vector)
            requires
                width <= 63,
                d == 64 - width,
        ;
    } else if w >= width {
        let wu = w as u64;
        let d = (w - width) as u64;
        assert((key & (((1u64 << wu) - 1u64) as u64)) >> d < 1u64 << width) by (bit_vector)
            requires
                width <= 63,
                wu < 64,
                d == wu - width,
                width <= wu,
        ;
    } else {
        let wu = w as u64;
        let d = (width - w) as u64;
        assert((key & (((1u64 << wu) - 1u64) as u64)) << d < 1u64 << width) by (bit_vector)
            requires
                width <= 63,
                wu < width,
                d == width - wu,
        ;
    }
}

/// Within a bracket, extraction keeps the order of keys: for `p <= k1 <= k2 <= s` the infix
/// of `k1` is at most the infix of `k2`. A range of keys thus maps to a range of infixes.
pub proof fn lemma_infix_monotone(p: u64, s: u64, k1: u64, k2: u64, width: u64)
    requires
        p <= k1 <= k2 <= s,
        width <= 63,
    ensures
        infix_of(k1, p, s, width) <= infix_of(k2, p, s, width),
{
    axiom_u64_leading_zeros(p ^ s);
    let w = suffix_width(p, s);
    if w >= 64 {
        if w >= width {
            let d = (w - width) as u64;
            assert(k1 >> d <= k2 >> d) by (bit_vector)
                requires
                    k1 <= k2,
            ;
        }
    } else {
        let wu = w as u64;
        let lz = (64 - w) as u64;
        assert(k1 & (((1u64 << wu) - 1u64) as u64) <= k2 & (((1u64 << wu) - 1u64) as u64))
            by (bit_vector)
            requires
                wu < 64,
                (p ^ s) >> wu == 0,
                p <= k1,
                k1 <= k2,
                k2 <= s,
        ;
        let a = k1 & low_mask(wu);
        let b = k2 & low_mask(wu);
        assert(a == a & (((1u64 << wu) - 1u64) as u64) && b == b & (((1u64 << wu) - 1u64) as u64))
            by (bit_vector)
            requires
                a == k1 & (((1u64 << wu) - 1u64) as u64),
                b == k2 & (((1u64 << wu) - 1u64) as u64),
        ;
        if w >= width {
            let d = (w - width) as u64;
            assert(a >> d <= b >> d) by (bit_vector)
                requires
                    a <= b,
            ;
        } else {
            let d = (width - w) as u64;
            assert(a << d <= b << d) by (bit_vector)
                requires
                    a <= b,
                    wu < width,
                    width <= 63,
                    d == width - wu,
                    a == a & (((1u64 << wu) - 1u64) as u64),
                    b == b & (((1u64 << wu) - 1u64) as u64),
            ;
        }
    }
}

} // verus!
