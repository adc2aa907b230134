//! Overflow-safe arithmetic on 128-bit amounts.
//!
//! Unit prices are compared by cross-multiplication, which needs the
//! full 256-bit product of two `u128` values. The product is kept as a
//! (high, low) pair of `u128` halves.

use vstd::prelude::*;

verus! {

/// 2^64, the radix used to split a `u128` into two halves.
pub const HALF_RADIX: u128 = 0x1_0000_0000_0000_0000;

/// 2^128 as a spec-level integer.
pub open spec fn full_radix() -> int {
    (HALF_RADIX as int) * (HALF_RADIX as int)
}

/// The integer a (high, low) pair stands for: `hi * 2^128 + lo`.
pub open spec fn wide_value(hi: u128, lo: u128) -> int {
    hi * full_radix() + lo
}

/// Full 256-bit product of two `u128` values, as a (high, low) pair.
pub fn mul_wide(a: u128, b: u128) -> (r: (u128, u128))
    ensures
        wide_value(r.0, r.1) == a * b,
{
    let a1 = a / HALF_RADIX;
    let a0 = a % HALF_RADIX;
    let b1 = b / HALF_RADIX;
    let b0 = b % HALF_RADIX;
    proof {
        assert(a1 < HALF_RADIX && b1 < HALF_RADIX) by (nonlinear_arith)
            requires
                a1 == a / HALF_RADIX,
                b1 == b / HALF_RADIX,
                a <= u128::MAX,
                b <= u128::MAX,
                HALF_RADIX == 0x1_0000_0000_0000_0000,
        ;
        assert(a0 < HALF_RADIX && b0 < HALF_RADIX) by (nonlinear_arith)
            requires
                a0 == a % HALF_RADIX,
                b0 == b % HALF_RADIX,
                HALF_RADIX > 0,
        ;
        assert(a == a1 * HALF_RADIX + a0 && b == b1 * HALF_RADIX + b0)
            by (nonlinear_arith)
            requires
                a1 == a / HALF_RADIX,
                a0 == a % HALF_RADIX,
                b1 == b / HALF_RADIX,
                b0 == b % HALF_RADIX,
                HALF_RADIX > 0,
        ;
    }
    proof {
        assert(a1 * b1 <= (HALF_RADIX - 1) * (HALF_RADIX - 1) && a1 * b0 <= (
        HALF_RADIX - 1) * (HALF_RADIX - 1) && a0 * b1 <= (HALF_RADIX - 1) * (
        HALF_RADIX - 1) && a0 * b0 <= (HALF_RADIX - 1) * (HALF_RADIX - 1))
            by (nonlinear_arith)
            requires
                a1 < HALF_RADIX,
                a0 < HALF_RADIX,
                b1 < HALF_RADIX,
                b0 < HALF_RADIX,
                HALF_RADIX == 0x1_0000_0000_0000_0000,
        ;
    }
    let p00 = a0 * b0;
    let p01 = a0 * b1;
    let p10 = a1 * b0;
    let p11 = a1 * b1;
    proof {
        assert(p00 / HALF_RADIX < HALF_RADIX && p01 / HALF_RADIX < HALF_RADIX
            && p10 / HALF_RADIX < HALF_RADIX && p00 % HALF_RADIX < HALF_RADIX
            && p01 % HALF_RADIX < HALF_RADIX && p10 % HALF_RADIX < HALF_RADIX)
            by (nonlinear_arith)
            requires
                p00 <= (HALF_RADIX - 1) * (HALF_RADIX - 1),
                p01 <= (HALF_RADIX - 1) * (HALF_RADIX - 1),
                p10 <= (HALF_RADIX - 1) * (HALF_RADIX - 1),
                HALF_RADIX == 0x1_0000_0000_0000_0000,
        ;
    }
    let mid = p00 / HALF_RADIX + p01 % HALF_RADIX + p10 % HALF_RADIX;
    proof {
        assert(mid / HALF_RADIX <= 2 && mid % HALF_RADIX < HALF_RADIX)
            by (nonlinear_arith)
            requires
                mid < 3 * HALF_RADIX,
                HALF_RADIX == 0x1_0000_0000_0000_0000,
        ;
        assert((mid % HALF_RADIX) * HALF_RADIX <= (HALF_RADIX - 1) * HALF_RADIX)
            by (nonlinear_arith)
            requires
                mid % HALF_RADIX < HALF_RADIX,
                HALF_RADIX == 0x1_0000_0000_0000_0000,
        ;
    }
    let lo = p00 % HALF_RADIX + (mid % HALF_RADIX) * HALF_RADIX;
    let hi = p11 + p01 / HALF_RADIX + p10 / HALF_RADIX + mid / HALF_RADIX;
    proof {
        lemma_mul_wide_combine(
            a as int,
            b as int,
            a1 as int,
            a0 as int,
            b1 as int,
            b0 as int,
            p11 as int,
            p10 as int,
            p01 as int,
            p00 as int,
            mid as int,
            hi as int,
            lo as int,
        );
    }
    (hi, lo)
}

/// Recombining the partial products of the half-width split gives the
/// full product.
#[verifier::rlimit(60)]
proof fn lemma_mul_wide_combine(
    a: int,
    b: int,
    a1: int,
    a0: int,
    b1: int,
    b0: int,
    p11: int,
    p10: int,
    p01: int,
    p00: int,
    mid: int,
    hi: int,
    lo: int,
)
    requires
        a == a1 * (HALF_RADIX as int) + a0,
        b == b1 * (HALF_RADIX as int) + b0,
        p11 == a1 * b1,
        p10 == a1 * b0,
        p01 == a0 * b1,
        p00 == a0 * b0,
        mid == p00 / (HALF_RADIX as int) + p01 % (HALF_RADIX as int) + p10 % (
        HALF_RADIX as int),
        lo == p00 % (HALF_RADIX as int) + (mid % (HALF_RADIX as int)) * (
        HALF_RADIX as int),
        hi == p11 + p01 / (HALF_RADIX as int) + p10 / (HALF_RADIX as int) + mid
            / (HALF_RADIX as int),
    ensures
        hi * full_radix() + lo == a * b,
{
    let h = HALF_RADIX as int;
    assert(h * h == full_radix());
    assert(a * b == (a1 * h + a0) * (b1 * h + b0));
    assert((a1 * h + a0) * (b1 * h + b0) == (a1 * h) * (b1 * h) + a0 * (b1 * h)
        + (a1 * h) * b0 + a0 * b0) by {
        vstd::arithmetic::mul::lemma_mul_is_distributive_add_other_way(
            b1 * h + b0,
            a1 * h,
            a0,
        );
        vstd::arithmetic::mul::lemma_mul_is_distributive_add(a1 * h, b1 * h, b0);
        vstd::arithmetic::mul::lemma_mul_is_distributive_add(a0, b1 * h, b0);
    }
    assert((a1 * h) * (b1 * h) == (a1 * b1) * (h * h) && a0 * (b1 * h) == (a0
        * b1) * h && (a1 * h) * b0 == (a1 * b0) * h) by (nonlinear_arith);
    assert(a * b == p11 * (h * h) + (p01 + p10) * h + p00) by (nonlinear_arith)
        requires
            a * b == (a1 * b1) * (h * h) + (a0 * b1) * h + (a1 * b0) * h + a0
                * b0,
            p11 == a1 * b1,
            p10 == a1 * b0,
            p01 == a0 * b1,
            p00 == a0 * b0,
    ;
    assert(p00 == (p00 / h) * h + p00 % h && p01 == (p01 / h) * h + p01 % h
        && p10 == (p10 / h) * h + p10 % h && mid == (mid / h) * h + mid % h)
        by (nonlinear_arith)
        requires
            h > 0,
    ;
    assert(p11 * (h * h) + (p01 + p10) * h + p00 == hi * (h * h) + lo)
        by (nonlinear_arith)
        requires
            p00 == (p00 / h) * h + p00 % h,
            p01 == (p01 / h) * h + p01 % h,
            p10 == (p10 / h) * h + p10 % h,
            mid == (mid / h) * h + mid % h,
            mid == p00 / h + p01 % h + p10 % h,
            lo == p00 % h + (mid % h) * h,
            hi == p11 + p01 / h + p10 / h + mid / h,
    ;
}

/// A (high, low) pair compares like the integer it stands for.
proof fn lemma_wide_cmp(h1: u128, l1: u128, h2: u128, l2: u128)
    ensures
        (wide_value(h1, l1) < wide_value(h2, l2)) == (h1 < h2 || (h1 == h2
            && l1 < l2)),
{
    if h1 < h2 {
        assert(h1 * full_radix() + full_radix() <= h2 * full_radix())
            by (nonlinear_arith)
            requires
                h1 < h2,
        ;
    } else if h2 < h1 {
        assert(h2 * full_radix() + full_radix() <= h1 * full_radix())
            by (nonlinear_arith)
            requires
                h2 < h1,
        ;
    }
}

/// Decides `a * b < c * d` exactly, with no overflow.
pub fn mul_lt(a: u128, b: u128, c: u128, d: u128) -> (r: bool)
    ensures
        r == (a * b < c * d),
{
    let (h1, l1) = mul_wide(a, b);
    let (h2, l2) = mul_wide(c, d);
    proof {
        lemma_wide_cmp(h1, l1, h2, l2);
    }
    h1 < h2 || (h1 == h2 && l1 < l2)
}

/// Product of two amounts, clamped to the largest representable value.
pub fn saturating_mul(a: u128, b: u128) -> (r: u128)
    ensures
        r == if a * b > u128::MAX { u128::MAX as int } else { a * b },
{
    match a.checked_mul(b) {
        Some(p) => p,
        None => u128::MAX,
    }
}

} // verus!
