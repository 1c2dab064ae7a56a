//! Products wider than the machine's largest integer, to compare fractions
//! exactly.

use vstd::prelude::*;

verus! {

/// Two to the power of 64.
pub const WORD: u128 = 0x1_0000_0000_0000_0000;

/// `a * b + c` as `hi * 2^128 + lo`.
pub fn mul_wide(a: u128, b: u64, c: u64) -> (wide: (u64, u128))
    ensures
        wide.0 * (WORD * WORD) + wide.1 == a * b + c,
{
    let a_hi: u128 = a / WORD;
    let a_lo: u128 = a % WORD;
    proof {
        assert(a_lo * b + c <= u128::MAX) by (nonlinear_arith)
            requires
                0 <= a_lo < 0x1_0000_0000_0000_0000,
                0 <= b < 0x1_0000_0000_0000_0000,
                0 <= c < 0x1_0000_0000_0000_0000,
        ;
    }
    let low: u128 = a_lo * (b as u128) + c as u128;
    let carry: u128 = low / WORD;
    proof {
        assert(a_hi * b + carry <= u128::MAX) by (nonlinear_arith)
            requires
                0 <= a_hi < 0x1_0000_0000_0000_0000,
                0 <= b < 0x1_0000_0000_0000_0000,
                0 <= carry < 0x1_0000_0000_0000_0000,
        ;
    }
    let high: u128 = a_hi * (b as u128) + carry;
    let hi: u128 = high / WORD;
    let lo: u128 = (high % WORD) * WORD + low % WORD;
    proof {
        let w = WORD as int;
        assert(a == a_hi * w + a_lo);
        assert(low == carry * w + low % WORD);
        assert(high == hi * w + high % WORD);
        assert(a * b + c == (a_hi * b + carry) * w + low % WORD) by (nonlinear_arith)
            requires
                a == a_hi * w + a_lo,
                a_lo * b + c == carry * w + low % WORD,
        ;
        assert(high * w == hi * (w * w) + (high % WORD) * w) by (nonlinear_arith)
            requires
                high == hi * w + high % WORD,
        ;
    }
    (hi as u64, lo)
}

/// The smaller-or-equal test on wide numbers.
pub fn wide_le(a: (u64, u128), b: (u64, u128)) -> (le: bool)
    ensures
        le == (a.0 * (WORD * WORD) + a.1 <= b.0 * (WORD * WORD) + b.1),
{
    proof {
        let w = WORD * WORD;
        assert(a.0 < b.0 ==> a.0 * w + w <= b.0 * w) by (nonlinear_arith)
            requires
                w > 0,
        ;
        assert(b.0 < a.0 ==> b.0 * w + w <= a.0 * w) by (nonlinear_arith)
            requires
                w > 0,
        ;
    }
    a.0 < b.0 || (a.0 == b.0 && a.1 <= b.1)
}

/// `a * b` as `hi * 2^128 + lo`, of a number that is wide already.
pub fn mul_wider(a: (u64, u128), b: u64) -> (wider: (u128, u128))
    ensures
        wider.0 * (WORD * WORD) + wider.1 == (a.0 * (WORD * WORD) + a.1) * b,
{
    let (carry, low) = mul_wide(a.1, b, 0);
    proof {
        assert(a.0 * b + carry <= u128::MAX) by (nonlinear_arith)
            requires
                0 <= a.0 < 0x1_0000_0000_0000_0000,
                0 <= b < 0x1_0000_0000_0000_0000,
                0 <= carry < 0x1_0000_0000_0000_0000,
        ;
    }
    let high: u128 = a.0 as u128 * b as u128 + carry as u128;
    proof {
        let w = WORD * WORD;
        assert((a.0 * w + a.1) * b == (a.0 * b + carry) * w + low) by (nonlinear_arith)
            requires
                carry * w + low == a.1 * b,
        ;
    }
    (high, low)
}

/// The smaller test on wider numbers.
pub fn wider_lt(a: (u128, u128), b: (u128, u128)) -> (lt: bool)
    ensures
        lt == (a.0 * (WORD * WORD) + a.1 < b.0 * (WORD * WORD) + b.1),
{
    proof {
        let w = WORD * WORD;
        assert(a.0 < b.0 ==> a.0 * w + w <= b.0 * w) by (nonlinear_arith)
            requires
                w > 0,
        ;
        assert(b.0 < a.0 ==> b.0 * w + w <= a.0 * w) by (nonlinear_arith)
            requires
                w > 0,
        ;
    }
    a.0 < b.0 || (a.0 == b.0 && a.1 < b.1)
}

} // verus!
