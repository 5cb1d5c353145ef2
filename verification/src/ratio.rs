//! Comparing a double-precision number with the proportions of known pages.

use vstd::arithmetic::power2::{lemma_pow2_adds, lemma_pow2_pos, lemma_pow2_strictly_increases, pow2};
use vstd::prelude::*;

verus! {

/// The double that the literal 1.294 stands for, counted in units of 2 to the power of -57.
pub const LETTER_LANDSCAPE_RATIO: u64 = 0x296_872b_020c_49c0;

/// The double that the literal 0.773 stands for, in the same units.
pub const LETTER_RATIO: u64 = 0x18b_c6a7_ef9d_b230;

/// The double that the literal 1.414 stands for, in the same units.
pub const A4_LANDSCAPE_RATIO: u64 = 0x2d3_f7ce_d916_8720;

/// The double that the literal 0.707 stands for, in the same units.
pub const A4_RATIO: u64 = 0x169_fbe7_6c8b_4390;

/// The double that the literal 0.05 stands for, in the same units.
pub const TOLERANCE: u64 = 0x19_9999_9999_999a;

/// The value of the double with the given bits, counted in the smallest positive double, which
/// is 2 to the power of -1074; none for infinities and for what is not a number.
pub open spec fn double_units(bits: u64) -> Option<int> {
    let negative = bits >= 0x8000_0000_0000_0000;
    let exponent = bits / 0x10_0000_0000_0000 % 0x800;
    let fraction = bits % 0x10_0000_0000_0000;
    if exponent == 0x7ff {
        None
    } else {
        let size = if exponent == 0 {
            fraction as int
        } else {
            (fraction + 0x10_0000_0000_0000) * pow2((exponent - 1) as nat)
        };
        Some(
            if negative {
                -size
            } else {
                size
            },
        )
    }
}

/// The double with the given bits differs from `ratio` by no more than the tolerance.
///
/// In double precision the comparison comes out the same: the difference of two numbers of
/// which neither is more than twice the other is exact, and any other is far too large.
pub open spec fn is_close(bits: u64, ratio: u64) -> bool {
    let unit = pow2(1017) as int;
    match double_units(bits) {
        Some(value) => -(TOLERANCE * unit) <= value - ratio * unit <= TOLERANCE * unit,
        None => false,
    }
}

/// `ratio` and its neighbourhood lie between one half and two.
pub open spec fn is_page_ratio(ratio: u64) -> bool {
    0x100_0000_0000_0000 + TOLERANCE <= ratio < 0x400_0000_0000_0000 - TOLERANCE
}

proof fn lemma_units()
    ensures
        pow2(1017) >= 1,
        pow2(1021) == 16 * pow2(1017),
        pow2(1022) == 32 * pow2(1017),
        0x10_0000_0000_0000 * pow2(1023) == 0x400_0000_0000_0000 * pow2(1017),
        0x20_0000_0000_0000 * pow2(1020) == 0x100_0000_0000_0000 * pow2(1017),
{
    vstd::arithmetic::power2::lemma2_to64();
    lemma_pow2_pos(1017);
    lemma_pow2_adds(4, 1017);
    lemma_pow2_adds(5, 1017);
    lemma_pow2_adds(6, 1017);
    lemma_pow2_adds(3, 1017);
}

/// Only doubles with one of two exponents can be close to a page's ratio, and for these the
/// comparison needs 64 bits.
pub proof fn lemma_is_close(bits: u64, ratio: u64)
    requires
        is_page_ratio(ratio),
    ensures
        ({
            let exponent = bits / 0x10_0000_0000_0000;
            let digits = bits % 0x10_0000_0000_0000 + 0x10_0000_0000_0000;
            is_close(bits, ratio) == if exponent == 1022 {
                -TOLERANCE <= 16 * digits - ratio <= TOLERANCE
            } else if exponent == 1023 {
                -TOLERANCE <= 32 * digits - ratio <= TOLERANCE
            } else {
                false
            }
        }),
{
    let unit = pow2(1017) as int;
    let top = bits / 0x10_0000_0000_0000;
    let exponent = top % 0x800;
    let fraction = bits % 0x10_0000_0000_0000;
    let digits = fraction + 0x10_0000_0000_0000;
    lemma_units();
    assert((ratio + TOLERANCE) * unit == ratio * unit + TOLERANCE * unit) by (nonlinear_arith);
    assert((ratio - TOLERANCE) * unit == ratio * unit - TOLERANCE * unit) by (nonlinear_arith);
    assert((ratio - TOLERANCE) * unit >= 0x100_0000_0000_0000 * unit) by (nonlinear_arith)
        requires
            ratio - TOLERANCE >= 0x100_0000_0000_0000,
            unit >= 1,
    ;
    assert((ratio + TOLERANCE) * unit < 0x400_0000_0000_0000 * unit) by (nonlinear_arith)
        requires
            ratio + TOLERANCE < 0x400_0000_0000_0000,
            unit >= 1,
    ;
    if exponent == 0x7ff || exponent == 0 {
    } else {
        let power = pow2((exponent - 1) as nat) as int;
        let size = digits * power;
        lemma_pow2_pos((exponent - 1) as nat);
        assert(size >= 0) by (nonlinear_arith)
            requires
                size == digits * power,
                digits >= 0,
                power >= 0,
        ;
        if top >= 0x800 {
        } else if exponent >= 1024 {
            if exponent > 1024 {
                lemma_pow2_strictly_increases(1023, (exponent - 1) as nat);
            }
            let least = pow2(1023) as int;
            assert(digits * power >= 0x10_0000_0000_0000 * least) by (nonlinear_arith)
                requires
                    digits >= 0x10_0000_0000_0000,
                    power >= least,
                    least >= 0,
            ;
        } else if exponent <= 1021 {
            if exponent < 1021 {
                lemma_pow2_strictly_increases((exponent - 1) as nat, 1020);
            }
            let most = pow2(1020) as int;
            assert(digits * power < 0x20_0000_0000_0000 * most) by (nonlinear_arith)
                requires
                    0 <= digits < 0x20_0000_0000_0000,
                    1 <= power <= most,
            ;
        } else {
            let times: int = if exponent == 1022 {
                16
            } else {
                32
            };
            let scaled = times * digits;
            assert(size == scaled * unit) by (nonlinear_arith)
                requires
                    size == digits * power,
                    power == times * unit,
                    scaled == times * digits,
            ;
            assert(scaled <= ratio + TOLERANCE <==> scaled * unit <= (ratio + TOLERANCE) * unit)
                by (nonlinear_arith)
                requires
                    unit >= 1,
            ;
            assert(scaled >= ratio - TOLERANCE <==> scaled * unit >= (ratio - TOLERANCE) * unit)
                by (nonlinear_arith)
                requires
                    unit >= 1,
            ;
        }
    }
}

/// Whether the double with the given bits is close to the ratio of a page.
pub fn close_to(bits: u64, ratio: u64) -> (r: bool)
    requires
        is_page_ratio(ratio),
    ensures
        r == is_close(bits, ratio),
{
    proof {
        lemma_is_close(bits, ratio);
    }
    let exponent: u64 = bits / 0x10_0000_0000_0000;
    let digits: u64 = bits % 0x10_0000_0000_0000 + 0x10_0000_0000_0000;
    let scaled: u64 = if exponent == 1022 {
        16 * digits
    } else if exponent == 1023 {
        32 * digits
    } else {
        return false;
    };
    if scaled >= ratio {
        scaled - ratio <= TOLERANCE
    } else {
        ratio - scaled <= TOLERANCE
    }
}

} // verus!
