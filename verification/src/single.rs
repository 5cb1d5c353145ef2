//! The integers that single precision can hold.

use vstd::arithmetic::div_mod::lemma_mod_multiples_basic;
use vstd::prelude::*;

verus! {

/// The distance between neighbouring single-precision numbers at `n`, but no less than one:
/// 24 significant bits are kept.
pub open spec fn single_step(n: nat) -> nat
    decreases n,
{
    if n < 0x100_0000 {
        1
    } else {
        2 * single_step(n / 2)
    }
}

/// The multiple of `step` next to `n`; halfway between two, the even one.
pub open spec fn round_to_step(n: nat, step: nat) -> nat {
    let below = n / step;
    let rest = n % step;
    if 2 * rest < step || (2 * rest == step && below % 2 == 0) {
        below * step
    } else {
        (below + 1) * step
    }
}

/// The integer that is left of `n` in single precision.
pub open spec fn nearest_single(n: int) -> int {
    if n < 0 {
        -round_to_step((-n) as nat, single_step((-n) as nat))
    } else {
        round_to_step(n as nat, single_step(n as nat)) as int
    }
}

/// Half of `n`, without the fraction.
pub open spec fn half_toward_zero(n: int) -> int {
    if n < 0 {
        -((-n) / 2)
    } else {
        n / 2
    }
}

/// `n` is even, and single precision holds it exactly.
pub open spec fn is_even_single(n: int) -> bool {
    n % 2 == 0 && nearest_single(n) == n
}

/// The step never exceeds 256 for what an `i32` holds.
pub proof fn lemma_single_step(n: nat)
    requires
        n <= 0x8000_0000,
    ensures
        1 <= single_step(n) <= 256,
{
    reveal_with_fuel(single_step, 10);
}

/// Rounding moves a number by at most half a step.
pub proof fn lemma_round_to_step(n: nat, step: nat)
    requires
        step > 0,
    ensures
        -(step as int) <= 2 * (round_to_step(n, step) - n) <= step,
{
    let below = n / step;
    let rest = n % step;
    assert(n == below * step + rest && rest < step) by (nonlinear_arith)
        requires
            step > 0,
            below == n / step,
            rest == n % step,
    ;
    assert((below + 1) * step == below * step + step) by (nonlinear_arith);
}

/// What an `i32` holds moves by at most 128 when it is stored in single precision.
pub proof fn lemma_nearest_single(n: int)
    requires
        -0x8000_0000 <= n <= 0x8000_0000,
    ensures
        -128 <= nearest_single(n) - n <= 128,
        -0x100_0000 < n < 0x100_0000 ==> nearest_single(n) == n,
{
    let a = if n < 0 {
        (-n) as nat
    } else {
        n as nat
    };
    lemma_single_step(a);
    lemma_round_to_step(a, single_step(a));
}

/// Stores `n` in single precision and reads it back.
pub fn to_single(n: i32) -> (r: i64)
    ensures
        r == nearest_single(n as int),
{
    let a: i64 = if n < 0 {
        -(n as i64)
    } else {
        n as i64
    };
    let mut m: i64 = a;
    let mut step: i64 = 1;
    while m >= 0x100_0000
        invariant
            0 <= m <= a <= 0x8000_0000,
            1 <= step,
            m * step <= a,
            single_step(a as nat) == step * single_step(m as nat),
        decreases m,
    {
        let ghost (m0, step0) = (m as int, step as int);
        assert(step <= 128) by (nonlinear_arith)
            requires
                m * step <= 0x8000_0000,
                m >= 0x100_0000,
                step >= 1,
        ;
        m = m / 2;
        step = step * 2;
        proof {
            let k = single_step((m0 / 2) as nat) as int;
            assert(step0 * (2 * k) == (step0 * 2) * k) by (nonlinear_arith);
            assert((m0 / 2) * (step0 * 2) <= m0 * step0) by (nonlinear_arith)
                requires
                    m0 >= 0,
                    step0 >= 1,
            ;
        }
    }
    assert(single_step(m as nat) == 1);
    let below: i64 = a / step;
    let rest: i64 = a % step;
    proof {
        lemma_single_step(a as nat);
        lemma_round_to_step(a as nat, step as nat);
    }
    assert(0 <= below * step <= a) by (nonlinear_arith)
        requires
            below == a / step,
            a >= 0,
            step >= 1,
    ;
    assert((below + 1) * step == below * step + step) by (nonlinear_arith);
    let rounded: i64 = if 2 * rest < step || (2 * rest == step && below % 2 == 0) {
        below * step
    } else {
        (below + 1) * step
    };
    if n < 0 {
        -rounded
    } else {
        rounded
    }
}

/// `s` is the number of at most 24 significant bits that is nearest to `n`: a multiple of a power
/// of two, `step`, of which `n` holds between 2 to the power of 23 and 2 to the power of 24; halfway
/// between two multiples, the one that is an even multiple.
pub open spec fn is_rounded(s: int, n: int, step: int) -> bool {
    let size = if n < 0 {
        -n
    } else {
        n
    };
    &&& step == 1 || step == 2 || step == 4 || step == 8 || step == 16 || step == 32 || step == 64
        || step == 128 || step == 256
    &&& size < step * 0x100_0000
    &&& step > 1 ==> step * 0x80_0000 <= size
    &&& s % step == 0
    &&& -step <= 2 * (s - n) <= step
    &&& 2 * (s - n) == step || 2 * (s - n) == -step ==> s % (2 * step) == 0
}

proof fn lemma_step_of(n: nat)
    requires
        n <= 0x8000_0000,
    ensures
        ({
            let step = single_step(n);
            &&& step == 1 || step == 2 || step == 4 || step == 8 || step == 16 || step == 32 || step
                == 64 || step == 128 || step == 256
            &&& n < step * 0x100_0000
            &&& step > 1 ==> step * 0x80_0000 <= n
        }),
{
    reveal_with_fuel(single_step, 10);
}

/// Storing an `i32` in single precision rounds it to the nearest number of 24 significant bits.
pub proof fn law_stored_number_is_nearest(n: int)
    requires
        -0x8000_0000 <= n <= 0x8000_0000,
    ensures
        exists|step: int| #[trigger] is_rounded(nearest_single(n), n, step),
{
    let a = if n < 0 {
        (-n) as nat
    } else {
        n as nat
    };
    let step = single_step(a) as int;
    let below = a as int / step;
    let rest = a as int % step;
    let r = round_to_step(a, step as nat) as int;
    lemma_step_of(a);
    lemma_round_to_step(a, step as nat);
    assert(a == below * step + rest && 0 <= rest < step) by (nonlinear_arith)
        requires
            step > 0,
            below == a as int / step,
            rest == a as int % step,
    ;
    let q = if 2 * rest < step || (2 * rest == step && below % 2 == 0) {
        below
    } else {
        below + 1
    };
    assert(r == q * step);
    assert((q * step) % step == 0) by (nonlinear_arith)
        requires
            step > 0,
    ;
    assert((below + 1) * step == below * step + step) by (nonlinear_arith);
    if 2 * (r - a) == step || 2 * (r - a) == -step {
        assert(2 * rest == step);
        assert(q % 2 == 0);
        let half = q / 2;
        assert(q == 2 * half);
        assert(q * step == half * (2 * step)) by (nonlinear_arith)
            requires
                q == 2 * half,
        ;
        assert((half * (2 * step)) % (2 * step) == 0) by (nonlinear_arith)
            requires
                step > 0,
        ;
    }
    lemma_negative_multiple(r, step);
    lemma_negative_multiple(r, 2 * step);
    assert(is_rounded(nearest_single(n), n, step));
}

proof fn lemma_negative_multiple(r: int, step: int)
    requires
        step > 0,
    ensures
        r % step == 0 ==> (-r) % step == 0,
{
    if r % step == 0 {
        let q = r / step;
        assert(r == q * step) by (nonlinear_arith)
            requires
                step > 0,
                r % step == 0,
                q == r / step,
        ;
        assert(-r == (-q) * step) by (nonlinear_arith)
            requires
                r == q * step,
        ;
        lemma_mod_multiples_basic(-q, step);
    }
}

/// What single precision holds of an `i32` it holds exactly: storing it again changes nothing.
pub proof fn law_stored_number_is_stable(n: int)
    requires
        -0x8000_0000 <= n <= 0x8000_0000,
    ensures
        nearest_single(nearest_single(n)) == nearest_single(n),
{
    let a = if n < 0 {
        (-n) as nat
    } else {
        n as nat
    };
    let step = single_step(a);
    let r = round_to_step(a, step);
    lemma_single_step(a);
    lemma_round_to_step(a, step);
    lemma_stored_step(a);
    let again = single_step(r);
    assert(r % again == 0 && round_to_step(r, again) == r) by (nonlinear_arith)
        requires
            again > 0,
            r % again == 0,
            round_to_step(r, again) == if 2 * (r % again) < again || (2 * (r % again) == again && (r
                / again) % 2 == 0) {
                (r / again) * again
            } else {
                (r / again + 1) * again
            },
    ;
}

/// A number of 24 significant bits keeps them when it is scaled by a step.
proof fn lemma_step_scales(a: nat, q: nat)
    requires
        q >= 0x80_0000,
    ensures
        single_step(q * single_step(a)) == single_step(q) * single_step(a),
        single_step(a) >= 1,
    decreases a,
{
    if a >= 0x100_0000 {
        let t = single_step(a / 2);
        lemma_step_scales(a / 2, q);
        assert(q * (2 * t) == 2 * (q * t) && q * t >= 0x80_0000) by (nonlinear_arith)
            requires
                q >= 0x80_0000,
                t >= 1,
        ;
        let m = q * t;
        assert((2 * m) / 2 == m);
        assert(single_step(2 * m) == 2 * single_step(m));
        let k = single_step(q);
        assert(2 * (k * t) == k * (2 * t)) by (nonlinear_arith);
    } else {
        assert(q * 1 == q);
        assert(single_step(q) * 1 == single_step(q));
    }
}

/// A large number is at least 2 to the power of 23 steps, and less than twice as many.
proof fn lemma_step_size(a: nat)
    requires
        a >= 0x100_0000,
    ensures
        0x80_0000 * single_step(a) <= a < 0x100_0000 * single_step(a),
    decreases a,
{
    if a / 2 >= 0x100_0000 {
        lemma_step_size(a / 2);
    } else {
        assert(single_step(a / 2) == 1);
    }
}

/// Rounding leaves a multiple of the step that holds there.
proof fn lemma_stored_step(a: nat)
    ensures
        ({
            let r = round_to_step(a, single_step(a));
            single_step(r) > 0 && r % single_step(r) == 0
        }),
{
    let step = single_step(a);
    let r = round_to_step(a, step);
    if a < 0x100_0000 {
        lemma_round_to_step(a, 1);
        assert(r == a);
    } else {
        let below = a / step;
        lemma_step_size(a);
        lemma_step_scales(a, 0x80_0000);
        assert(0x80_0000 <= below < 0x100_0000) by (nonlinear_arith)
            requires
                0x80_0000 * step <= a < 0x100_0000 * step,
                below == a / step,
                step >= 1,
        ;
        let q: nat = if r == below * step {
            below
        } else {
            below + 1
        };
        lemma_step_scales(a, q);
        let k = single_step(q);
        assert(q % k == 0 && k >= 1) by {
            if q == 0x100_0000 {
                assert(single_step(0x80_0000) == 1);
                assert(k == 2);
            } else {
                assert(k == 1);
            }
        }
        assert((q * step) % (k * step) == 0 && k * step > 0) by (nonlinear_arith)
            requires
                q % k == 0,
                k >= 1,
                step >= 1,
        {
            let m = q / k;
            assert(q == m * k);
            assert(q * step == m * (k * step));
            vstd::arithmetic::div_mod::lemma_mod_multiples_basic(m as int, (k * step) as int);
        }
    }
}

} // verus!
