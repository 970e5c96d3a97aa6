//! The arctangent series in fixed precision, as mathematics.
//!
//! `atan(1/x) = 1/x - 1/(3 x^3) + 1/(5 x^5) - ...`. In `n` limbs every term is
//! rounded down to the last limb on its own, and the terms are added and
//! subtracted modulo 1. The sum therefore does not depend on the order in
//! which the terms are taken, nor on how they are shared out.

use crate::limbs::{lemma_modulus_positive, modulus, reciprocal_power, wrap};
use vstd::arithmetic::div_mod::*;
use vstd::arithmetic::power::*;
use vstd::arithmetic::power2::*;
use vstd::prelude::*;

verus! {

/// The precisions for which the exponents of the series fit in 64 bits.
pub open spec fn precision_fits(n: nat) -> bool {
    64 * n + 66 <= u64::MAX
}

/// The numerator of the series term of index `j`, `1 / ((2j + 1) x^(2j + 1))`,
/// in `n` limbs, rounded down.
pub open spec fn series_term(x: nat, n: nat, j: nat) -> nat {
    (modulus(n) as int / ((2 * j + 1) * pow(x as int, 2 * j + 1))) as nat
}

/// The term of index `j` with its sign: the terms of odd index are subtracted.
pub open spec fn signed_term(x: nat, n: nat, j: nat) -> int {
    if j % 2 == 1 {
        -(series_term(x, n, j) as int)
    } else {
        series_term(x, n, j) as int
    }
}

/// The alternating sum of the terms of index 0 to `j`.
pub open spec fn series_sum(x: nat, n: nat, j: nat) -> int
    decreases j,
{
    if j == 0 {
        signed_term(x, n, 0)
    } else {
        series_sum(x, n, (j - 1) as nat) + signed_term(x, n, j)
    }
}

/// The numerator of `atan(1/x)` in `n` limbs: the whole series, summed modulo
/// 1. The terms of index above `32 n` are zero in `n` limbs, so the sum may
/// stop there. For `x == 1` the first term already wraps to zero, and so does
/// the value.
pub open spec fn ataninv_value(x: nat, n: nat) -> nat {
    if x <= 1 {
        0
    } else {
        wrap(series_sum(x, n, 32 * n), n)
    }
}

/// A power grows with its base.
pub proof fn lemma_pow_base_monotonic(a: nat, b: nat, e: nat)
    requires
        0 < a <= b,
    ensures
        0 < pow(a as int, e) <= pow(b as int, e),
    decreases e,
{
    lemma_pow_positive(a as int, e);
    if e == 0 {
        lemma_pow0(a as int);
        lemma_pow0(b as int);
    } else {
        let e1 = (e - 1) as nat;
        lemma_pow_base_monotonic(a, b, e1);
        lemma_pow_adds(a as int, e1, 1);
        lemma_pow_adds(b as int, e1, 1);
        lemma_pow1(a as int);
        lemma_pow1(b as int);
        let pa = pow(a as int, e1);
        let pb = pow(b as int, e1);
        assert(pa * a <= pb * b) by (nonlinear_arith)
            requires
                0 < pa <= pb,
                0 < a <= b,
        ;
    }
}

/// `n` limbs of 64 bits hold `64 n` bits.
pub proof fn lemma_modulus_is_power_of_two(n: nat)
    ensures
        modulus(n) == pow(2, 64 * n),
{
    lemma2_to64();
    lemma_pow2(64);
    lemma_pow_multiplies(2, 64, n);
    lemma_pow_positive(2, 64 * n);
}

/// A power of `x >= 2` that fits in `n` limbs has an exponent of at most
/// `64 n`.
pub proof fn lemma_exponent_bound(x: nat, n: nat, e: nat)
    requires
        x >= 2,
        pow(x as int, e) <= modulus(n),
    ensures
        e <= 64 * n,
{
    lemma_pow_base_monotonic(2, x, e);
    lemma_modulus_is_power_of_two(n);
    lemma_pow_increases_converse(2, e, 64 * n);
}

/// A power of `x >= 2` that fits in 64 bits has an exponent below 64.
pub proof fn lemma_step_bound(x: nat, d: nat)
    requires
        x >= 2,
        pow(x as int, d) <= u64::MAX,
    ensures
        d < 64,
{
    lemma_pow_base_monotonic(2, x, d);
    lemma2_to64();
    lemma_pow2(64);
    lemma_pow_strictly_increases_converse(2, d, 64);
}

/// `1 / x^e` needs no wrapping but for `x == 1`.
pub proof fn lemma_reciprocal_power(x: nat, n: nat, e: nat)
    requires
        x >= 1,
        e >= 1,
    ensures
        x >= 2 ==> reciprocal_power(x, n, e) == modulus(n) as int / pow(x as int, e),
        x >= 2 ==> pow(x as int, e) >= 2,
        x == 1 ==> reciprocal_power(x, n, e) == 0,
{
    let m = modulus(n) as int;
    lemma_modulus_positive(n);
    if x == 1 {
        lemma1_pow(e);
        lemma_mod_self_0(m);
    } else {
        lemma_pow1(x as int);
        lemma_pow_increases(x, 1, e);
        let p = pow(x as int, e);
        lemma_div_decreases(m, p);
        lemma_div_pos_is_pos(m, p);
        lemma_small_mod((m / p) as nat, m as nat);
    }
}

/// Dividing `1 / x^e1` by `d` gives `1 / x^e2`, where `x^e2 == x^e1 * d`: no
/// precision is lost by dividing in steps.
pub proof fn lemma_reciprocal_divide(x: nat, n: nat, e1: nat, e2: nat, d: nat)
    requires
        x >= 1,
        1 <= e1 <= e2,
        d > 0,
        pow(x as int, e2) == pow(x as int, e1) * d,
    ensures
        reciprocal_power(x, n, e1) / d == reciprocal_power(x, n, e2),
{
    lemma_reciprocal_power(x, n, e1);
    lemma_reciprocal_power(x, n, e2);
    if x >= 2 {
        lemma_pow_positive(x as int, e1);
        lemma_div_denominator(modulus(n) as int, pow(x as int, e1), d as int);
    }
}

/// The term of index `j` from a cached power: `1 / x^e` divided by
/// `(2j + 1) s`, where `x^(2j + 1) == x^e * s`.
pub proof fn lemma_term_from_reference(x: nat, n: nat, e: nat, j: nat, s: nat)
    requires
        x >= 2,
        e >= 1,
        s > 0,
        pow(x as int, 2 * j + 1) == pow(x as int, e) * s,
    ensures
        reciprocal_power(x, n, e) / ((2 * j + 1) * s) == series_term(x, n, j),
{
    lemma_reciprocal_power(x, n, e);
    let p = pow(x as int, e);
    let k = (2 * j + 1) as int;
    lemma_pow_positive(x as int, e);
    assert(k * s > 0) by (nonlinear_arith)
        requires
            k > 0,
            s > 0,
    ;
    lemma_div_denominator(modulus(n) as int, p, k * s);
    assert(p * (k * s) == k * (p * s)) by (nonlinear_arith);
}

/// The sum starts with `1 / x`.
pub proof fn lemma_first_term(x: nat, n: nat)
    requires
        x >= 1,
    ensures
        series_sum(x, n, 0) == modulus(n) as int / x as int,
        wrap(series_sum(x, n, 0), n) == reciprocal_power(x, n, 1),
{
    let m = modulus(n) as int;
    let p = pow(x as int, 1);
    lemma_pow1(x as int);
    lemma_modulus_positive(n);
    lemma_div_pos_is_pos(m, x as int);
    assert(1 * p == p) by (nonlinear_arith);
}

/// The divisor of the series term of index `j`, `(2j + 1) x^(2j + 1)`.
pub open spec fn series_divisor(x: nat, j: nat) -> int {
    (2 * j + 1) * pow(x as int, 2 * j + 1)
}

/// The divisors of the series grow with the index.
pub proof fn lemma_divisor_monotonic(x: nat, j1: nat, j2: nat)
    requires
        x >= 1,
        j1 <= j2,
    ensures
        0 < pow(x as int, 2 * j1 + 1) <= series_divisor(x, j1) <= series_divisor(x, j2),
{
    lemma_pow_positive(x as int, 2 * j1 + 1);
    lemma_pow_increases(x, 2 * j1 + 1, 2 * j2 + 1);
    let pa = pow(x as int, 2 * j1 + 1);
    let pb = pow(x as int, 2 * j2 + 1);
    let k1 = (2 * j1 + 1) as int;
    let k2 = (2 * j2 + 1) as int;
    assert(pa <= k1 * pa <= k2 * pb) by (nonlinear_arith)
        requires
            0 < pa <= pb,
            1 <= k1 <= k2,
    ;
}

/// A term is zero exactly when its divisor exceeds the range of `n` limbs.
pub proof fn lemma_term_zero(x: nat, n: nat, j: nat)
    requires
        x >= 1,
    ensures
        series_term(x, n, j) == 0 <==> series_divisor(x, j) > modulus(n),
{
    lemma_divisor_monotonic(x, j, j);
    let m = modulus(n) as int;
    let d = series_divisor(x, j);
    if d > m {
        lemma_basic_div(m, d);
    } else {
        lemma_div_non_zero(m, d);
    }
}

/// The terms of the series do not grow with the index.
pub proof fn lemma_term_monotonic(x: nat, n: nat, j1: nat, j2: nat)
    requires
        x >= 1,
        j1 <= j2,
    ensures
        series_term(x, n, j2) <= series_term(x, n, j1),
{
    lemma_divisor_monotonic(x, j1, j2);
    lemma_divisor_monotonic(x, j2, j2);
    lemma_div_is_ordered_by_denominator(
        modulus(n) as int,
        series_divisor(x, j1),
        series_divisor(x, j2),
    );
    lemma_div_pos_is_pos(modulus(n) as int, series_divisor(x, j1));
    lemma_div_pos_is_pos(modulus(n) as int, series_divisor(x, j2));
}

/// After a term that is zero every term is zero.
pub proof fn lemma_series_tail(x: nat, n: nat, j: nat, i: nat)
    requires
        x >= 1,
        series_term(x, n, j) == 0,
        j <= i,
    ensures
        series_term(x, n, i) == 0,
{
    lemma_term_zero(x, n, j);
    lemma_term_zero(x, n, i);
    lemma_divisor_monotonic(x, j, i);
}

/// Past the last non-zero term the sum stays as it is.
pub proof fn lemma_series_stable(x: nat, n: nat, j1: nat, j2: nat)
    requires
        x >= 1,
        series_term(x, n, j1 + 1) == 0,
        j1 <= j2,
    ensures
        series_sum(x, n, j2) == series_sum(x, n, j1),
    decreases j2,
{
    if j2 > j1 {
        lemma_series_stable(x, n, j1, (j2 - 1) as nat);
        lemma_series_tail(x, n, j1 + 1, j2);
    }
}

/// A sum that has reached a term of zero is the whole series.
pub proof fn lemma_series_limit_by_term(x: nat, n: nat, j: nat)
    requires
        x >= 2,
        series_term(x, n, j) == 0,
    ensures
        wrap(series_sum(x, n, j), n) == ataninv_value(x, n),
{
    let top = 32 * n;
    assert(series_term(x, n, top) == 0) by {
        lemma_pow_base_monotonic(2, x, 2 * top + 1);
        lemma_modulus_is_power_of_two(n);
        lemma_pow_strictly_increases(2, 64 * n, 2 * top + 1);
        lemma_divisor_monotonic(x, top, top);
        lemma_term_zero(x, n, top);
    }
    if j <= top {
        lemma_series_tail(x, n, j, j + 1);
        lemma_series_stable(x, n, j, top);
    } else {
        lemma_series_tail(x, n, top, top + 1);
        lemma_series_stable(x, n, top, j);
    }
}

/// A sum that has reached a vanished power is the whole series.
pub proof fn lemma_series_limit(x: nat, n: nat, e: nat, j: nat)
    requires
        x >= 2,
        pow(x as int, e) > modulus(n),
        e <= 2 * j + 1,
    ensures
        wrap(series_sum(x, n, j), n) == ataninv_value(x, n),
{
    lemma_pow_increases(x, e, 2 * j + 1);
    lemma_divisor_monotonic(x, j, j);
    lemma_term_zero(x, n, j);
    lemma_series_limit_by_term(x, n, j);
}

/// A sum that has reached a cached power of zero is the whole series.
pub proof fn lemma_series_limit_by_power(x: nat, n: nat, e: nat, j: nat)
    requires
        x >= 2,
        1 <= e <= 2 * j + 1,
        reciprocal_power(x, n, e) == 0,
    ensures
        wrap(series_sum(x, n, j), n) == ataninv_value(x, n),
{
    let m = modulus(n) as int;
    let p = pow(x as int, e);
    lemma_reciprocal_power(x, n, e);
    lemma_modulus_positive(n);
    lemma_pow_positive(x as int, e);
    if p <= m {
        lemma_div_non_zero(m, p);
    }
    lemma_series_limit(x, n, e, j);
}

/// Adding to a wrapped value and wrapping is adding and wrapping once.
pub proof fn lemma_wrap_add(a: int, b: int, n: nat)
    ensures
        wrap(wrap(a, n) + b, n) == wrap(a + b, n),
{
    let m = modulus(n) as int;
    lemma_modulus_positive(n);
    lemma_mod_bound(a, m);
    lemma_add_mod_noop(a, b, m);
    lemma_add_mod_noop(a % m, b, m);
    lemma_mod_twice(a, m);
}

/// Subtracting from a wrapped value and wrapping is subtracting and wrapping
/// once.
pub proof fn lemma_wrap_sub(a: int, b: int, n: nat)
    ensures
        wrap(wrap(a, n) - b, n) == wrap(a - b, n),
{
    let m = modulus(n) as int;
    lemma_modulus_positive(n);
    lemma_mod_bound(a, m);
    lemma_sub_mod_noop(a, b, m);
    lemma_sub_mod_noop(a % m, b, m);
    lemma_mod_twice(a, m);
}

} // verus!
