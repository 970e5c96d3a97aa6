//! What holds of the operations taken together.

use crate::limbs::{
    base, leading_zero_count, lemma_modulus_positive, lemma_modulus_step, lemma_value_bound,
    lemma_value_injective, lemma_value_zero_iff, modulus, wrap,
};
use crate::number::Number;
use crate::series::{ataninv_value, lemma_wrap_add};
use vstd::arithmetic::div_mod::*;
use vstd::prelude::*;

verus! {

/// The reciprocal times `x` is 1 to within the rounding of the last limb.
///
/// `Number::from_inv(x, n)` has the numerator `v = wrap(modulus(n) / x, n)`.
/// For `x >= 2` the true `1 / x` lies in `[v, v + 1)` units of the last limb,
/// so `v * x` falls short of 1.0 by less than `x` such units, and never
/// exceeds it.
pub proof fn law_reciprocal_round_trip(x: nat, n: nat)
    requires
        x >= 2,
    ensures
        ({
            let v = wrap(modulus(n) as int / x as int, n);
            v * x <= modulus(n) < v * x + x
        }),
{
    let m = modulus(n) as int;
    lemma_modulus_positive(n);
    lemma_fundamental_div_mod(m, x as int);
    lemma_mod_bound(m, x as int);
    lemma_div_decreases(m, x as int);
    lemma_div_pos_is_pos(m, x as int);
    lemma_small_mod((m / (x as int)) as nat, m as nat);
    let v = m / (x as int);
    assert(v * x == x * v) by (nonlinear_arith);
}

/// Adding `rhs` and then subtracting it again restores every limb.
///
/// `sum` stands for the fraction after `add_assign(rhs)`, `back` for the one
/// after `sub_assign(rhs)` on that: their values are what the two operations
/// ensure.
pub proof fn law_add_then_sub_restores(a: Number, rhs: Number, sum: Number, back: Number)
    requires
        a@.len() == rhs@.len(),
        sum@.len() == a@.len(),
        back@.len() == a@.len(),
        sum.value() == wrap((a.value() + rhs.value()) as int, a@.len()),
        back.value() == wrap(sum.value() - rhs.value(), a@.len()),
    ensures
        back@ == a@,
        a.zeros_exact() && back.zeros_exact() ==> back.cached_zeros() == a.cached_zeros(),
{
    let n = a@.len();
    let m = modulus(n);
    lemma_value_bound(a@);
    lemma_wrap_add((a.value() + rhs.value()) as int, -(rhs.value() as int), n);
    lemma_small_mod(a.value(), m);
    lemma_value_injective(back@, a@);
}

/// Subtracting `rhs` and then adding it again restores every limb.
pub proof fn law_sub_then_add_restores(a: Number, rhs: Number, diff: Number, back: Number)
    requires
        a@.len() == rhs@.len(),
        diff@.len() == a@.len(),
        back@.len() == a@.len(),
        diff.value() == wrap(a.value() - rhs.value(), a@.len()),
        back.value() == wrap((diff.value() + rhs.value()) as int, a@.len()),
    ensures
        back@ == a@,
{
    let n = a@.len();
    let m = modulus(n);
    lemma_value_bound(a@);
    lemma_wrap_add(a.value() - rhs.value(), rhs.value() as int, n);
    lemma_small_mod(a.value(), m);
    lemma_value_injective(back@, a@);
}

/// The zero fraction tests as zero, and the reciprocal of any `x >= 2` that
/// fits in a limb does not, given at least one limb. (The reciprocal of 1 is
/// 1.0, which wraps to zero.)
pub proof fn law_zero_test(zero: Number, reciprocal: Number, x: nat)
    requires
        zero.value() == 0,
        zero.zeros_exact(),
        2 <= x < base(),
        reciprocal@.len() >= 1,
        reciprocal.value() == wrap(modulus(reciprocal@.len()) as int / x as int, reciprocal@.len()),
        reciprocal.zeros_exact(),
    ensures
        zero.cached_zeros() == zero@.len(),
        reciprocal.cached_zeros() != reciprocal@.len(),
{
    lemma_value_zero_iff(zero@);
    lemma_value_zero_iff(reciprocal@);
    let n = reciprocal@.len();
    let m = modulus(n) as int;
    lemma_modulus_positive(n);
    lemma_modulus_positive((n - 1) as nat);
    lemma_modulus_step((n - 1) as nat);
    assert(m >= base()) by (nonlinear_arith)
        requires
            m == modulus((n - 1) as nat) * base(),
            modulus((n - 1) as nat) >= 1,
    ;
    lemma_div_non_zero(m, x as int);
    lemma_div_decreases(m, x as int);
    lemma_small_mod((m / (x as int)) as nat, m as nat);
}

/// An exact cache of leading zeros never exceeds the number of limbs that
/// are zero at the most significant end, and every limb that it covers is
/// zero.
pub proof fn law_cached_zeros_are_zero(a: Number, i: int)
    requires
        a.zeros_exact(),
        0 <= i < a.cached_zeros(),
    ensures
        a.cached_zeros() <= leading_zero_count(a@),
        a.cached_zeros() <= a@.len(),
        a@[i] == 0,
{
    crate::limbs::lemma_leading_zero_count(a@);
}

/// Two runs for the same `x` and precision give the same limbs, whatever the
/// number of workers: each has the value of the series, and a value has one
/// spelling.
pub proof fn law_runs_agree(first: Number, second: Number, x: nat, n: nat)
    requires
        first@.len() == n,
        second@.len() == n,
        first.value() == ataninv_value(x, n),
        second.value() == ataninv_value(x, n),
    ensures
        first@ == second@,
        first.zeros_exact() && second.zeros_exact() ==> first.cached_zeros()
            == second.cached_zeros(),
{
    lemma_value_injective(first@, second@);
}

} // verus!
