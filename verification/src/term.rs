//! `Term`: a cached power `1 / x^n` of the series, with its exponent.
//!
//! A term is the workspace from which series terms are cut: dividing
//! `1 / x^n` by `k x^(k - n)` gives `1 / (k x^k)`. A term only ever moves
//! forward, to a larger exponent, by one more division.

use crate::limbs::{lemma_modulus_zero, reciprocal_power};
use crate::number::Number;
use crate::series::lemma_reciprocal_divide;
use vstd::arithmetic::power::*;
use vstd::prelude::*;

verus! {

/// The power `1 / base^denom` in fixed precision.
pub struct Term {
    /// The `x` of the series.
    base: u64,
    /// The exponent of the cached power.
    denom: u64,
    /// Always `1 / base^denom`, rounded down to the last limb.
    val: Number,
}

/// `x2` raised to `steps`, where that fits in 64 bits.
pub fn jump_divisor(x2: u64, steps: u64) -> (r: Option<u64>)
    ensures
        r is Some <==> pow(x2 as int, steps as nat) <= u64::MAX,
        r matches Some(d) ==> d == pow(x2 as int, steps as nat),
{
    if steps == 0 {
        proof {
            lemma_pow0(x2 as int);
        }
        return Some(1);
    }
    if x2 <= 1 {
        proof {
            if x2 == 0 {
                lemma0_pow(steps as nat);
            } else {
                lemma1_pow(steps as nat);
            }
        }
        return Some(x2);
    }
    let mut d: u64 = 1;
    let mut i: u64 = 0;
    proof {
        lemma_pow0(x2 as int);
    }
    while i < steps
        invariant
            i <= steps,
            x2 >= 2,
            d == pow(x2 as int, i as nat),
        decreases steps - i,
    {
        proof {
            lemma_pow_adds(x2 as int, i as nat, 1);
            lemma_pow1(x2 as int);
        }
        match d.checked_mul(x2) {
            Some(next) => {
                d = next;
            },
            None => {
                proof {
                    lemma_pow_increases(x2 as nat, (i + 1) as nat, steps as nat);
                }
                return None;
            },
        }
        i += 1;
    }
    Some(d)
}

impl Term {
    /// The cached power is `1 / base^denom`, with an exact count of leading
    /// zero limbs.
    #[verifier::type_invariant]
    spec fn inv(self) -> bool {
        &&& self.base >= 1
        &&& self.denom >= 1
        &&& self.val.value() == reciprocal_power(
            self.base as nat,
            self.val@.len(),
            self.denom as nat,
        )
        &&& self.val.zeros_exact()
    }

    /// The `x` of the series that this term belongs to.
    pub closed spec fn spec_base(&self) -> nat {
        self.base as nat
    }

    /// The exponent of the cached power.
    pub closed spec fn spec_denom(&self) -> nat {
        self.denom as nat
    }

    /// The cached power.
    pub closed spec fn spec_val(&self) -> Number {
        self.val
    }

    /// What every term holds: the cached power is `1 / base^denom`, and its
    /// count of leading zero limbs is exact.
    pub open spec fn holds_power(&self) -> bool {
        &&& self.spec_base() >= 1
        &&& self.spec_denom() >= 1
        &&& self.spec_val().value() == reciprocal_power(
            self.spec_base(),
            self.spec_val()@.len(),
            self.spec_denom(),
        )
        &&& self.spec_val().zeros_exact()
    }

    /// The term `1 / x`, from the reciprocal of `x`.
    pub fn init(x: u64, xinv: &Number) -> (t: Term)
        requires
            x > 0,
            xinv.value() == reciprocal_power(x as nat, xinv@.len(), 1),
        ensures
            t.spec_base() == x,
            t.spec_denom() == 1,
            t.spec_val()@ == xinv@,
            t.holds_power(),
    {
        let mut val: Number = xinv.clone();
        val.update_zeros();
        Term { base: x, denom: 1, val }
    }

    /// Overwrites this term with `rhs`.
    pub fn copy_from(&mut self, rhs: &Term)
        requires
            old(self).spec_val()@.len() == rhs.spec_val()@.len(),
        ensures
            final(self).spec_base() == rhs.spec_base(),
            final(self).spec_denom() == rhs.spec_denom(),
            final(self).spec_val()@ == rhs.spec_val()@,
            final(self).holds_power(),
    {
        proof {
            use_type_invariant(rhs);
            use_type_invariant(&*self);
        }
        let mut v: Number = Number::zero(0);
        proof {
            lemma_modulus_zero();
        }
        std::mem::swap(&mut self.val, &mut v);
        v.copy_from(&rhs.val);
        v.update_zeros();
        *self = Term { base: rhs.base, denom: rhs.denom, val: v };
    }

    /// Divides the cached power by `d`, which takes it to the exponent
    /// `new_denom`.
    pub(crate) fn divide(&mut self, d: u64, new_denom: u64)
        requires
            d > 0,
            old(self).spec_denom() <= new_denom,
            pow(old(self).spec_base() as int, new_denom as nat) == pow(
                old(self).spec_base() as int,
                old(self).spec_denom(),
            ) * d,
        ensures
            final(self).spec_base() == old(self).spec_base(),
            final(self).spec_denom() == new_denom,
            final(self).spec_val()@.len() == old(self).spec_val()@.len(),
            final(self).spec_val().value() == old(self).spec_val().value() / (d as nat),
            final(self).holds_power(),
    {
        proof {
            use_type_invariant(&*self);
        }
        let ghost n = self.val@.len();
        let mut v: Number = Number::zero(0);
        proof {
            lemma_modulus_zero();
        }
        std::mem::swap(&mut self.val, &mut v);
        v.div_assign(d);
        proof {
            lemma_reciprocal_divide(
                self.base as nat,
                n,
                self.denom as nat,
                new_denom as nat,
                d as nat,
            );
        }
        *self = Term { base: self.base, denom: new_denom, val: v };
    }

    /// Moves the term forward to the exponent `new_exponent`, by one division
    /// by `x^(new_exponent - denom)`.
    pub fn advance_to(&mut self, new_exponent: u64)
        requires
            old(self).can_advance_to(new_exponent as nat),
        ensures
            final(self).spec_base() == old(self).spec_base(),
            final(self).spec_denom() == new_exponent,
            final(self).spec_val()@.len() == old(self).spec_val()@.len(),
            final(self).holds_power(),
    {
        proof {
            use_type_invariant(&*self);
        }
        let x2: u64 = self.base * self.base;
        let steps: u64 = (new_exponent - self.denom) / 2;
        match jump_divisor(x2, steps) {
            Some(d) => {
                proof {
                    let x = self.base as int;
                    assert(x * x >= 1) by (nonlinear_arith)
                        requires
                            x >= 1,
                    ;
                    lemma_pow_positive(x2 as int, steps as nat);
                    lemma_pow_adds(x, 1, 1);
                    lemma_pow1(x);
                    lemma_pow_multiplies(x, 2, steps as nat);
                    lemma_pow_adds(x, self.denom as nat, 2 * steps as nat);
                }
                self.divide(d, new_exponent);
            },
            None => {},
        }
    }

    /// Whether the jump to `new_exponent` can be made: it goes forward by an
    /// even distance, and its divisor fits in 64 bits.
    pub open spec fn can_advance_to(&self, new_exponent: nat) -> bool {
        &&& self.spec_denom() <= new_exponent
        &&& (new_exponent - self.spec_denom()) % 2 == 0
        &&& self.spec_base() * self.spec_base() <= u64::MAX
        &&& pow(
            (self.spec_base() * self.spec_base()) as int,
            ((new_exponent - self.spec_denom()) / 2) as nat,
        ) <= u64::MAX
    }

    /// Moves the term forward to the exponent `new_exponent` where that jump
    /// can be made, and says whether it was. A term that cannot make the jump
    /// stays as it is.
    pub fn try_advance_to(&mut self, new_exponent: u64) -> (moved: bool)
        ensures
            moved == old(self).can_advance_to(new_exponent as nat),
            moved ==> {
                &&& final(self).spec_base() == old(self).spec_base()
                &&& final(self).spec_denom() == new_exponent
                &&& final(self).spec_val()@.len() == old(self).spec_val()@.len()
                &&& final(self).holds_power()
            },
            !moved ==> *final(self) == *old(self),
    {
        if new_exponent < self.denom || (new_exponent - self.denom) % 2 != 0 {
            return false;
        }
        let steps: u64 = (new_exponent - self.denom) / 2;
        match self.base.checked_mul(self.base) {
            None => false,
            Some(x2) => match jump_divisor(x2, steps) {
                None => false,
                Some(_) => {
                    self.advance_to(new_exponent);
                    true
                },
            },
        }
    }

    /// The `x` of the series that this term belongs to.
    pub fn base(&self) -> (x: u64)
        ensures
            x == self.spec_base(),
            x >= 1,
    {
        proof {
            use_type_invariant(self);
        }
        self.base
    }

    /// The exponent of the cached power.
    pub fn denom(&self) -> (e: u64)
        ensures
            e == self.spec_denom(),
            e >= 1,
    {
        proof {
            use_type_invariant(self);
        }
        self.denom
    }

    /// The cached power, `1 / base^denom`.
    pub fn val(&self) -> (v: &Number)
        ensures
            *v == self.spec_val(),
            self.holds_power(),
    {
        proof {
            use_type_invariant(self);
        }
        &self.val
    }
}

} // verus!
