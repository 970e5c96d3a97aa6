//! `Reference`: the reference term of a series, and the counter that runs
//! ahead of it.
//!
//! The reference term is a cached power `1 / x^n`. The series term of
//! exponent `k` is cut from it by one division by `k x^(k - n)`. As long as
//! that divisor fits in 64 bits the reference term stays where it is; when it
//! would not, the reference term itself is divided forward to `1 / x^k` first,
//! and the divisor is `k` alone. So no divisor is ever out of range.

use crate::limbs::reciprocal_power;
use crate::number::Number;
use crate::series::{
    lemma_exponent_bound, lemma_reciprocal_power, lemma_step_bound, lemma_term_from_reference,
    precision_fits, series_term,
};
use crate::term::Term;
use vstd::arithmetic::div_mod::*;
use vstd::arithmetic::power::*;
use vstd::prelude::*;

verus! {

/// The reference term of one series, with the exponent, step and sign of the
/// series term handed out last.
pub struct Reference {
    /// The reference term, `1 / x^n`.
    term: Term,
    /// `x * x`.
    x2: u64,
    /// The exponent `k` of the series term handed out last.
    denom: u64,
    /// `x^(k - n)`: how far the counter is ahead of the reference term.
    stepsize: u64,
    /// Whether the next series term is subtracted.
    negative: bool,
}

impl Reference {
    /// The reference term.
    pub closed spec fn spec_term(&self) -> Term {
        self.term
    }

    /// `x * x`.
    pub closed spec fn spec_x2(&self) -> nat {
        self.x2 as nat
    }

    /// The exponent of the series term handed out last.
    pub closed spec fn spec_denom(&self) -> nat {
        self.denom as nat
    }

    /// `x` raised to the distance between the counter and the reference term.
    pub closed spec fn spec_stepsize(&self) -> nat {
        self.stepsize as nat
    }

    /// Whether the next series term is subtracted.
    pub closed spec fn spec_negative(&self) -> bool {
        self.negative
    }

    /// The `x` of the series.
    pub open spec fn base(&self) -> nat {
        self.spec_term().spec_base()
    }

    /// The number of limbs.
    pub open spec fn precision(&self) -> nat {
        self.spec_term().spec_val()@.len()
    }

    /// The numerator of the reference term.
    pub open spec fn value(&self) -> nat {
        self.spec_term().spec_val().value()
    }

    /// The index of the series term handed out last; the term `1 / x` has
    /// index 0.
    pub open spec fn index(&self) -> nat {
        (self.spec_denom() / 2) as nat
    }

    /// The counter is an odd exponent at or ahead of the reference term, the
    /// step is the power of `x` between the two, the divisor of the term
    /// handed out last fits in 64 bits, and the sign alternates with the
    /// index.
    pub open spec fn wf(&self) -> bool {
        let x = self.base() as int;
        &&& self.spec_term().holds_power()
        &&& self.spec_x2() == x * x
        &&& self.spec_x2() <= u64::MAX
        &&& self.spec_denom() % 2 == 1
        &&& self.spec_term().spec_denom() <= self.spec_denom()
        &&& 1 <= self.spec_stepsize() <= u64::MAX
        &&& pow(x, self.spec_denom()) == pow(x, self.spec_term().spec_denom())
            * self.spec_stepsize()
        &&& self.spec_denom() * self.spec_stepsize() <= u64::MAX
        &&& precision_fits(self.precision())
        &&& self.spec_negative() == (self.index() % 2 == 0)
    }

    /// The step as it would be with one more factor of `x * x`.
    pub open spec fn wide_step(&self) -> nat {
        self.spec_stepsize() * self.spec_x2()
    }

    /// The reference term has stayed where it was in `before`, and the step
    /// has grown by a factor of `x * x`.
    pub open spec fn stays_on(&self, before: Reference) -> bool {
        &&& self.spec_term().spec_denom() == before.spec_term().spec_denom()
        &&& self.spec_term().spec_val()@ == before.spec_term().spec_val()@
        &&& self.spec_stepsize() == before.wide_step()
    }

    /// The reference term has moved from where it was in `before` to the
    /// exponent of the counter, by a division by the widened step, and the
    /// step is 1 again.
    pub open spec fn moved_from(&self, before: Reference) -> bool {
        &&& self.spec_term().spec_denom() == self.spec_denom()
        &&& self.value() == before.value() / before.wide_step()
        &&& self.value() < before.value()
        &&& self.spec_stepsize() == 1
    }

    /// The series is nearer its end than in `before`: the reference term is
    /// smaller, or it is the same and the step is larger.
    pub open spec fn nearer_end_than(&self, before: Reference) -> bool {
        self.value() < before.value() || (self.value() == before.value() && self.spec_stepsize()
            > before.spec_stepsize())
    }

    /// The reference term `1 / x`, with the counter on it.
    pub fn new(x: u64, xinv: &Number) -> (r: Reference)
        requires
            0 < x <= u32::MAX,
            xinv.value() == reciprocal_power(x as nat, xinv@.len(), 1),
            precision_fits(xinv@.len()),
        ensures
            r.wf(),
            r.base() == x,
            r.spec_term().spec_denom() == 1,
            r.spec_term().spec_val()@ == xinv@,
            r.spec_denom() == 1,
            r.spec_stepsize() == 1,
    {
        assert(x * x <= u64::MAX) by (nonlinear_arith)
            requires
                0 < x <= u32::MAX,
        ;
        let term: Term = Term::init(x, xinv);
        Reference { term, x2: x * x, denom: 1, stepsize: 1, negative: true }
    }

    /// The reference term.
    pub fn term(&self) -> (t: &Term)
        ensures
            *t == self.spec_term(),
            t.holds_power(),
    {
        let t: &Term = &self.term;
        let _ = t.val();
        t
    }

    /// Whether the reference term has underflowed to zero. Every series term
    /// still to come is then zero as well.
    pub fn is_spent(&self) -> (r: bool)
        ensures
            r == (self.value() == 0),
    {
        self.term.val().is_zero()
    }

    /// Whether the next series term is subtracted.
    pub fn is_negative(&self) -> (r: bool)
        ensures
            r == self.spec_negative(),
    {
        self.negative
    }

    /// Hands out the next series term: whether it is subtracted, and the
    /// divisor that cuts it from the reference term as it stands after the
    /// call.
    ///
    /// Where the divisor relative to the reference term would not fit in 64
    /// bits, the reference term is divided forward to the new exponent first.
    pub fn next(&mut self) -> (r: (bool, u64))
        requires
            old(self).wf(),
            old(self).value() > 0,
        ensures
            final(self).wf(),
            final(self).base() == old(self).base(),
            final(self).precision() == old(self).precision(),
            final(self).spec_denom() == old(self).spec_denom() + 2,
            final(self).index() == old(self).index() + 1,
            r.0 == old(self).spec_negative(),
            r.0 == (final(self).index() % 2 == 1),
            r.1 == final(self).spec_denom() * final(self).spec_stepsize(),
            final(self).value() / (r.1 as nat) == series_term(
                final(self).base(),
                final(self).precision(),
                final(self).index(),
            ),
            final(self).spec_denom() * old(self).wide_step() <= u64::MAX ==> final(self).stays_on(
                *old(self),
            ),
            final(self).spec_denom() * old(self).wide_step() > u64::MAX ==> final(self).moved_from(
                *old(self),
            ),
            final(self).nearer_end_than(*old(self)),
            final(self).base() >= 2,
            r.1 > 0,
    {
        let ghost x = self.base();
        let ghost n = self.precision();
        let ghost e = self.term.spec_denom();
        let ghost k = self.denom as nat;
        let ghost s = self.stepsize as nat;
        let ghost v = self.value();
        proof {
            // The reference term is not zero, so `x >= 2` and `x^e` fits in
            // the precision; the step fits in 64 bits. That bounds the counter.
            lemma_reciprocal_power(x, n, e);
            let m = crate::limbs::modulus(n) as int;
            let pe = pow(x as int, e);
            lemma_pow_positive(x as int, e);
            if pe > m {
                lemma_basic_div(m, pe);
            }
            lemma_exponent_bound(x, n, e);
            lemma_pow_adds(x as int, e, (k - e) as nat);
            let pd = pow(x as int, (k - e) as nat);
            assert(pd == s) by (nonlinear_arith)
                requires
                    pe * pd == pe * s,
                    pe > 0,
            ;
            lemma_step_bound(x, (k - e) as nat);
            // One more step multiplies the power by `x * x`.
            lemma_pow_adds(x as int, k, 2);
            lemma_pow_adds(x as int, 1, 1);
            lemma_pow1(x as int);
            assert(x * x >= 4) by (nonlinear_arith)
                requires
                    x >= 2,
            ;
        }
        let x2: u64 = self.x2;
        let denom: u64 = self.denom + 2;
        let negative: bool = self.negative;
        let ghost wide = s * (x2 as nat);
        proof {
            assert(pow(x as int, denom as nat) == pow(x as int, e) * wide) by (nonlinear_arith)
                requires
                    pow(x as int, denom as nat) == pow(x as int, k) * x2,
                    pow(x as int, k) == pow(x as int, e) * s,
                    wide == s * x2,
            ;
            assert(wide > s) by (nonlinear_arith)
                requires
                    wide == s * x2,
                    s >= 1,
                    x2 >= 4,
            ;
        }
        let divisor: u64 = match self.stepsize.checked_mul(x2) {
            Some(step) => match denom.checked_mul(step) {
                Some(full) => {
                    self.stepsize = step;
                    full
                },
                None => {
                    self.term.divide(step, denom);
                    self.stepsize = 1;
                    proof {
                        lemma_div_decreases(v as int, wide as int);
                    }
                    denom
                },
            },
            None => {
                proof {
                    assert(denom * wide > u64::MAX) by (nonlinear_arith)
                        requires
                            wide > u64::MAX,
                            denom >= 1,
                    ;
                }
                self.term.divide(self.stepsize, self.denom);
                self.term.divide(x2, denom);
                self.stepsize = 1;
                proof {
                    lemma_div_denominator(v as int, s as int, x2 as int);
                    lemma_div_decreases(v as int, wide as int);
                }
                denom
            },
        };
        self.denom = denom;
        self.negative = !negative;
        proof {
            assert(denom * self.stepsize > 0) by (nonlinear_arith)
                requires
                    denom >= 1,
                    self.stepsize >= 1,
            ;
            // The divisor cuts the series term from the reference term as it
            // stands now.
            let j = (denom / 2) as nat;
            let at = self.term.spec_denom();
            let step = self.stepsize as nat;
            assert(2 * j + 1 == denom);
            assert(pow(x as int, 2 * j + 1) == pow(x as int, at) * step) by {
                if at == denom {
                    assert(step == 1);
                    assert(pow(x as int, at) * 1 == pow(x as int, at)) by (nonlinear_arith);
                } else {
                    assert(at == e && step == wide);
                }
            }
            lemma_term_from_reference(x, n, at, j, step);
            assert(divisor == (2 * j + 1) * step);
        }
        (negative, divisor)
    }
}

} // verus!
