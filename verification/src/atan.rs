//! `atan(1/x)` by the series: term after term, or shared out to workers.

use crate::limbs::wrap;
use crate::number::Number;
use crate::reference::Reference;
use crate::schedule::{ataninv_scheduled, Move};
use crate::series::{
    ataninv_value, lemma_first_term, lemma_reciprocal_power, lemma_series_limit_by_power,
    lemma_wrap_add, lemma_wrap_sub, precision_fits, series_sum,
};
use vstd::arithmetic::power::lemma_pow1;
use vstd::prelude::*;

verus! {

/// `atan(1/x)` in `n` limbs: the alternating sum over `1 / (k x^k)`, `k` odd,
/// every term rounded down to the last limb.
///
/// Each term is cut from the reference term by one division. The loop ends
/// when the reference term has underflowed to zero: every later term is then
/// zero too.
pub fn ataninv_scalar(x: u64, n: usize) -> (result: Number)
    requires
        0 < x <= u32::MAX,
        precision_fits(n as nat),
    ensures
        result@.len() == n,
        result.value() == ataninv_value(x as nat, n as nat),
        result.zeros_exact(),
{
    let mut result: Number = Number::from_inv(x, n);
    proof {
        lemma_pow1(x as int);
        lemma_reciprocal_power(x as nat, n as nat, 1);
    }
    let mut reference: Reference = Reference::new(x, &result);
    let mut tmp: Number = Number::zero(n);
    proof {
        lemma_first_term(x as nat, n as nat);
    }
    while !reference.is_spent()
        invariant
            reference.wf(),
            reference.base() == x,
            reference.precision() == n,
            result@.len() == n,
            tmp@.len() == n,
            x >= 2 ==> result.value() == wrap(
                series_sum(x as nat, n as nat, reference.index()),
                n as nat,
            ),
            x == 1 ==> reference.value() == 0 && result.value() == 0,
            result.zeros_exact(),
        decreases reference.value(), u64::MAX - reference.spec_stepsize(),
    {
        let ghost before = series_sum(x as nat, n as nat, reference.index());
        let (neg, divisor) = reference.next();
        tmp.set_to_div(reference.term().val(), divisor);
        if neg {
            result.sub_assign(&tmp);
            proof {
                lemma_wrap_sub(before, tmp.value() as int, n as nat);
            }
        } else {
            result.add_assign(&tmp);
            proof {
                lemma_wrap_add(before, tmp.value() as int, n as nat);
            }
        }
    }
    proof {
        if x >= 2 {
            lemma_series_limit_by_power(
                x as nat,
                n as nat,
                reference.spec_term().spec_denom(),
                reference.index(),
            );
        }
    }
    result
}

/// `atan(1/x)` in `n` limbs with `nthreads` workers; with none, by
/// [`ataninv_scalar`].
///
/// The dispatcher and the workers run here one after the other on the calling
/// thread: each worker that has not retired takes one task in turn, and the
/// dispatcher takes in its answer before it hands out the next. Whatever the
/// number of workers, the result is that of the sequential sum, limb for
/// limb.
pub fn ataninv(x: u64, nthreads: usize, n: usize) -> (result: Number)
    requires
        0 < x <= u32::MAX,
        precision_fits(n as nat),
        nthreads + 2 <= usize::MAX,
    ensures
        result@.len() == n,
        result.value() == ataninv_value(x as nat, n as nat),
        result.zeros_exact(),
{
    let moves: Vec<Move> = Vec::new();
    ataninv_scheduled(x, nthreads, n, &moves)
}

} // verus!
