//! The series in batches: workers that only divide.
//!
//! Here the reference term is moved forward by a worker, and the dispatcher
//! does the summing. From one reference term `1 / x^(2r + 1)` the dispatcher
//! plans as many series terms as have a divisor of 64 bits,
//! `x^(2i + 2) (2(r + i) + 3)` for `i = 0, 1, ...`, and one more division, by
//! the last power of `x` alone, that yields the next reference term. Each
//! division is a task; a worker divides and reports whether the quotient
//! was zero. The first such report ends the planning.

use crate::limbs::{lemma_modulus_positive, modulus, reciprocal_power, wrap};
use crate::number::Number;
use crate::series::{
    ataninv_value, lemma_exponent_bound, lemma_first_term, lemma_reciprocal_divide,
    lemma_reciprocal_power, lemma_series_limit_by_power, lemma_series_limit_by_term,
    lemma_series_tail, lemma_step_bound, lemma_term_from_reference, lemma_wrap_add, lemma_wrap_sub,
    precision_fits, series_sum, series_term,
};
use vstd::arithmetic::div_mod::*;
use vstd::arithmetic::power::*;
use vstd::prelude::*;

verus! {

/// What the quotient of a task is for.
#[derive(Clone, Copy, Debug, PartialEq, Eq, Structural)]
pub enum Task {
    /// The quotient is a series term, to be added to the result.
    UpdateTerm,
    /// The quotient is the next reference term.
    UpdateRef,
}

/// The sign and the divisor of a task.
#[derive(Clone, Copy, Debug, PartialEq, Eq, Structural)]
pub struct TaskParams {
    /// Whether the quotient is subtracted from the result.
    pub neg: bool,
    /// The divisor.
    pub div: u64,
}

/// The divisor of the series term that lies `i` steps past the reference
/// term of index `refidx`, relative to that reference term.
pub open spec fn batch_divisor(x2: nat, refidx: nat, i: nat) -> int {
    pow(x2 as int, i + 1) * (2 * (refidx + i) + 3)
}

/// A batch from the reference term of index `refidx` holds `len` series
/// terms: their divisors fit in 64 bits, and that of the next one does not.
pub open spec fn is_batch_length(x2: nat, refidx: nat, len: nat) -> bool {
    &&& forall|i: nat| i < len ==> #[trigger] batch_divisor(x2, refidx, i) <= u64::MAX
    &&& batch_divisor(x2, refidx, len) > u64::MAX
}

/// `div * x2 * (2 (refidx + i) + 3)`, where that fits in 64 bits.
fn full_divisor(x2: u64, div: u64, refidx: u64, i: u64) -> (r: Option<u64>)
    requires
        x2 >= 1,
        div >= 1,
    ensures
        r is Some <==> div * (x2 * (2 * (refidx + i) + 3)) <= u64::MAX,
        r matches Some(full) ==> full == div * (x2 * (2 * (refidx + i) + 3)),
{
    let k: u64 = match refidx.checked_add(i) {
        None => {
            return lost(x2, div, refidx, i);
        },
        Some(index) => match index.checked_mul(2) {
            None => {
                return lost(x2, div, refidx, i);
            },
            Some(twice) => match twice.checked_add(3) {
                None => {
                    return lost(x2, div, refidx, i);
                },
                Some(k) => k,
            },
        },
    };
    match x2.checked_mul(k) {
        None => lost(x2, div, refidx, i),
        Some(step) => div.checked_mul(step),
    }
}

/// No divisor: the odd factor, or its product with `x2`, is out of range
/// already, and so is the product with `div`.
fn lost(x2: u64, div: u64, refidx: u64, i: u64) -> (r: Option<u64>)
    requires
        2 * (refidx + i) + 3 > u64::MAX || x2 * (2 * (refidx + i) + 3) > u64::MAX,
        x2 >= 1,
        div >= 1,
    ensures
        r is None,
        div * (x2 * (2 * (refidx + i) + 3)) > u64::MAX,
{
    proof {
        let k = 2 * (refidx + i) + 3;
        let step = x2 * k;
        assert(step >= k) by (nonlinear_arith)
            requires
                step == x2 * k,
                x2 >= 1,
                k >= 0,
        ;
        assert(div * step >= step) by (nonlinear_arith)
            requires
                div >= 1,
                step >= 0,
        ;
    }
    None
}

/// Plans a batch from the reference term of index `refidx`: the divisors of
/// the series terms that follow it, as many as fit in 64 bits, and the power
/// of `x2` that takes the reference term past them.
pub fn divisor_batch(x2: u64, refidx: u64) -> (r: (Vec<u64>, u64))
    requires
        x2 >= 2,
    ensures
        r.0@.len() < 64,
        r.1 == pow(x2 as int, r.0@.len()),
        forall|i: int|
            0 <= i < r.0@.len() ==> r.0@[i] == batch_divisor(x2 as nat, refidx as nat, i as nat),
        batch_divisor(x2 as nat, refidx as nat, r.0@.len()) > u64::MAX,
        is_batch_length(x2 as nat, refidx as nat, r.0@.len()),
        refidx + r.0@.len() <= u64::MAX,
{
    let mut divs: Vec<u64> = Vec::new();
    let mut div: u64 = 1;
    let mut i: u64 = 0;
    proof {
        lemma_pow0(x2 as int);
    }
    let mut next: Option<u64> = full_divisor(x2, div, refidx, i);
    while next.is_some()
        invariant
            x2 >= 2,
            i < 64,
            refidx + i <= u64::MAX,
            div >= 1,
            div == pow(x2 as int, i as nat),
            divs@.len() == i,
            forall|j: int|
                0 <= j < i ==> divs@[j] == batch_divisor(x2 as nat, refidx as nat, j as nat),
            next is Some <==> div * (x2 * (2 * (refidx + i) + 3)) <= u64::MAX,
            next matches Some(full) ==> full == div * (x2 * (2 * (refidx + i) + 3)),
        decreases 64 - i,
    {
        let full: u64 = next.unwrap();
        proof {
            let k = 2 * (refidx + i) + 3;
            lemma_pow_adds(x2 as int, i as nat, 1);
            lemma_pow1(x2 as int);
            assert(div * (x2 * k) == (div * x2) * k) by (nonlinear_arith);
            assert(div * x2 <= (div * x2) * k) by (nonlinear_arith)
                requires
                    k >= 1,
                    div * x2 >= 0,
            ;
            assert(div * x2 >= 1) by (nonlinear_arith)
                requires
                    div >= 1,
                    x2 >= 2,
            ;
            assert(k <= (div * x2) * k) by (nonlinear_arith)
                requires
                    k >= 1,
                    div * x2 >= 1,
            ;
            lemma_step_bound(x2 as nat, (i + 1) as nat);
        }
        div = div * x2;
        divs.push(full);
        i += 1;
        next = full_divisor(x2, div, refidx, i);
    }
    proof {
        let k = 2 * (refidx + i) + 3;
        lemma_pow_adds(x2 as int, i as nat, 1);
        lemma_pow1(x2 as int);
        assert(div * (x2 * k) == (div * x2) * k) by (nonlinear_arith);
        assert forall|j: nat| j < divs@.len() implies #[trigger] batch_divisor(
            x2 as nat,
            refidx as nat,
            j,
        ) <= u64::MAX by {
            assert(divs@[j as int] == batch_divisor(x2 as nat, refidx as nat, j));
        }
    }
    (divs, div)
}

/// One division to do: a kind, a sign and divisor, and the fraction to
/// divide.
pub struct Job {
    task: Task,
    params: TaskParams,
    term: Number,
}

/// One division done: the job with its quotient in place of the fraction, and
/// whether the quotient is zero.
pub struct Answer {
    task: Task,
    params: TaskParams,
    term: Number,
    finished: bool,
}

impl Job {
    /// The divisor is not zero.
    #[verifier::type_invariant]
    spec fn inv(self) -> bool {
        self.params.div > 0
    }

    /// What the quotient is for.
    pub closed spec fn spec_task(&self) -> Task {
        self.task
    }

    /// The sign and the divisor.
    pub closed spec fn spec_params(&self) -> TaskParams {
        self.params
    }

    /// The fraction to divide.
    pub closed spec fn spec_term(&self) -> Number {
        self.term
    }

    /// A job from its parts.
    pub fn new(task: Task, params: TaskParams, term: Number) -> (job: Job)
        requires
            params.div > 0,
        ensures
            job.spec_task() == task,
            job.spec_params() == params,
            job.spec_term() == term,
    {
        Job { task, params, term }
    }

    /// What the quotient is for.
    pub fn task(&self) -> (r: Task)
        ensures
            r == self.spec_task(),
    {
        self.task
    }

    /// The sign and the divisor, which is never zero.
    pub fn params(&self) -> (r: TaskParams)
        ensures
            r == self.spec_params(),
            r.div > 0,
    {
        proof {
            use_type_invariant(self);
        }
        self.params
    }

    /// The fraction to divide.
    pub fn term(&self) -> (r: &Number)
        ensures
            *r == self.spec_term(),
    {
        &self.term
    }

    /// Does the division, in place.
    pub fn perform(self) -> (answer: Answer)
        ensures
            answer.spec_task() == self.spec_task(),
            answer.spec_params() == self.spec_params(),
            answer.spec_term()@.len() == self.spec_term()@.len(),
            answer.spec_term().value() == self.spec_term().value() / (
            self.spec_params().div as nat),
            answer.spec_term().zeros_exact(),
            answer.spec_finished() == (answer.spec_term().value() == 0),
    {
        proof {
            use_type_invariant(&self);
        }
        let Job { task, params, term } = self;
        let mut term: Number = term;
        term.div_assign(params.div);
        let finished: bool = term.is_zero();
        Answer { task, params, term, finished }
    }
}

impl Answer {
    /// What the quotient is for.
    pub closed spec fn spec_task(&self) -> Task {
        self.task
    }

    /// The sign and the divisor of the job.
    pub closed spec fn spec_params(&self) -> TaskParams {
        self.params
    }

    /// The quotient.
    pub closed spec fn spec_term(&self) -> Number {
        self.term
    }

    /// Whether the quotient was reported as zero.
    pub closed spec fn spec_finished(&self) -> bool {
        self.finished
    }

    /// An answer from its parts.
    pub fn new(task: Task, params: TaskParams, term: Number, finished: bool) -> (answer: Answer)
        ensures
            answer.spec_task() == task,
            answer.spec_params() == params,
            answer.spec_term() == term,
            answer.spec_finished() == finished,
    {
        Answer { task, params, term, finished }
    }

    /// What the quotient is for.
    pub fn task(&self) -> (r: Task)
        ensures
            r == self.spec_task(),
    {
        self.task
    }

    /// The sign and the divisor of the job.
    pub fn params(&self) -> (r: TaskParams)
        ensures
            r == self.spec_params(),
    {
        self.params
    }

    /// The quotient.
    pub fn term(&self) -> (r: &Number)
        ensures
            *r == self.spec_term(),
    {
        &self.term
    }

    /// Whether the quotient was reported as zero.
    pub fn finished(&self) -> (r: bool)
        ensures
            r == self.spec_finished(),
    {
        self.finished
    }
}

/// Every fraction of `terms` has `n` limbs.
pub open spec fn all_of_precision(terms: Seq<Number>, n: nat) -> bool {
    forall|i: int| 0 <= i < terms.len() ==> (#[trigger] terms[i])@.len() == n
}

/// The dispatcher of the batched series: the result, the reference term with
/// its index, the free fractions, and what is under way.
pub struct BatchDispatcher {
    /// `x * x`.
    x2: u64,
    /// The sum of the series terms that have come in.
    result: Number,
    /// The reference term, `1 / x^(2 refidx + 1)` once its update has come in.
    refterm: Number,
    /// The index of the last series term that has been planned.
    refidx: u64,
    /// The fractions that are free for the next jobs.
    terms: Vec<Number>,
    /// Whether the update of the reference term is still out.
    awaiting_nextrefterm: bool,
    /// Whether the series term planned last is subtracted.
    neg: bool,
    /// Whether no quotient of zero has been reported yet.
    running: bool,
    /// How many jobs are out and not answered.
    tasks: usize,
}

impl BatchDispatcher {
    /// `x * x`.
    pub closed spec fn spec_x2(&self) -> nat {
        self.x2 as nat
    }

    /// The sum of the series terms that have come in.
    pub closed spec fn spec_result(&self) -> Number {
        self.result
    }

    /// The reference term.
    pub closed spec fn spec_refterm(&self) -> Number {
        self.refterm
    }

    /// The index of the last series term that has been planned.
    pub closed spec fn spec_refidx(&self) -> nat {
        self.refidx as nat
    }

    /// The fractions that are free.
    pub closed spec fn spec_terms(&self) -> Seq<Number> {
        self.terms@
    }

    /// Whether the update of the reference term is still out.
    pub closed spec fn spec_awaiting(&self) -> bool {
        self.awaiting_nextrefterm
    }

    /// Whether the series term planned last is subtracted.
    pub closed spec fn spec_neg(&self) -> bool {
        self.neg
    }

    /// Whether no quotient of zero has been reported yet.
    pub closed spec fn spec_running(&self) -> bool {
        self.running
    }

    /// How many jobs are out and not answered.
    pub closed spec fn spec_tasks(&self) -> nat {
        self.tasks as nat
    }

    /// The number of limbs.
    pub open spec fn precision(&self) -> nat {
        self.spec_refterm()@.len()
    }

    /// The result and every free fraction have the precision of the
    /// reference term, and `x * x` is at least 2.
    pub open spec fn wf(&self) -> bool {
        &&& self.spec_x2() >= 2
        &&& self.spec_result()@.len() == self.precision()
        &&& all_of_precision(self.spec_terms(), self.precision())
    }

    /// Whether `answer` can be the answer to a job of this dispatcher: a job
    /// is out, and the quotient has the dispatcher's precision.
    pub open spec fn spec_accepts(&self, answer: Answer) -> bool {
        self.spec_tasks() > 0 && answer.spec_term()@.len() == self.precision()
    }

    /// The sign of the series term `i` steps past a term of sign `neg`.
    pub open spec fn sign_after(neg: bool, i: nat) -> bool {
        if i % 2 == 0 {
            neg
        } else {
            !neg
        }
    }

    /// The number of series terms in a batch of `jobs`: all jobs but the first
    /// one, which moves the reference term.
    pub open spec fn planned(jobs: Seq<Job>) -> nat {
        if jobs.len() == 0 {
            0
        } else {
            (jobs.len() - 1) as nat
        }
    }

    /// Whether a batch is planned in the next turn: no quotient of zero has
    /// come yet, the reference term is up to date, and the jobs of one more
    /// batch can still be counted.
    pub open spec fn plans(&self) -> bool {
        &&& self.spec_running()
        &&& !self.spec_awaiting()
        &&& self.spec_tasks() + 64 <= usize::MAX
    }

    /// The result and the reference term are those of `before` with `answer`
    /// taken in: the quotient of a reference update has become the reference
    /// term, that of a series term has been added to the result or
    /// subtracted from it.
    pub open spec fn absorbed(&self, before: BatchDispatcher, answer: Answer) -> bool {
        &&& answer.spec_term()@.len() == before.precision()
        &&& answer.spec_task() == Task::UpdateRef ==> {
            &&& self.spec_refterm()@ == answer.spec_term()@
            &&& self.spec_result() == before.spec_result()
        }
        &&& answer.spec_task() == Task::UpdateTerm ==> {
            &&& self.spec_refterm() == before.spec_refterm()
            &&& self.spec_result()@.len() == before.precision()
            &&& self.spec_result().value() == wrap(
                if answer.spec_params().neg {
                    before.spec_result().value() - answer.spec_term().value()
                } else {
                    (before.spec_result().value() + answer.spec_term().value()) as int
                },
                before.precision(),
            )
        }
    }

    /// A dispatcher for `atan(1/x)` in `n` limbs: the result and the
    /// reference term start as `1 / x`.
    pub fn new(x: u64, n: usize) -> (d: BatchDispatcher)
        requires
            2 <= x <= u32::MAX,
        ensures
            d.wf(),
            d.spec_x2() == x * x,
            d.precision() == n,
            d.spec_result().value() == crate::limbs::modulus(n as nat) / (x as nat),
            d.spec_refterm()@ == d.spec_result()@,
            d.spec_result().zeros_exact(),
            d.spec_refidx() == 0,
            d.spec_terms().len() == 0,
            !d.spec_awaiting(),
            !d.spec_neg(),
            d.spec_running(),
            d.spec_tasks() == 0,
    {
        assert(4 <= x * x <= u64::MAX) by (nonlinear_arith)
            requires
                2 <= x <= u32::MAX,
        ;
        let result: Number = Number::from_inv(x, n);
        let refterm: Number = result.clone();
        BatchDispatcher {
            x2: x * x,
            result,
            refterm,
            refidx: 0,
            terms: Vec::new(),
            awaiting_nextrefterm: false,
            neg: false,
            running: true,
            tasks: 0,
        }
    }

    /// Whether the next batch is due: no quotient of zero has come yet, and
    /// the reference term is up to date.
    pub fn wants_batch(&self) -> (r: bool)
        ensures
            r == (self.spec_running() && !self.spec_awaiting()),
    {
        self.running && !self.awaiting_nextrefterm
    }

    /// Whether the run is over: a quotient of zero has come, and no job is
    /// out.
    pub fn is_done(&self) -> (r: bool)
        ensures
            r == (!self.spec_running() && self.spec_tasks() == 0),
    {
        !self.running && self.tasks == 0
    }

    /// How many jobs are out and not answered.
    pub fn tasks(&self) -> (r: usize)
        ensures
            r == self.spec_tasks(),
    {
        self.tasks
    }

    /// The result so far.
    pub fn result(&self) -> (r: &Number)
        ensures
            *r == self.spec_result(),
    {
        &self.result
    }

    /// The reference term.
    pub fn refterm(&self) -> (r: &Number)
        ensures
            *r == self.spec_refterm(),
    {
        &self.refterm
    }

    /// Ends the run and gives the result.
    pub fn into_result(self) -> (r: Number)
        ensures
            r == self.spec_result(),
    {
        self.result
    }

    /// A free fraction, or a new one, holding a copy of the reference term.
    fn workspace(&mut self) -> (term: Number)
        requires
            old(self).wf(),
        ensures
            final(self).wf(),
            term@ == old(self).spec_refterm()@,
            final(self).spec_terms() == old(self).spec_terms().take(
                if old(self).spec_terms().len() > 0 {
                    old(self).spec_terms().len() - 1
                } else {
                    0
                },
            ),
            final(self).spec_x2() == old(self).spec_x2(),
            final(self).spec_result() == old(self).spec_result(),
            final(self).spec_refterm() == old(self).spec_refterm(),
            final(self).spec_refidx() == old(self).spec_refidx(),
            final(self).spec_awaiting() == old(self).spec_awaiting(),
            final(self).spec_neg() == old(self).spec_neg(),
            final(self).spec_running() == old(self).spec_running(),
            final(self).spec_tasks() == old(self).spec_tasks(),
    {
        let ghost pool = self.terms@;
        let mut term: Number = match self.terms.pop() {
            Some(free) => {
                assert(free == pool[pool.len() - 1]);
                free
            },
            None => Number::zero(self.refterm.len()),
        };
        term.copy_from(&self.refterm);
        assert forall|i: int| 0 <= i < self.terms@.len() implies (#[trigger] self.terms@[i])@.len()
            == self.precision() by {
            assert(self.terms@[i] == pool[i]);
        }
        assert(self.terms@ =~= pool.take(
            if pool.len() > 0 {
                pool.len() - 1
            } else {
                0
            },
        ));
        term
    }

    /// Plans the next batch.
    ///
    /// The first job moves the reference term past the batch; the others are
    /// the series terms of the batch in order, each on a copy of the
    /// reference term as it stands, with alternating signs. Where not even
    /// the next series term has a divisor of 64 bits there is no batch, and
    /// the planning ends.
    pub fn start_batch(&mut self) -> (jobs: Vec<Job>)
        requires
            old(self).wf(),
            old(self).spec_running(),
            !old(self).spec_awaiting(),
            old(self).spec_tasks() + 64 <= usize::MAX,
        ensures
            final(self).wf(),
            final(self).spec_x2() == old(self).spec_x2(),
            final(self).spec_result() == old(self).spec_result(),
            final(self).spec_refterm() == old(self).spec_refterm(),
            final(self).spec_terms() == old(self).spec_terms().take(
                if old(self).spec_terms().len() > jobs@.len() {
                    old(self).spec_terms().len() - jobs@.len()
                } else {
                    0
                },
            ),
            jobs@.len() <= 64,
            is_batch_length(old(self).spec_x2(), old(self).spec_refidx(), Self::planned(jobs@)),
            final(self).spec_refidx() == old(self).spec_refidx() + Self::planned(jobs@),
            final(self).spec_neg() == Self::sign_after(old(self).spec_neg(), Self::planned(jobs@)),
            batch_divisor(old(self).spec_x2(), old(self).spec_refidx(), 0) > u64::MAX ==> {
                &&& jobs@.len() == 0
                &&& !final(self).spec_running()
                &&& final(self).spec_refidx() == old(self).spec_refidx()
                &&& final(self).spec_awaiting() == old(self).spec_awaiting()
                &&& final(self).spec_neg() == old(self).spec_neg()
                &&& final(self).spec_tasks() == old(self).spec_tasks()
            },
            batch_divisor(old(self).spec_x2(), old(self).spec_refidx(), 0) <= u64::MAX ==> {
                &&& jobs@.len() >= 2
                &&& final(self).spec_running()
                &&& final(self).spec_awaiting()
                &&& final(self).spec_refidx() == old(self).spec_refidx() + jobs@.len() - 1
                &&& final(self).spec_neg() == Self::sign_after(
                    old(self).spec_neg(),
                    (jobs@.len() - 1) as nat,
                )
                &&& final(self).spec_tasks() == old(self).spec_tasks() + jobs@.len()
                &&& jobs@[0].spec_task() == Task::UpdateRef
                &&& jobs@[0].spec_params() == (TaskParams {
                    neg: false,
                    div: pow(old(self).spec_x2() as int, (jobs@.len() - 1) as nat) as u64,
                })
                &&& pow(old(self).spec_x2() as int, (jobs@.len() - 1) as nat) <= u64::MAX
                &&& batch_divisor(
                    old(self).spec_x2(),
                    old(self).spec_refidx(),
                    (jobs@.len() - 1) as nat,
                ) > u64::MAX
                &&& forall|i: int|
                    0 <= i < jobs@.len() ==> (#[trigger] jobs@[i]).spec_term()@ == old(
                        self,
                    ).spec_refterm()@
                &&& forall|i: int|
                    1 <= i < jobs@.len() ==> {
                        &&& (#[trigger] jobs@[i]).spec_task() == Task::UpdateTerm
                        &&& jobs@[i].spec_params().neg == Self::sign_after(
                            old(self).spec_neg(),
                            i as nat,
                        )
                        &&& jobs@[i].spec_params().div == batch_divisor(
                            old(self).spec_x2(),
                            old(self).spec_refidx(),
                            (i - 1) as nat,
                        )
                    }
            },
    {
        let ghost start = *self;
        let ghost x2 = self.x2 as nat;
        let ghost refidx = self.refidx as nat;
        let (divs, div) = divisor_batch(self.x2, self.refidx);
        let mut jobs: Vec<Job> = Vec::new();
        let len: usize = divs.len();
        if len == 0 {
            self.running = false;
            assert(self.terms@ =~= start.spec_terms().take(start.spec_terms().len() as int));
            return jobs;
        }
        proof {
            lemma_pow_positive(x2 as int, len as nat);
            assert(batch_divisor(x2, refidx, 0) == divs@[0]);
        }
        let term: Number = self.workspace();
        jobs.push(Job::new(Task::UpdateRef, TaskParams { neg: false, div }, term));
        let mut i: usize = 0;
        while i < len
            invariant
                i <= len,
                len == divs@.len(),
                len < 64,
                self.wf(),
                self.spec_x2() == x2,
                self.spec_result() == start.spec_result(),
                self.spec_refterm() == start.spec_refterm(),
                self.spec_refidx() == refidx,
                self.spec_awaiting() == start.spec_awaiting(),
                self.spec_running() == start.spec_running(),
                self.spec_tasks() == start.spec_tasks(),
                self.spec_neg() == Self::sign_after(start.spec_neg(), i as nat),
                self.spec_terms() == start.spec_terms().take(
                    if start.spec_terms().len() > i + 1 {
                        start.spec_terms().len() - (i + 1)
                    } else {
                        0
                    },
                ),
                forall|j: int|
                    0 <= j < len ==> divs@[j] == batch_divisor(x2, refidx, j as nat),
                jobs@.len() == i + 1,
                jobs@[0].spec_task() == Task::UpdateRef,
                jobs@[0].spec_params() == (TaskParams { neg: false, div }),
                forall|j: int|
                    0 <= j < jobs@.len() ==> (#[trigger] jobs@[j]).spec_term()@
                        == start.spec_refterm()@,
                forall|j: int|
                    1 <= j < jobs@.len() ==> {
                        &&& (#[trigger] jobs@[j]).spec_task() == Task::UpdateTerm
                        &&& jobs@[j].spec_params().neg == Self::sign_after(
                            start.spec_neg(),
                            j as nat,
                        )
                        &&& jobs@[j].spec_params().div == batch_divisor(
                            x2,
                            refidx,
                            (j - 1) as nat,
                        )
                    },
            decreases len - i,
        {
            self.neg = !self.neg;
            let term: Number = self.workspace();
            proof {
                let k = (2 * (refidx + i) + 3) as int;
                lemma_pow_positive(x2 as int, (i + 1) as nat);
                assert(pow(x2 as int, (i + 1) as nat) * k > 0) by (nonlinear_arith)
                    requires
                        pow(x2 as int, (i + 1) as nat) > 0,
                        k > 0,
                ;
            }
            jobs.push(Job::new(Task::UpdateTerm, TaskParams { neg: self.neg, div: divs[i] }, term));
            i += 1;
        }
        self.refidx = self.refidx + len as u64;
        self.awaiting_nextrefterm = true;
        self.tasks = self.tasks + (len + 1);
        jobs
    }

    /// Whether `answer` can be the answer to a job of this dispatcher.
    pub fn accepts(&self, answer: &Answer) -> (r: bool)
        requires
            self.wf(),
        ensures
            r == self.spec_accepts(*answer),
    {
        self.tasks > 0 && answer.term().len() == self.refterm.len()
    }

    /// Takes an answer in. The quotient of a reference update becomes the
    /// reference term; that of a series term is added to the result, or
    /// subtracted from it. A report of a zero quotient ends the planning.
    /// The fraction of the answer is free again.
    pub fn on_answer(&mut self, answer: Answer)
        requires
            old(self).wf(),
            old(self).spec_accepts(answer),
        ensures
            final(self).wf(),
            final(self).precision() == old(self).precision(),
            final(self).spec_x2() == old(self).spec_x2(),
            final(self).spec_refidx() == old(self).spec_refidx(),
            final(self).spec_neg() == old(self).spec_neg(),
            final(self).spec_tasks() == old(self).spec_tasks() - 1,
            final(self).spec_running() == (old(self).spec_running() && !answer.spec_finished()),
            final(self).spec_terms() == old(self).spec_terms().push(answer.spec_term()),
            answer.spec_task() == Task::UpdateRef ==> {
                &&& final(self).spec_refterm()@ == answer.spec_term()@
                &&& final(self).spec_refterm().cached_zeros() == answer.spec_term().cached_zeros()
                &&& !final(self).spec_awaiting()
                &&& final(self).spec_result() == old(self).spec_result()
            },
            answer.spec_task() == Task::UpdateTerm ==> {
                &&& final(self).spec_refterm() == old(self).spec_refterm()
                &&& final(self).spec_awaiting() == old(self).spec_awaiting()
                &&& final(self).spec_result()@.len() == old(self).precision()
                &&& final(self).spec_result().zeros_exact()
                &&& final(self).spec_result().value() == wrap(
                    if answer.spec_params().neg {
                        old(self).spec_result().value() - answer.spec_term().value()
                    } else {
                        (old(self).spec_result().value() + answer.spec_term().value()) as int
                    },
                    old(self).precision(),
                )
            },
    {
        let Answer { task, params, term, finished } = answer;
        self.tasks = self.tasks - 1;
        if finished {
            self.running = false;
        }
        match task {
            Task::UpdateRef => {
                self.refterm.copy_from(&term);
                self.awaiting_nextrefterm = false;
            },
            Task::UpdateTerm => {
                if params.neg {
                    self.result.sub_assign(&term);
                } else {
                    self.result.add_assign(&term);
                }
            },
        }
        self.terms.push(term);
    }

    /// Takes in what came for the dispatcher, if it is an answer that the
    /// dispatcher accepts, and says whether it did. Where nothing came, or
    /// an answer that fits no job, the dispatcher stays as it is.
    pub fn take_in(&mut self, taken: Option<Answer>) -> (took: bool)
        requires
            old(self).wf(),
        ensures
            final(self).wf(),
            final(self).precision() == old(self).precision(),
            final(self).spec_x2() == old(self).spec_x2(),
            final(self).spec_refidx() == old(self).spec_refidx(),
            final(self).spec_neg() == old(self).spec_neg(),
            took == (taken matches Option::Some(answer) && old(self).spec_accepts(answer)),
            !took ==> *final(self) == *old(self),
            took ==> {
                &&& final(self).absorbed(*old(self), taken->0)
                &&& final(self).spec_tasks() == old(self).spec_tasks() - 1
                &&& final(self).spec_running() == (old(self).spec_running() && !(
                taken->0).spec_finished())
                &&& final(self).spec_terms() == old(self).spec_terms().push((taken->0).spec_term())
                &&& (taken->0).spec_task() == Task::UpdateRef ==> !final(self).spec_awaiting()
                &&& (taken->0).spec_task() == Task::UpdateTerm ==> final(self).spec_awaiting()
                    == old(self).spec_awaiting()
            },
    {
        match taken {
            None => false,
            Some(answer) => {
                if self.accepts(&answer) {
                    self.on_answer(answer);
                    true
                } else {
                    false
                }
            },
        }
    }

    /// Gives up a job that could not be delivered.
    pub fn undelivered(&mut self)
        requires
            old(self).wf(),
            old(self).spec_tasks() > 0,
        ensures
            final(self).wf(),
            final(self).spec_x2() == old(self).spec_x2(),
            final(self).spec_result() == old(self).spec_result(),
            final(self).spec_refterm() == old(self).spec_refterm(),
            final(self).spec_refidx() == old(self).spec_refidx(),
            final(self).spec_terms() == old(self).spec_terms(),
            final(self).spec_awaiting() == old(self).spec_awaiting(),
            final(self).spec_neg() == old(self).spec_neg(),
            final(self).spec_running() == old(self).spec_running(),
            final(self).spec_tasks() == old(self).spec_tasks() - 1,
    {
        self.tasks = self.tasks - 1;
    }
}

/// A power of `x * x` is a power of `x` with twice the exponent.
pub proof fn lemma_square_power(x: nat, i: nat)
    ensures
        pow((x * x) as int, i) == pow(x as int, 2 * i),
{
    lemma_pow_adds(x as int, 1, 1);
    lemma_pow1(x as int);
    lemma_pow_multiplies(x as int, 2, i);
}

/// The series term `i` steps past the reference term of index `r`, cut from
/// that reference term by its batch divisor.
pub proof fn lemma_batch_term(x: nat, n: nat, r: nat, i: nat)
    requires
        x >= 2,
        i >= 1,
    ensures
        batch_divisor(x * x, r, (i - 1) as nat) > 0,
        reciprocal_power(x, n, 2 * r + 1) as int / batch_divisor(x * x, r, (i - 1) as nat)
            == series_term(x, n, r + i),
{
    let s = pow((x * x) as int, i);
    let k = (2 * (r + i) + 1) as int;
    lemma_square_power(x, i);
    lemma_pow_positive(x as int, 2 * i);
    lemma_pow_adds(x as int, 2 * r + 1, 2 * i);
    lemma_term_from_reference(x, n, 2 * r + 1, r + i, s as nat);
    assert(s * k == k * s) by (nonlinear_arith);
    assert(s * k > 0) by (nonlinear_arith)
        requires
            s > 0,
            k > 0,
    ;
}

/// The reference term of index `r`, moved `len` steps on.
pub proof fn lemma_batch_reference(x: nat, n: nat, r: nat, len: nat)
    requires
        x >= 2,
    ensures
        pow((x * x) as int, len) > 0,
        reciprocal_power(x, n, 2 * r + 1) as int / pow((x * x) as int, len) == reciprocal_power(
            x,
            n,
            2 * (r + len) + 1,
        ),
{
    let d = pow((x * x) as int, len);
    lemma_square_power(x, len);
    lemma_pow_positive(x as int, 2 * len);
    lemma_pow_adds(x as int, 2 * r + 1, 2 * len);
    lemma_reciprocal_divide(x, n, 2 * r + 1, 2 * (r + len) + 1, d as nat);
}

/// `atan(1/x)` in `n` limbs, by batches: the dispatcher plans, the jobs are
/// done one after the other on the calling thread, and their answers are
/// taken in as they come.
///
/// The base and the precision have to leave every odd factor times `x * x`
/// within 64 bits, so that no batch is empty before the series has run out.
pub fn ataninv_batched(x: u64, n: usize) -> (result: Number)
    requires
        2 <= x <= u32::MAX,
        precision_fits(n as nat),
        x * x * (64 * n + 66) <= u64::MAX,
    ensures
        result@.len() == n,
        result.value() == ataninv_value(x as nat, n as nat),
{
    let mut dispatcher: BatchDispatcher = BatchDispatcher::new(x, n);
    proof {
        lemma_first_term(x as nat, n as nat);
        lemma_reciprocal_power(x as nat, n as nat, 1);
        lemma_pow1(x as int);
    }
    while dispatcher.wants_batch()
        invariant
            2 <= x <= u32::MAX,
            precision_fits(n as nat),
            x * x * (64 * n + 66) <= u64::MAX,
            dispatcher.wf(),
            dispatcher.spec_x2() == x * x,
            dispatcher.precision() == n,
            dispatcher.spec_tasks() == 0,
            !dispatcher.spec_awaiting(),
            dispatcher.spec_refterm().value() == reciprocal_power(
                x as nat,
                n as nat,
                2 * dispatcher.spec_refidx() + 1,
            ),
            dispatcher.spec_result().value() == wrap(
                series_sum(x as nat, n as nat, dispatcher.spec_refidx()),
                n as nat,
            ),
            dispatcher.spec_neg() == (dispatcher.spec_refidx() % 2 == 1),
            dispatcher.spec_running() ==> dispatcher.spec_refterm().value() > 0
                || dispatcher.spec_refidx() == 0,
            !dispatcher.spec_running() ==> dispatcher.spec_refterm().value() == 0 || series_term(
                x as nat,
                n as nat,
                dispatcher.spec_refidx(),
            ) == 0,
        decreases
                (if dispatcher.spec_running() {
                    1nat
                } else {
                    0nat
                }),
                dispatcher.spec_refterm().value(),
    {
        let ghost r0 = dispatcher.spec_refidx();
        let ghost before = dispatcher.spec_refterm().value();
        let ghost neg0 = dispatcher.spec_neg();
        proof {
            // The next series term has a divisor of 64 bits.
            let e = 2 * r0 + 1;
            if before > 0 {
                let m = modulus(n as nat) as int;
                let p = pow(x as int, e);
                lemma_reciprocal_power(x as nat, n as nat, e);
                lemma_pow_positive(x as int, e);
                if p > m {
                    lemma_basic_div(m, p);
                }
                lemma_exponent_bound(x as nat, n as nat, e);
            }
            lemma_pow1((x * x) as int);
            let k = (2 * r0 + 3) as int;
            assert((x * x) * k <= x * x * (64 * n + 66)) by (nonlinear_arith)
                requires
                    0 <= k <= 64 * n + 66,
                    x >= 0,
            ;
        }
        let mut jobs: Vec<Job> = dispatcher.start_batch();
        let ghost all = jobs@;
        let ghost len = (all.len() - 1) as nat;
        let mut done: usize = 0;
        proof {
            lemma_pow_positive((x * x) as int, len);
        }
        while jobs.len() > 0
            invariant
                2 <= x <= u32::MAX,
                len >= 1,
                all.len() == len + 1,
                all.len() <= 64,
                done <= len + 1,
                jobs@ == all.skip(done as int),
                all[0].spec_task() == Task::UpdateRef,
                all[0].spec_params().div == pow((x * x) as int, len),
                forall|i: int| 0 <= i < all.len() ==> (#[trigger] all[i]).spec_term()@.len() == n,
                forall|i: int| 0 <= i < all.len() ==> (#[trigger] all[i]).spec_term().value()
                    == before,
                forall|i: int|
                    1 <= i < all.len() ==> {
                        &&& (#[trigger] all[i]).spec_task() == Task::UpdateTerm
                        &&& all[i].spec_params().neg == BatchDispatcher::sign_after(neg0, i as nat)
                        &&& all[i].spec_params().div == batch_divisor(
                            (x * x) as nat,
                            r0,
                            (i - 1) as nat,
                        )
                    },
                before == reciprocal_power(x as nat, n as nat, 2 * r0 + 1),
                neg0 == (r0 % 2 == 1),
                dispatcher.wf(),
                dispatcher.spec_x2() == x * x,
                dispatcher.precision() == n,
                dispatcher.spec_refidx() == r0 + len,
                dispatcher.spec_neg() == BatchDispatcher::sign_after(neg0, len),
                dispatcher.spec_tasks() == len + 1 - done,
                done == 0 ==> dispatcher.spec_awaiting() && dispatcher.spec_running(),
                done >= 1 ==> !dispatcher.spec_awaiting() && dispatcher.spec_refterm().value()
                    == reciprocal_power(x as nat, n as nat, 2 * (r0 + len) + 1),
                done >= 1 ==> before > 0 ==> dispatcher.spec_refterm().value() < before,
                done >= 1 ==> before == 0 ==> dispatcher.spec_refterm().value() == 0,
                dispatcher.spec_result().value() == wrap(
                    series_sum(
                        x as nat,
                        n as nat,
                        if done >= 1 {
                            (r0 + done - 1) as nat
                        } else {
                            r0
                        },
                    ),
                    n as nat,
                ),
                !dispatcher.spec_running() ==> done >= 1 && (dispatcher.spec_refterm().value() == 0
                    || (done >= 2 && series_term(x as nat, n as nat, (r0 + done - 1) as nat)
                    == 0)),
                dispatcher.spec_running() ==> done == 0 || dispatcher.spec_refterm().value() > 0,
            decreases jobs@.len(),
        {
            let ghost sum_before = series_sum(
                x as nat,
                n as nat,
                if done >= 1 {
                    (r0 + done - 1) as nat
                } else {
                    r0
                },
            );
            let job: Job = jobs.remove(0);
            assert(job == all[done as int]);
            assert(jobs@ =~= all.skip(done + 1));
            proof {
                if done == 0 {
                    lemma_batch_reference(x as nat, n as nat, r0, len);
                    if before > 0 {
                        lemma_square_power(x as nat, len);
                        lemma_pow_increases(x as nat, 1, 2 * len);
                        lemma_pow1(x as int);
                        lemma_div_decreases(before as int, pow((x * x) as int, len));
                    }
                } else {
                    lemma_batch_term(x as nat, n as nat, r0, done as nat);
                    if done >= 2 && series_term(x as nat, n as nat, (r0 + done - 1) as nat) == 0 {
                        lemma_series_tail(
                            x as nat,
                            n as nat,
                            (r0 + done - 1) as nat,
                            r0 + done as nat,
                        );
                    }
                }
            }
            let answer: Answer = job.perform();
            proof {
                if done >= 1 {
                    if answer.spec_params().neg {
                        lemma_wrap_sub(sum_before, answer.spec_term().value() as int, n as nat);
                    } else {
                        lemma_wrap_add(sum_before, answer.spec_term().value() as int, n as nat);
                    }
                }
            }
            dispatcher.on_answer(answer);
            done += 1;
        }
        assert(done == len + 1);
    }
    proof {
        let r = dispatcher.spec_refidx();
        if dispatcher.spec_refterm().value() == 0 {
            lemma_series_limit_by_power(x as nat, n as nat, 2 * r + 1, r);
        } else {
            lemma_series_limit_by_term(x as nat, n as nat, r);
        }
    }
    dispatcher.into_result()
}

} // verus!
