//! The dispatcher and its workers, as state machines.
//!
//! The dispatcher owns the reference term, the result and a small pool of
//! reusable terms. It hands out tasks: a sign, a divisor and a term. A worker
//! divides the term by the divisor and adds or subtracts the quotient to its
//! own partial sum, then hands the term back. The first quotient that is zero
//! retires the worker: it hands in its partial sum, once, and takes no more
//! tasks. When every worker has retired and every partial sum has been added
//! to the result, the dispatcher is finished.
//!
//! Nothing here waits or sends. Whoever runs the machines moves tasks and
//! messages between them, in any order and on any number of threads.

use crate::limbs::{reciprocal_power, wrap};
use crate::number::Number;
use crate::reference::Reference;
use crate::series::{precision_fits, series_term};
use crate::term::Term;
use vstd::prelude::*;

verus! {

/// One work item: divide `term` by `divisor`, and subtract the quotient if
/// `neg`, else add it.
pub struct Task {
    neg: bool,
    divisor: u64,
    term: Term,
}

/// What a worker sends back.
pub enum Msg {
    /// The partial sum of a worker that has retired.
    Number(Number),
    /// A term that is free again.
    Term(Term),
}

/// What the dispatcher can do next.
#[derive(Clone, Copy, Debug, PartialEq, Eq, Structural)]
pub enum Phase {
    /// A term is free: the next task can be handed out.
    Issuing,
    /// No term is free: a message from a worker is needed first.
    Draining,
    /// Every worker has retired and its partial sum is in the result.
    Finished,
}

impl Task {
    /// The divisor is not zero.
    #[verifier::type_invariant]
    spec fn inv(self) -> bool {
        self.divisor > 0
    }

    /// Whether the quotient is subtracted.
    pub closed spec fn spec_neg(&self) -> bool {
        self.neg
    }

    /// The divisor.
    pub closed spec fn spec_divisor(&self) -> nat {
        self.divisor as nat
    }

    /// The term to divide.
    pub closed spec fn spec_term(&self) -> Term {
        self.term
    }

    /// The number of limbs of the term.
    pub open spec fn precision(&self) -> nat {
        self.spec_term().spec_val()@.len()
    }

    /// The numerator of what the task contributes, without its sign.
    pub open spec fn quotient(&self) -> nat {
        self.spec_term().spec_val().value() / self.spec_divisor()
    }

    /// A task from its parts.
    pub fn new(neg: bool, divisor: u64, term: Term) -> (t: Task)
        requires
            divisor > 0,
        ensures
            t.spec_neg() == neg,
            t.spec_divisor() == divisor,
            t.spec_term() == term,
    {
        Task { neg, divisor, term }
    }

    /// Whether the quotient is subtracted.
    pub fn neg(&self) -> (r: bool)
        ensures
            r == self.spec_neg(),
    {
        self.neg
    }

    /// The divisor, which is never zero.
    pub fn divisor(&self) -> (d: u64)
        ensures
            d == self.spec_divisor(),
            d > 0,
    {
        proof {
            use_type_invariant(self);
        }
        self.divisor
    }

    /// The term to divide.
    pub fn term(&self) -> (t: &Term)
        ensures
            *t == self.spec_term(),
    {
        &self.term
    }
}

/// A worker: a partial sum and a scratch buffer.
pub struct Worker {
    /// The partial sum of the quotients so far.
    result: Number,
    /// The quotient of the task at hand.
    tmp: Number,
    /// Whether the partial sum has been handed in.
    retired: bool,
}

impl Worker {
    /// The numerator of the partial sum.
    pub closed spec fn sum(&self) -> nat {
        self.result.value()
    }

    /// The number of limbs that the worker computes in.
    pub closed spec fn precision(&self) -> nat {
        self.tmp@.len()
    }

    /// Whether the worker has handed in its partial sum.
    pub closed spec fn spec_retired(&self) -> bool {
        self.retired
    }

    /// A worker that has not retired holds a partial sum of its precision.
    pub closed spec fn wf(&self) -> bool {
        !self.retired ==> self.result@.len() == self.tmp@.len()
    }

    /// A worker with an empty partial sum of `n` limbs.
    pub fn new(n: usize) -> (w: Worker)
        ensures
            w.wf(),
            w.sum() == 0,
            w.precision() == n,
            !w.spec_retired(),
    {
        Worker { result: Number::zero(n), tmp: Number::zero(n), retired: false }
    }

    /// Whether the worker has handed in its partial sum.
    pub fn is_retired(&self) -> (r: bool)
        ensures
            r == self.spec_retired(),
    {
        self.retired
    }

    /// The number of limbs that the worker computes in.
    pub fn len(&self) -> (n: usize)
        ensures
            n == self.precision(),
    {
        self.tmp.len()
    }

    /// How a worker and its message follow from a task: `after` and `msg` are
    /// what `before` makes of `task`.
    ///
    /// A quotient that is not zero has gone into the partial sum, and the
    /// message is the term of the task. A quotient of zero has retired the
    /// worker, and the message is its partial sum as it stood.
    pub open spec fn worked_off(before: Worker, task: Task, after: Worker, msg: Msg) -> bool {
        &&& after.wf()
        &&& after.precision() == before.precision()
        &&& task.quotient() == 0 ==> {
            &&& after.spec_retired()
            &&& after.sum() == 0
            &&& msg matches Msg::Number(partial)
            &&& partial.value() == before.sum()
            &&& partial@.len() == before.precision()
        }
        &&& task.quotient() != 0 ==> {
            &&& !after.spec_retired()
            &&& msg matches Msg::Term(term)
            &&& term == task.spec_term()
            &&& after.sum() == wrap(
                if task.spec_neg() {
                    before.sum() - task.quotient()
                } else {
                    (before.sum() + task.quotient()) as int
                },
                before.precision(),
            )
        }
    }

    /// Whether the worker works off what came for it: it has not retired,
    /// a task came, and the task is of the worker's precision.
    pub open spec fn takes(&self, taken: Option<Task>) -> bool {
        &&& !self.spec_retired()
        &&& taken matches Option::Some(task)
        &&& task.precision() == self.precision()
    }

    /// Works off what came for the worker, if it is a task that the worker
    /// takes, and gives the message to send back. Where nothing came, or a
    /// task of another precision, or the worker has retired, there is no
    /// message and the worker stays as it is.
    pub fn answer(&mut self, taken: Option<Task>) -> (reply: Option<Msg>)
        requires
            old(self).wf(),
        ensures
            final(self).wf(),
            reply is Some <==> old(self).takes(taken),
            !old(self).takes(taken) ==> *final(self) == *old(self),
            old(self).takes(taken) ==> Worker::worked_off(
                *old(self),
                taken->0,
                *final(self),
                reply->0,
            ),
    {
        if self.retired {
            return None;
        }
        match taken {
            None => None,
            Some(task) => {
                if task.term().val().len() != self.tmp.len() {
                    return None;
                }
                Some(self.process(task))
            },
        }
    }

    /// Works off one task.
    ///
    /// A quotient that is not zero goes into the partial sum, and the term
    /// comes back. A quotient of zero retires the worker: its partial sum
    /// comes back instead, as it stood.
    pub fn process(&mut self, task: Task) -> (msg: Msg)
        requires
            old(self).wf(),
            !old(self).spec_retired(),
            task.precision() == old(self).precision(),
        ensures
            Worker::worked_off(*old(self), task, *final(self), msg),
            final(self).wf(),
            final(self).precision() == old(self).precision(),
            task.quotient() == 0 ==> {
                &&& final(self).spec_retired()
                &&& final(self).sum() == 0
                &&& msg matches Msg::Number(partial)
                &&& partial.value() == old(self).sum()
                &&& partial@.len() == old(self).precision()
            },
            task.quotient() != 0 ==> {
                &&& !final(self).spec_retired()
                &&& msg matches Msg::Term(term)
                &&& term == task.spec_term()
                &&& final(self).sum() == wrap(
                    if task.spec_neg() {
                        old(self).sum() - task.quotient()
                    } else {
                        (old(self).sum() + task.quotient()) as int
                    },
                    old(self).precision(),
                )
            },
    {
        proof {
            use_type_invariant(&task);
        }
        let Task { neg, divisor, term } = task;
        self.tmp.set_to_div(term.val(), divisor);
        if self.tmp.is_zero() {
            let mut partial: Number = Number::zero(0);
            std::mem::swap(&mut self.result, &mut partial);
            self.retired = true;
            return Msg::Number(partial);
        }
        if neg {
            self.result.sub_assign(&self.tmp);
        } else {
            self.result.add_assign(&self.tmp);
        }
        Msg::Term(term)
    }
}

/// The dispatcher: the result so far, the reference term, the free terms and
/// the count of workers and tasks.
pub struct Dispatcher {
    /// The first term of the series, plus the partial sums handed in.
    result: Number,
    /// The reference term and the series counter.
    reference: Reference,
    /// The terms that are free for the next tasks.
    terms: Vec<Term>,
    /// The number of workers.
    workers: usize,
    /// How many workers have handed in their partial sum.
    retired: usize,
    /// How many tasks are out and not answered.
    outstanding: usize,
}

impl Dispatcher {
    /// The result so far.
    pub closed spec fn spec_result(&self) -> Number {
        self.result
    }

    /// The reference term and the series counter.
    pub closed spec fn spec_reference(&self) -> Reference {
        self.reference
    }

    /// The free terms.
    pub closed spec fn spec_terms(&self) -> Seq<Term> {
        self.terms@
    }

    /// The number of workers.
    pub closed spec fn spec_workers(&self) -> nat {
        self.workers as nat
    }

    /// How many workers have handed in their partial sum.
    pub closed spec fn spec_retired(&self) -> nat {
        self.retired as nat
    }

    /// How many tasks are out and not answered.
    pub closed spec fn spec_outstanding(&self) -> nat {
        self.outstanding as nat
    }

    /// The `x` of the series.
    pub open spec fn base(&self) -> nat {
        self.spec_reference().base()
    }

    /// The number of limbs.
    pub open spec fn precision(&self) -> nat {
        self.spec_reference().precision()
    }

    /// The phase that the counts put the dispatcher in.
    pub open spec fn spec_phase(&self) -> Phase {
        if self.spec_retired() == self.spec_workers() {
            Phase::Finished
        } else if self.spec_terms().len() > 0 {
            Phase::Issuing
        } else {
            Phase::Draining
        }
    }

    /// The result and every free term have the precision of the reference
    /// term, no more workers have retired than there are, and the terms that
    /// are free or out are no more than the pool was made with.
    pub open spec fn wf(&self) -> bool {
        &&& self.spec_reference().wf()
        &&& self.spec_result()@.len() == self.precision()
        &&& forall|i: int|
            0 <= i < self.spec_terms().len() ==> (#[trigger] self.spec_terms()[i]).spec_val()@.len()
                == self.precision()
        &&& self.spec_retired() <= self.spec_workers()
        &&& self.spec_terms().len() + self.spec_outstanding() <= self.spec_workers() + 2
        &&& self.spec_workers() + 2 <= usize::MAX
    }

    /// Whether `msg` can be the answer to a task of this dispatcher: a task is
    /// out, the message has the dispatcher's precision, and a partial sum
    /// comes from a worker that has not handed one in yet.
    pub open spec fn spec_accepts(&self, msg: Msg) -> bool {
        &&& self.spec_outstanding() > 0
        &&& match msg {
            Msg::Term(term) => term.spec_val()@.len() == self.precision(),
            Msg::Number(partial) => partial@.len() == self.precision() && self.spec_retired()
                < self.spec_workers(),
        }
    }

    /// A dispatcher for `atan(1/x)` in `n` limbs with `nworkers` workers. The
    /// result starts as `1 / x`, the reference term too, and the pool holds
    /// two terms more than there are workers.
    pub fn new(x: u64, nworkers: usize, n: usize) -> (d: Dispatcher)
        requires
            0 < x <= u32::MAX,
            precision_fits(n as nat),
            nworkers + 2 <= usize::MAX,
        ensures
            d.wf(),
            d.base() == x,
            d.precision() == n,
            d.spec_result().value() == reciprocal_power(x as nat, n as nat, 1),
            d.spec_reference().index() == 0,
            d.spec_reference().spec_stepsize() == 1,
            d.spec_terms().len() == nworkers + 2,
            forall|i: int|
                0 <= i < d.spec_terms().len() ==> {
                    &&& (#[trigger] d.spec_terms()[i]).spec_base() == x
                    &&& d.spec_terms()[i].spec_denom() == 1
                },
            d.spec_workers() == nworkers,
            d.spec_retired() == 0,
            d.spec_outstanding() == 0,
    {
        let result: Number = Number::from_inv(x, n);
        proof {
            vstd::arithmetic::power::lemma_pow1(x as int);
        }
        let reference: Reference = Reference::new(x, &result);
        let mut terms: Vec<Term> = Vec::new();
        let mut i: usize = 0;
        while i < nworkers + 2
            invariant
                i <= nworkers + 2,
                nworkers + 2 <= usize::MAX,
                x > 0,
                result.value() == reciprocal_power(x as nat, n as nat, 1),
                result@.len() == n,
                terms@.len() == i,
                forall|k: int|
                    0 <= k < i ==> {
                        &&& (#[trigger] terms@[k]).spec_val()@.len() == n
                        &&& terms@[k].spec_base() == x
                        &&& terms@[k].spec_denom() == 1
                    },
            decreases nworkers + 2 - i,
        {
            terms.push(Term::init(x, &result));
            i += 1;
        }
        Dispatcher { result, reference, terms, workers: nworkers, retired: 0, outstanding: 0 }
    }

    /// What the dispatcher can do next.
    pub fn phase(&self) -> (p: Phase)
        ensures
            p == self.spec_phase(),
    {
        if self.retired == self.workers {
            Phase::Finished
        } else if self.terms.len() > 0 {
            Phase::Issuing
        } else {
            Phase::Draining
        }
    }

    /// How many terms are free.
    pub fn free_terms(&self) -> (r: usize)
        ensures
            r == self.spec_terms().len(),
    {
        self.terms.len()
    }

    /// How many tasks are out and not answered.
    pub fn outstanding(&self) -> (r: usize)
        ensures
            r == self.spec_outstanding(),
    {
        self.outstanding
    }

    /// The result so far.
    pub fn result(&self) -> (r: &Number)
        ensures
            *r == self.spec_result(),
    {
        &self.result
    }

    /// The reference term and the series counter.
    pub fn reference(&self) -> (r: &Reference)
        ensures
            *r == self.spec_reference(),
    {
        &self.reference
    }

    /// Ends the run and gives the result.
    pub fn into_result(self) -> (r: Number)
        ensures
            r == self.spec_result(),
    {
        self.result
    }

    /// Hands out the next task, on a free term.
    ///
    /// The task is the next term of the series: its sign alternates, and its
    /// divisor cuts it from the reference term, which is moved forward first
    /// where the divisor would not fit in 64 bits otherwise. The term that
    /// goes out is a copy of the reference term; a free term that holds the
    /// same power already is not copied again. Once the reference term has
    /// underflowed to zero every further task is a zero task, which only
    /// serves to retire a worker.
    pub fn issue(&mut self) -> (task: Task)
        requires
            old(self).wf(),
            old(self).spec_terms().len() > 0,
        ensures
            final(self).wf(),
            final(self).base() == old(self).base(),
            final(self).precision() == old(self).precision(),
            final(self).spec_result() == old(self).spec_result(),
            final(self).spec_terms() == old(self).spec_terms().drop_last(),
            final(self).spec_workers() == old(self).spec_workers(),
            final(self).spec_retired() == old(self).spec_retired(),
            final(self).spec_outstanding() == old(self).spec_outstanding() + 1,
            task.precision() == old(self).precision(),
            task.spec_term().spec_base() == final(self).base(),
            task.spec_term().spec_denom() == final(self).spec_reference().spec_term().spec_denom(),
            task.spec_term().spec_val().value() == final(self).spec_reference().value(),
            ({
                let before = old(self).spec_reference();
                let after = final(self).spec_reference();
                &&& before.value() == 0 ==> {
                    &&& after == before
                    &&& task.spec_neg() == before.spec_negative()
                    &&& task.spec_divisor() == 1
                    &&& task.quotient() == 0
                }
                &&& before.value() > 0 ==> {
                    &&& final(self).base() >= 2
                    &&& after.index() == before.index() + 1
                    &&& task.spec_neg() == (after.index() % 2 == 1)
                    &&& task.spec_divisor() == after.spec_denom() * after.spec_stepsize()
                    &&& task.quotient() == series_term(
                        final(self).base(),
                        final(self).precision(),
                        after.index(),
                    )
                    &&& after.nearer_end_than(before)
                    &&& after.spec_denom() * before.wide_step() <= u64::MAX ==> after.stays_on(
                        before,
                    )
                    &&& after.spec_denom() * before.wide_step() > u64::MAX ==> after.moved_from(
                        before,
                    )
                }
            }),
    {
        let ghost pool = self.terms@;
        let mut term: Term = self.terms.pop().unwrap();
        assert(term == pool[pool.len() - 1]);
        let spent: bool = self.reference.is_spent();
        let (neg, divisor) = if spent {
            (self.reference.is_negative(), 1)
        } else {
            self.reference.next()
        };
        let head: &Term = self.reference.term();
        if term.base() != head.base() || term.denom() != head.denom() {
            term.copy_from(head);
        }
        let _ = term.val();
        self.outstanding = self.outstanding + 1;
        assert forall|i: int| 0 <= i < self.terms@.len() implies (
        #[trigger] self.terms@[i]).spec_val()@.len() == self.precision() by {
            assert(self.terms@[i] == pool[i]);
        }
        Task::new(neg, divisor, term)
    }

    /// Whether `msg` can be the answer to a task of this dispatcher.
    pub fn accepts(&self, msg: &Msg) -> (r: bool)
        requires
            self.wf(),
        ensures
            r == self.spec_accepts(*msg),
    {
        if self.outstanding == 0 {
            return false;
        }
        match msg {
            Msg::Term(term) => term.val().len() == self.result.len(),
            Msg::Number(partial) => partial.len() == self.result.len() && self.retired
                < self.workers,
        }
    }

    /// Takes the answer to a task: a term goes back to the pool, a partial
    /// sum is added to the result and its worker counted as retired.
    pub fn receive(&mut self, msg: Msg)
        requires
            old(self).wf(),
            old(self).spec_accepts(msg),
        ensures
            final(self).wf(),
            final(self).base() == old(self).base(),
            final(self).precision() == old(self).precision(),
            final(self).spec_reference() == old(self).spec_reference(),
            final(self).spec_workers() == old(self).spec_workers(),
            final(self).spec_outstanding() == old(self).spec_outstanding() - 1,
            msg matches Msg::Term(term) ==> {
                &&& final(self).spec_result() == old(self).spec_result()
                &&& final(self).spec_retired() == old(self).spec_retired()
                &&& final(self).spec_terms() == old(self).spec_terms().push(term)
            },
            msg matches Msg::Number(partial) ==> {
                &&& final(self).spec_result().value() == wrap(
                    (old(self).spec_result().value() + partial.value()) as int,
                    old(self).precision(),
                )
                &&& final(self).spec_result()@.len() == old(self).precision()
                &&& final(self).spec_result().zeros_exact()
                &&& final(self).spec_retired() == old(self).spec_retired() + 1
                &&& final(self).spec_terms() == old(self).spec_terms()
            },
    {
        self.outstanding = self.outstanding - 1;
        match msg {
            Msg::Term(term) => {
                self.terms.push(term);
            },
            Msg::Number(partial) => {
                self.result.add_assign(&partial);
                self.retired = self.retired + 1;
            },
        }
    }

    /// Gives up a task that could not be delivered. Its term is lost to the
    /// pool.
    pub fn abandon(&mut self)
        requires
            old(self).wf(),
            old(self).spec_outstanding() > 0,
        ensures
            final(self).wf(),
            final(self).spec_reference() == old(self).spec_reference(),
            final(self).spec_result() == old(self).spec_result(),
            final(self).spec_terms() == old(self).spec_terms(),
            final(self).spec_workers() == old(self).spec_workers(),
            final(self).spec_retired() == old(self).spec_retired(),
            final(self).spec_outstanding() == old(self).spec_outstanding() - 1,
    {
        self.outstanding = self.outstanding - 1;
    }
}

} // verus!
