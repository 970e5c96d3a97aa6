//! The dispatcher and its workers run in any order.
//!
//! Between the dispatcher and the workers lie two queues: the tasks that
//! wait for a worker, and the messages that wait for the dispatcher. A run is
//! a sequence of moves: the dispatcher hands out a task, a worker takes the
//! oldest task that waits, the dispatcher takes in one of the messages that
//! wait. Workers take tasks in the order in which they were handed out; in
//! every other respect the moves may come in any order. Whatever the order,
//! no term of the series is lost and none is counted twice: the result is
//! that of the sequential sum, limb for limb.

use crate::atan::ataninv_scalar;
use crate::dispatch::{Dispatcher, Msg, Task, Worker};
use crate::limbs::{lemma_modulus_positive, lemma_value_bound, modulus, wrap};
use crate::number::Number;
use crate::series::{
    ataninv_value, lemma_first_term, lemma_reciprocal_power, lemma_series_limit_by_power,
    lemma_series_limit_by_term, lemma_term_monotonic, lemma_wrap_add, precision_fits, series_sum,
    series_term,
};
use vstd::arithmetic::div_mod::*;
use vstd::prelude::*;

verus! {

/// One move of a run.
#[derive(Clone, Copy, Debug, PartialEq, Eq, Structural)]
pub enum Move {
    /// The dispatcher hands out the next task, if a term is free.
    Issue,
    /// A worker takes the oldest task that waits, if there is one: the worker
    /// at this place in the line of those that have not retired, counted
    /// round the line. A worker that has worked off its task joins the line
    /// at the end.
    Work(usize),
    /// The dispatcher takes in a message, if one waits: the one at this
    /// place among them, counted round.
    Collect(usize),
}

/// The sum of a sequence of integers.
pub open spec fn total(s: Seq<int>) -> int
    decreases s.len(),
{
    if s.len() == 0 {
        0
    } else {
        total(s.drop_last()) + s.last()
    }
}

/// What a task contributes to the sum, with its sign.
pub open spec fn task_value(task: Task) -> int {
    if task.spec_neg() {
        -(task.quotient() as int)
    } else {
        task.quotient() as int
    }
}

/// What a message contributes to the sum: a partial sum counts, a term does
/// not.
pub open spec fn msg_value(msg: Msg) -> int {
    match msg {
        Msg::Number(partial) => partial.value() as int,
        Msg::Term(_) => 0,
    }
}

/// 1 for a partial sum, 0 for a term.
pub open spec fn msg_is_number(msg: Msg) -> int {
    match msg {
        Msg::Number(_) => 1,
        Msg::Term(_) => 0,
    }
}

/// The partial sums of the workers.
pub open spec fn worker_values(workers: Seq<Worker>) -> Seq<int> {
    workers.map_values(|w: Worker| w.sum() as int)
}

/// The contributions of the tasks.
pub open spec fn task_values(tasks: Seq<Task>) -> Seq<int> {
    tasks.map_values(|t: Task| task_value(t))
}

/// The contributions of the messages.
pub open spec fn msg_values(msgs: Seq<Msg>) -> Seq<int> {
    msgs.map_values(|m: Msg| msg_value(m))
}

/// How many of the messages are partial sums.
pub open spec fn numbers(msgs: Seq<Msg>) -> int {
    total(msgs.map_values(|m: Msg| msg_is_number(m)))
}

/// Every worker is in order, has not retired and computes in `n` limbs.
pub open spec fn workers_ready(workers: Seq<Worker>, n: nat) -> bool {
    forall|i: int|
        0 <= i < workers.len() ==> {
            &&& (#[trigger] workers[i]).wf()
            &&& !workers[i].spec_retired()
            &&& workers[i].precision() == n
        }
}

/// Every task is on a term of `n` limbs.
pub open spec fn tasks_fit(tasks: Seq<Task>, n: nat) -> bool {
    forall|i: int| 0 <= i < tasks.len() ==> (#[trigger] tasks[i]).precision() == n
}

/// Every message holds `n` limbs.
pub open spec fn msg_fits(msg: Msg, n: nat) -> bool {
    match msg {
        Msg::Number(partial) => partial@.len() == n,
        Msg::Term(term) => term.spec_val()@.len() == n,
    }
}

/// Every message holds `n` limbs.
pub open spec fn msgs_fit(msgs: Seq<Msg>, n: nat) -> bool {
    forall|i: int| 0 <= i < msgs.len() ==> msg_fits(#[trigger] msgs[i], n)
}

/// The quotients of the tasks do not grow along the queue.
pub open spec fn falling(tasks: Seq<Task>) -> bool {
    forall|i: int, j: int|
        0 <= i < j < tasks.len() ==> (#[trigger] tasks[i]).quotient() >= (
        #[trigger] tasks[j]).quotient()
}

/// No quotient of the tasks is below `bound`.
pub open spec fn at_least(tasks: Seq<Task>, bound: nat) -> bool {
    forall|i: int| 0 <= i < tasks.len() ==> (#[trigger] tasks[i]).quotient() >= bound
}

/// Every quotient of the tasks is zero.
pub open spec fn all_zero(tasks: Seq<Task>) -> bool {
    forall|i: int| 0 <= i < tasks.len() ==> (#[trigger] tasks[i]).quotient() == 0
}

/// The quotient of the task that the dispatcher hands out next.
pub open spec fn upcoming(dispatcher: Dispatcher) -> nat {
    if dispatcher.spec_reference().value() == 0 {
        0
    } else {
        series_term(
            dispatcher.base(),
            dispatcher.precision(),
            dispatcher.spec_reference().index() + 1,
        )
    }
}

/// An integer that joins adds to the sum.
pub proof fn lemma_total_push(s: Seq<int>, v: int)
    ensures
        total(s.push(v)) == total(s) + v,
{
    assert(s.push(v).drop_last() =~= s);
}

/// An integer that leaves takes itself from the sum.
pub proof fn lemma_total_remove(s: Seq<int>, at: int)
    requires
        0 <= at < s.len(),
    ensures
        total(s.remove(at)) == total(s) - s[at],
    decreases s.len(),
{
    if at == s.len() - 1 {
        assert(s.remove(at) =~= s.drop_last());
    } else {
        let rest = s.drop_last();
        lemma_total_remove(rest, at);
        assert(s.remove(at).drop_last() =~= rest.remove(at));
        assert(s.remove(at).last() == s.last());
    }
}

/// A sum of zeros and ones counts the ones.
pub proof fn lemma_numbers_count(msgs: Seq<Msg>)
    ensures
        0 <= numbers(msgs) <= msgs.len(),
    decreases msgs.len(),
{
    if msgs.len() > 0 {
        lemma_numbers_count(msgs.drop_last());
        let flags = msgs.map_values(|m: Msg| msg_is_number(m));
        assert(flags.drop_last() =~= msgs.drop_last().map_values(|m: Msg| msg_is_number(m)));
    }
}

/// Tasks with quotients of zero contribute nothing.
pub proof fn lemma_zero_tasks_total(tasks: Seq<Task>)
    requires
        all_zero(tasks),
    ensures
        total(task_values(tasks)) == 0,
    decreases tasks.len(),
{
    if tasks.len() > 0 {
        assert(all_zero(tasks.drop_last())) by {
            assert forall|i: int| 0 <= i < tasks.drop_last().len() implies (
            #[trigger] tasks.drop_last()[i]).quotient() == 0 by {
                assert(tasks.drop_last()[i] == tasks[i]);
            }
        }
        lemma_zero_tasks_total(tasks.drop_last());
        assert(task_values(tasks).drop_last() =~= task_values(tasks.drop_last()));
        assert(tasks[tasks.len() - 1].quotient() == 0);
    }
}

/// Two sums that agree modulo 1 still agree when the same is added to both.
pub proof fn lemma_wrap_shift(a: int, b: int, v: int, n: nat)
    requires
        wrap(a, n) == wrap(b, n),
    ensures
        wrap(a + v, n) == wrap(b + v, n),
{
    lemma_wrap_add(a, v, n);
    lemma_wrap_add(b, v, n);
}

/// A summand may be replaced by one that agrees with it modulo 1.
pub proof fn lemma_wrap_replace(rest: int, old_part: int, new_part: int, n: nat)
    requires
        new_part == wrap(old_part, n),
    ensures
        wrap(rest + new_part, n) == wrap(rest + old_part, n),
{
    lemma_wrap_add(old_part, rest, n);
}

/// The dispatcher, the workers that have not retired, and the two queues
/// between them.
struct Table {
    dispatcher: Dispatcher,
    workers: Vec<Worker>,
    queue: Vec<Task>,
    inbox: Vec<Msg>,
    nthreads: usize,
}

impl Table {
    /// All that the table holds, added up: the result so far, the partial
    /// sums of the workers, the tasks that wait, and the partial sums that
    /// wait.
    spec fn ledger(&self) -> int {
        self.dispatcher.spec_result().value() + total(worker_values(self.workers@)) + total(
            task_values(self.queue@),
        ) + total(msg_values(self.inbox@))
    }

    /// The run is in order: the counts of workers, terms and tasks add up,
    /// the ledger is the sum of the series as far as it has been handed out,
    /// and the tasks that wait have falling quotients, all zero once a
    /// worker has retired.
    spec fn ok(&self, x: nat, n: nat) -> bool {
        let d = self.dispatcher;
        let issued = d.spec_reference().index();
        &&& d.wf()
        &&& d.base() == x
        &&& d.precision() == n
        &&& d.spec_workers() == self.nthreads
        &&& workers_ready(self.workers@, n)
        &&& tasks_fit(self.queue@, n)
        &&& msgs_fit(self.inbox@, n)
        &&& d.spec_retired() + numbers(self.inbox@) + self.workers@.len() == self.nthreads
        &&& d.spec_outstanding() == self.queue@.len() + self.inbox@.len()
        &&& d.spec_terms().len() + self.queue@.len() + self.inbox@.len() - numbers(self.inbox@)
            == self.workers@.len() + 2
        &&& wrap(self.ledger(), n) == wrap(series_sum(x, n, issued), n)
        &&& x == 1 ==> issued == 0
        &&& falling(self.queue@)
        &&& at_least(self.queue@, upcoming(d))
        &&& self.workers@.len() < self.nthreads ==> upcoming(d) == 0 && all_zero(self.queue@)
        &&& d.spec_retired() > 0 ==> d.spec_result().zeros_exact()
    }

    /// The dispatcher and `nthreads` workers, with nothing under way.
    fn new(x: u64, nthreads: usize, n: usize) -> (table: Table)
        requires
            0 < x <= u32::MAX,
            precision_fits(n as nat),
            nthreads + 2 <= usize::MAX,
        ensures
            table.ok(x as nat, n as nat),
            table.nthreads == nthreads,
            table.workers@.len() == nthreads,
            table.queue@.len() == 0,
            table.inbox@.len() == 0,
    {
        let dispatcher: Dispatcher = Dispatcher::new(x, nthreads, n);
        let mut workers: Vec<Worker> = Vec::new();
        let mut i: usize = 0;
        while i < nthreads
            invariant
                i <= nthreads,
                workers@.len() == i,
                total(worker_values(workers@)) == 0,
                workers_ready(workers@, n as nat),
            decreases nthreads - i,
        {
            let worker: Worker = Worker::new(n);
            proof {
                assert(worker_values(workers@.push(worker)) =~= worker_values(workers@).push(
                    worker.sum() as int,
                ));
                lemma_total_push(worker_values(workers@), worker.sum() as int);
            }
            workers.push(worker);
            i += 1;
        }
        let queue: Vec<Task> = Vec::new();
        let inbox: Vec<Msg> = Vec::new();
        proof {
            lemma_first_term(x as nat, n as nat);
            lemma_modulus_positive(n as nat);
            lemma_mod_twice(series_sum(x as nat, n as nat, 0), modulus(n as nat) as int);
            assert(task_values(queue@) =~= Seq::<int>::empty());
            assert(msg_values(inbox@) =~= Seq::<int>::empty());
            assert(inbox@.map_values(|m: Msg| msg_is_number(m)) =~= Seq::<int>::empty());
        }
        Table { dispatcher, workers, queue, inbox, nthreads }
    }

    /// The dispatcher hands out the next task.
    fn issue(&mut self, Ghost(x): Ghost<nat>, Ghost(n): Ghost<nat>)
        requires
            old(self).ok(x, n),
            old(self).dispatcher.spec_terms().len() > 0,
        ensures
            final(self).ok(x, n),
            final(self).nthreads == old(self).nthreads,
            final(self).workers@ == old(self).workers@,
            final(self).inbox@ == old(self).inbox@,
            final(self).queue@.len() == old(self).queue@.len() + 1,
            final(self).queue@.last().quotient() == upcoming(old(self).dispatcher),
            ({
                let before = old(self).dispatcher.spec_reference();
                let after = final(self).dispatcher.spec_reference();
                &&& before.value() == 0 ==> after == before
                &&& before.value() > 0 ==> after.nearer_end_than(before)
            }),
    {
        let ghost before = *self;
        let ghost issued = self.dispatcher.spec_reference().index();
        let ghost sum_before = series_sum(x, n, issued);
        proof {
            lemma_reciprocal_power(x, n, self.dispatcher.spec_reference().spec_term().spec_denom());
        }
        let task: Task = self.dispatcher.issue();
        proof {
            let tasks = before.queue@;
            let v = task_value(task);
            assert(task_values(tasks.push(task)) =~= task_values(tasks).push(v));
            lemma_total_push(task_values(tasks), v);
            lemma_wrap_shift(before.ledger(), sum_before, v, n);
            if before.dispatcher.spec_reference().value() > 0 {
                lemma_term_monotonic(x, n, issued + 1, issued + 2);
            }
            assert(task.quotient() == upcoming(before.dispatcher));
            assert(upcoming(self.dispatcher) <= upcoming(before.dispatcher));
            assert forall|i: int| 0 <= i < tasks.push(task).len() implies (#[trigger] tasks.push(
                task,
            )[i]).precision() == n by {
                if i < tasks.len() {
                    assert(tasks.push(task)[i] == tasks[i]);
                }
            }
            assert forall|i: int, j: int| 0 <= i < j < tasks.push(task).len() implies (
            #[trigger] tasks.push(task)[i]).quotient() >= (#[trigger] tasks.push(
                task,
            )[j]).quotient() by {
                assert(tasks.push(task)[i] == tasks[i]);
                if j < tasks.len() {
                    assert(tasks.push(task)[j] == tasks[j]);
                }
            }
            assert forall|i: int| 0 <= i < tasks.push(task).len() implies (#[trigger] tasks.push(
                task,
            )[i]).quotient() >= upcoming(self.dispatcher) by {
                if i < tasks.len() {
                    assert(tasks.push(task)[i] == tasks[i]);
                }
            }
            if self.workers@.len() < self.nthreads {
                assert forall|i: int| 0 <= i < tasks.push(task).len() implies (
                #[trigger] tasks.push(task)[i]).quotient() == 0 by {
                    if i < tasks.len() {
                        assert(tasks.push(task)[i] == tasks[i]);
                    }
                }
            }
        }
        self.queue.push(task);
    }

    /// The worker at `at`, counted round the line, takes the oldest task.
    fn work(&mut self, at: usize, Ghost(x): Ghost<nat>, Ghost(n): Ghost<nat>)
        requires
            old(self).ok(x, n),
            old(self).queue@.len() > 0,
            old(self).workers@.len() > 0,
        ensures
            final(self).ok(x, n),
            final(self).nthreads == old(self).nthreads,
            final(self).dispatcher == old(self).dispatcher,
            final(self).queue@.len() == old(self).queue@.len() - 1,
            final(self).inbox@.len() == old(self).inbox@.len() + 1,
            final(self).workers@.len() == if old(self).queue@[0].quotient() == 0 {
                old(self).workers@.len() - 1
            } else {
                old(self).workers@.len() as int
            },
    {
        let ghost before = *self;
        let ghost line = self.workers@;
        let ghost tasks = self.queue@;
        let ghost msgs = self.inbox@;
        let place: usize = at % self.workers.len();
        let mut worker: Worker = self.workers.remove(place);
        let task: Task = self.queue.remove(0);
        let ghost own = worker.sum() as int;
        let ghost quotient = task.quotient();
        let ghost v = task_value(task);
        assert(worker == line[place as int]);
        assert(task == tasks[0]);
        let msg: Msg = worker.process(task);
        let retired: bool = worker.is_retired();
        proof {
            let rest = line.remove(place as int);
            assert(worker_values(rest) =~= worker_values(line).remove(place as int));
            lemma_total_remove(worker_values(line), place as int);
            assert(task_values(tasks.remove(0)) =~= task_values(tasks).remove(0));
            lemma_total_remove(task_values(tasks), 0);
            assert(msg_values(msgs.push(msg)) =~= msg_values(msgs).push(msg_value(msg)));
            lemma_total_push(msg_values(msgs), msg_value(msg));
            assert(msgs.push(msg).map_values(|m: Msg| msg_is_number(m)) =~= msgs.map_values(
                |m: Msg| msg_is_number(m),
            ).push(msg_is_number(msg)));
            lemma_total_push(msgs.map_values(|m: Msg| msg_is_number(m)), msg_is_number(msg));
            assert forall|i: int| 0 <= i < rest.len() implies {
                &&& (#[trigger] rest[i]).wf()
                &&& !rest[i].spec_retired()
                &&& rest[i].precision() == n
            } by {
                if i < place {
                    assert(rest[i] == line[i]);
                } else {
                    assert(rest[i] == line[i + 1]);
                }
            }
            assert forall|i: int| 0 <= i < tasks.remove(0).len() implies (
            #[trigger] tasks.remove(0)[i]).precision() == n by {
                assert(tasks.remove(0)[i] == tasks[i + 1]);
            }
            assert forall|i: int, j: int| 0 <= i < j < tasks.remove(0).len() implies (
            #[trigger] tasks.remove(0)[i]).quotient() >= (#[trigger] tasks.remove(
                0,
            )[j]).quotient() by {
                assert(tasks.remove(0)[i] == tasks[i + 1]);
                assert(tasks.remove(0)[j] == tasks[j + 1]);
            }
            assert forall|i: int| 0 <= i < tasks.remove(0).len() implies (
            #[trigger] tasks.remove(0)[i]).quotient() >= upcoming(self.dispatcher) by {
                assert(tasks.remove(0)[i] == tasks[i + 1]);
            }
            assert(tasks[0].quotient() >= upcoming(self.dispatcher));
            if quotient == 0 || line.len() < self.nthreads {
                assert forall|i: int| 0 <= i < tasks.remove(0).len() implies (
                #[trigger] tasks.remove(0)[i]).quotient() == 0 by {
                    assert(tasks.remove(0)[i] == tasks[i + 1]);
                    assert(tasks[0].quotient() >= tasks[i + 1].quotient());
                }
            }
            assert forall|i: int| 0 <= i < msgs.push(msg).len() implies msg_fits(
                #[trigger] msgs.push(msg)[i],
                n,
            ) by {
                if i < msgs.len() {
                    assert(msgs.push(msg)[i] == msgs[i]);
                }
            }
        }
        self.inbox.push(msg);
        if !retired {
            proof {
                let rest = line.remove(place as int);
                assert(worker_values(rest.push(worker)) =~= worker_values(rest).push(
                    worker.sum() as int,
                ));
                lemma_total_push(worker_values(rest), worker.sum() as int);
                let others = before.ledger() - own - v;
                lemma_wrap_replace(others, own + v, worker.sum() as int, n);
                assert forall|i: int| 0 <= i < rest.push(worker).len() implies {
                    &&& (#[trigger] rest.push(worker)[i]).wf()
                    &&& !rest.push(worker)[i].spec_retired()
                    &&& rest.push(worker)[i].precision() == n
                } by {
                    if i < rest.len() {
                        assert(rest.push(worker)[i] == rest[i]);
                    }
                }
            }
            self.workers.push(worker);
        }
    }

    /// The dispatcher takes in the message at `at`, counted round those that
    /// wait.
    fn collect(&mut self, at: usize, Ghost(x): Ghost<nat>, Ghost(n): Ghost<nat>)
        requires
            old(self).ok(x, n),
            old(self).inbox@.len() > 0,
        ensures
            final(self).ok(x, n),
            final(self).nthreads == old(self).nthreads,
            final(self).workers@ == old(self).workers@,
            final(self).queue@ == old(self).queue@,
            final(self).inbox@.len() == old(self).inbox@.len() - 1,
            final(self).dispatcher.spec_reference() == old(self).dispatcher.spec_reference(),
    {
        let ghost before = *self;
        let ghost msgs = self.inbox@;
        let place: usize = at % self.inbox.len();
        let msg: Msg = self.inbox.remove(place);
        assert(msg == msgs[place as int]);
        proof {
            let flags = msgs.map_values(|m: Msg| msg_is_number(m));
            assert(msg_values(msgs.remove(place as int)) =~= msg_values(msgs).remove(place as int));
            lemma_total_remove(msg_values(msgs), place as int);
            assert(msgs.remove(place as int).map_values(|m: Msg| msg_is_number(m)) =~= flags.remove(
                place as int,
            ));
            lemma_total_remove(flags, place as int);
            lemma_numbers_count(msgs.remove(place as int));
            assert(msg_fits(msgs[place as int], n));
            assert forall|i: int| 0 <= i < msgs.remove(place as int).len() implies msg_fits(
                #[trigger] msgs.remove(place as int)[i],
                n,
            ) by {
                if i < place {
                    assert(msgs.remove(place as int)[i] == msgs[i]);
                } else {
                    assert(msgs.remove(place as int)[i] == msgs[i + 1]);
                }
            }
            let others = before.ledger() - before.dispatcher.spec_result().value() - msg_value(msg);
            lemma_wrap_replace(
                others,
                before.dispatcher.spec_result().value() + msg_value(msg),
                wrap(before.dispatcher.spec_result().value() + msg_value(msg), n) as int,
                n,
            );
        }
        self.dispatcher.receive(msg);
    }
}

/// `atan(1/x)` in `n` limbs with `nthreads` workers, run as `moves` says and
/// then to the end; with no workers, by [`ataninv_scalar`].
///
/// A move that cannot be made as the run stands is passed over. When the
/// moves are used up, messages are taken in as they wait, tasks are worked
/// off as they wait, and new tasks are handed out, until every worker has
/// retired and every partial sum is in the result.
pub fn ataninv_scheduled(x: u64, nthreads: usize, n: usize, moves: &Vec<Move>) -> (result: Number)
    requires
        0 < x <= u32::MAX,
        precision_fits(n as nat),
        nthreads + 2 <= usize::MAX,
    ensures
        result@.len() == n,
        result.value() == ataninv_value(x as nat, n as nat),
        result.zeros_exact(),
{
    if nthreads == 0 {
        return ataninv_scalar(x, n);
    }
    let mut table: Table = Table::new(x, nthreads, n);
    let mut i: usize = 0;
    while i < moves.len()
        invariant
            i <= moves@.len(),
            table.ok(x as nat, n as nat),
            table.nthreads == nthreads,
        decreases moves@.len() - i,
    {
        match moves[i] {
            Move::Issue => {
                if table.dispatcher.free_terms() > 0 {
                    table.issue(Ghost(x as nat), Ghost(n as nat));
                }
            },
            Move::Work(at) => {
                if table.queue.len() > 0 && table.workers.len() > 0 {
                    table.work(at, Ghost(x as nat), Ghost(n as nat));
                }
            },
            Move::Collect(at) => {
                if table.inbox.len() > 0 {
                    table.collect(at, Ghost(x as nat), Ghost(n as nat));
                }
            },
        }
        i += 1;
    }
    while table.workers.len() > 0 || table.inbox.len() > 0
        invariant
            table.ok(x as nat, n as nat),
            table.nthreads == nthreads,
            nthreads >= 1,
        decreases
                table.workers@.len(),
                table.dispatcher.spec_reference().value(),
                u64::MAX - table.dispatcher.spec_reference().spec_stepsize(),
                table.queue@.len(),
                table.inbox@.len(),
    {
        if table.inbox.len() > 0 {
            table.collect(0, Ghost(x as nat), Ghost(n as nat));
        } else if table.queue.len() > 0 {
            table.work(0, Ghost(x as nat), Ghost(n as nat));
        } else {
            proof {
                lemma_numbers_count(table.inbox@);
            }
            table.issue(Ghost(x as nat), Ghost(n as nat));
            table.work(0, Ghost(x as nat), Ghost(n as nat));
        }
    }
    proof {
        let d = table.dispatcher;
        let issued = d.spec_reference().index();
        let value = d.spec_result().value();
        lemma_numbers_count(table.inbox@);
        lemma_zero_tasks_total(table.queue@);
        assert(worker_values(table.workers@) =~= Seq::<int>::empty());
        assert(msg_values(table.inbox@) =~= Seq::<int>::empty());
        lemma_value_bound(d.spec_result()@);
        lemma_small_mod(value, modulus(n as nat));
        if x == 1 {
            lemma_first_term(1, n as nat);
            lemma_reciprocal_power(1, n as nat, 1);
        } else if d.spec_reference().value() == 0 {
            lemma_series_limit_by_power(
                x as nat,
                n as nat,
                d.spec_reference().spec_term().spec_denom(),
                issued,
            );
        } else {
            lemma_series_limit_by_term(x as nat, n as nat, issued + 1);
        }
    }
    table.dispatcher.into_result()
}

} // verus!
