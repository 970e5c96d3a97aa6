//! The machines of [`crate::dispatch`] and [`crate::batch`] on channels.
//!
//! Tasks go from the dispatcher to the workers over one channel that all
//! workers take from, messages come back over another. What a channel hands
//! out depends on the other threads, so nothing is known of it here beyond
//! its type. Each turn takes what came, lets the machine decide, and sends
//! what it decided. The loops around the turns, and the threads, are the
//! caller's.

use crate::batch::{is_batch_length, Answer, BatchDispatcher, Job};
use crate::dispatch::{Dispatcher, Msg, Phase, Task, Worker};
use crossbeam::channel::{Receiver, Sender};
use vstd::prelude::*;

verus! {

/// `crossbeam::channel::Receiver`, the receiving end of a channel. Nothing is
/// known of its state.
#[verifier::external_type_specification]
#[verifier::external_body]
#[verifier::reject_recursive_types(T)]
pub struct ExReceiver<T>(Receiver<T>);

/// `crossbeam::channel::Sender`, the sending end of a channel. Nothing is
/// known of its state.
#[verifier::external_type_specification]
#[verifier::external_body]
#[verifier::reject_recursive_types(T)]
pub struct ExSender<T>(Sender<T>);

/// `crossbeam::channel::Receiver::recv`: waits for the next message. `None` stands for its error:
/// the channel is empty and every sender is gone. Which message comes, and
/// whether one comes, is up to the other threads, so nothing is promised.
#[verifier::external_body]
fn take<T>(from: &Receiver<T>) -> (r: Option<T>) {
    from.recv().ok()
}

/// `crossbeam::channel::Sender::send`: hands `msg` to the channel. The result
/// is whether it was taken; it is not when every receiver is gone. That is up
/// to the other threads, so nothing is promised.
#[verifier::external_body]
fn hand<T>(to: &Sender<T>, msg: T) -> (delivered: bool) {
    to.send(msg).is_ok()
}

/// One turn of a worker: take a task, work it off, send the answer.
///
/// The result is whether there is another turn. There is none once the
/// worker has retired, once no task can come any more, once the answer finds
/// no taker, or when a task has another precision than the worker.
///
/// Which task comes, if any, is up to the channel. Whatever comes, the worker
/// either stays as it is or has worked off one task of its precision, as
/// [`Worker::worked_off`] says; and where there is another turn it has worked
/// one off whose quotient was not zero. A worker that has retired takes
/// nothing from the channel.
pub fn worker_turn(worker: &mut Worker, tasks: &Receiver<Task>, answers: &Sender<Msg>) -> (more:
    bool)
    requires
        old(worker).wf(),
    ensures
        final(worker).wf(),
        final(worker).precision() == old(worker).precision(),
        old(worker).spec_retired() ==> !more && *final(worker) == *old(worker),
        more ==> !final(worker).spec_retired(),
        more ==> exists|task: Task, msg: Msg|
            {
                &&& task.precision() == old(worker).precision()
                &&& task.quotient() != 0
                &&& #[trigger] Worker::worked_off(*old(worker), task, *final(worker), msg)
            },
        !more ==> *final(worker) == *old(worker) || exists|task: Task, msg: Msg|
            {
                &&& task.precision() == old(worker).precision()
                &&& #[trigger] Worker::worked_off(*old(worker), task, *final(worker), msg)
            },
{
    if worker.is_retired() {
        return false;
    }
    let taken: Option<Task> = take(tasks);
    let ghost came = taken;
    match worker.answer(taken) {
        None => false,
        Some(msg) => {
            let ghost sent = msg;
            assert(Worker::worked_off(*old(worker), came->0, *worker, sent));
            let delivered: bool = hand(answers, msg);
            delivered && !worker.is_retired()
        },
    }
}

/// One turn of the dispatcher: hand out a task while a term is free, else
/// wait for a message and take it in.
///
/// The result is whether there is another turn. There is none once the
/// dispatcher has finished, once no message can come any more, or when a
/// message answers no task of this dispatcher.
pub fn dispatcher_turn(dispatcher: &mut Dispatcher, tasks: &Sender<Task>, answers: &Receiver<Msg>)
    -> (more: bool)
    requires
        old(dispatcher).wf(),
    ensures
        final(dispatcher).wf(),
        final(dispatcher).base() == old(dispatcher).base(),
        final(dispatcher).precision() == old(dispatcher).precision(),
        final(dispatcher).spec_workers() == old(dispatcher).spec_workers(),
        old(dispatcher).spec_phase() == Phase::Finished ==> !more && *final(dispatcher) == *old(
            dispatcher,
        ),
        old(dispatcher).spec_phase() == Phase::Issuing ==> {
            &&& more
            &&& final(dispatcher).spec_result() == old(dispatcher).spec_result()
            &&& final(dispatcher).spec_retired() == old(dispatcher).spec_retired()
            &&& final(dispatcher).spec_terms().len() == old(dispatcher).spec_terms().len() - 1
            &&& final(dispatcher).spec_reference().index() == old(
                dispatcher,
            ).spec_reference().index() + if old(dispatcher).spec_reference().value() == 0 {
                0int
            } else {
                1int
            }
        },
        old(dispatcher).spec_phase() == Phase::Draining ==> {
            &&& final(dispatcher).spec_reference() == old(dispatcher).spec_reference()
            &&& more ==> final(dispatcher).spec_outstanding() == old(
                dispatcher,
            ).spec_outstanding() - 1
            &&& !more ==> *final(dispatcher) == *old(dispatcher)
        },
{
    match dispatcher.phase() {
        Phase::Finished => false,
        Phase::Issuing => {
            let task: Task = dispatcher.issue();
            if !hand(tasks, task) {
                dispatcher.abandon();
            }
            true
        },
        Phase::Draining => match take(answers) {
            None => false,
            Some(msg) => {
                if dispatcher.accepts(&msg) {
                    dispatcher.receive(msg);
                    true
                } else {
                    false
                }
            },
        },
    }
}

/// One turn of a dividing worker: take a job, do the division, send the
/// answer.
///
/// The result is whether there is another turn. There is none once no job
/// can come any more, or once the answer finds no taker. A quotient of zero
/// does not end the work: the jobs that were planned before it was reported
/// are still owed an answer.
pub fn batch_worker_turn(jobs: &Receiver<Job>, answers: &Sender<Answer>) -> (more: bool) {
    match take(jobs) {
        None => false,
        Some(job) => {
            let answer: Answer = job.perform();
            hand(answers, answer)
        },
    }
}

/// One turn of the batch dispatcher: plan and send the next batch where one
/// is due, then wait for an answer and take it in.
///
/// The result is whether there is another turn. There is none once the run
/// is over, once no answer can come any more, or when an answer fits no job
/// of this dispatcher.
///
/// The planning does not depend on the channels: where a batch is due, the
/// index of the reference term moves on by the length of the batch, and the
/// sign by as many terms. Which answer comes, if any, is up to the channel.
/// Where there is another turn, one answer has been taken in, as
/// [`BatchDispatcher::absorbed`] says; where there is none, the result and
/// the reference term are as they were.
pub fn batch_dispatcher_turn(
    dispatcher: &mut BatchDispatcher,
    jobs: &Sender<Job>,
    answers: &Receiver<Answer>,
) -> (more: bool)
    requires
        old(dispatcher).wf(),
    ensures
        final(dispatcher).wf(),
        final(dispatcher).spec_x2() == old(dispatcher).spec_x2(),
        final(dispatcher).precision() == old(dispatcher).precision(),
        !old(dispatcher).spec_running() && old(dispatcher).spec_tasks() == 0 ==> !more
            && *final(dispatcher) == *old(dispatcher),
        old(dispatcher).plans() ==> exists|len: nat|
            {
                &&& #[trigger] is_batch_length(
                    old(dispatcher).spec_x2(),
                    old(dispatcher).spec_refidx(),
                    len,
                )
                &&& final(dispatcher).spec_refidx() == old(dispatcher).spec_refidx() + len
                &&& final(dispatcher).spec_neg() == BatchDispatcher::sign_after(
                    old(dispatcher).spec_neg(),
                    len,
                )
            },
        !old(dispatcher).plans() ==> {
            &&& final(dispatcher).spec_refidx() == old(dispatcher).spec_refidx()
            &&& final(dispatcher).spec_neg() == old(dispatcher).spec_neg()
            &&& final(dispatcher).spec_terms().len() >= old(dispatcher).spec_terms().len()
        },
        more ==> exists|answer: Answer| #[trigger]
            final(dispatcher).absorbed(*old(dispatcher), answer),
        !more ==> {
            &&& final(dispatcher).spec_result() == old(dispatcher).spec_result()
            &&& final(dispatcher).spec_refterm() == old(dispatcher).spec_refterm()
        },
{
    if dispatcher.is_done() {
        return false;
    }
    if dispatcher.wants_batch() {
        if dispatcher.tasks() > usize::MAX - 64 {
            return false;
        }
        let mut batch: Vec<Job> = dispatcher.start_batch();
        let ghost len = BatchDispatcher::planned(batch@);
        assert(is_batch_length(
            old(dispatcher).spec_x2(),
            old(dispatcher).spec_refidx(),
            len,
        ));
        while batch.len() > 0
            invariant
                dispatcher.wf(),
                dispatcher.spec_x2() == old(dispatcher).spec_x2(),
                dispatcher.precision() == old(dispatcher).precision(),
                dispatcher.spec_result() == old(dispatcher).spec_result(),
                dispatcher.spec_refterm() == old(dispatcher).spec_refterm(),
                dispatcher.spec_refidx() == old(dispatcher).spec_refidx() + len,
                dispatcher.spec_neg() == BatchDispatcher::sign_after(
                    old(dispatcher).spec_neg(),
                    len,
                ),
                dispatcher.spec_tasks() >= batch@.len(),
            decreases batch@.len(),
        {
            let job: Job = batch.remove(0);
            if !hand(jobs, job) {
                dispatcher.undelivered();
            }
        }
        if dispatcher.is_done() {
            return false;
        }
    }
    let taken: Option<Answer> = take(answers);
    let ghost came = taken;
    let took: bool = dispatcher.take_in(taken);
    proof {
        if took {
            assert(dispatcher.absorbed(*old(dispatcher), came->0));
        }
    }
    took
}

} // verus!
