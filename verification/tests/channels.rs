use crossbeam::channel::unbounded;
use picalc::atan::ataninv_scalar;
use picalc::channel::{dispatcher_turn, worker_turn};
use picalc::dispatch::{Dispatcher, Msg, Phase, Task, Worker};
use picalc::number::Number;
use picalc::term::Term;

#[test]
fn worker_turn_answers_a_task_with_its_term() {
    let (task_in, task_out) = unbounded::<Task>();
    let (msg_in, msg_out) = unbounded::<Msg>();
    let mut worker = Worker::new(2);
    let third = Number::from_inv(3, 2);
    assert!(task_in.send(Task::new(false, 1, Term::init(3, &third))).is_ok());
    assert!(worker_turn(&mut worker, &task_out, &msg_in));
    match msg_out.try_recv() {
        Ok(Msg::Term(term)) => assert_eq!(term.val().limbs(), third.limbs()),
        _ => panic!("no term came back"),
    }
    assert!(msg_out.try_recv().is_err());
}

#[test]
fn worker_turn_stops_when_the_channel_is_closed() {
    let (task_in, task_out) = unbounded::<Task>();
    let (msg_in, _msg_out) = unbounded::<Msg>();
    drop(task_in);
    let mut worker = Worker::new(2);
    assert!(!worker_turn(&mut worker, &task_out, &msg_in));
    assert!(!worker.is_retired());
}

#[test]
fn worker_turn_stops_when_nobody_takes_the_answer() {
    let (task_in, task_out) = unbounded::<Task>();
    let (msg_in, msg_out) = unbounded::<Msg>();
    drop(msg_out);
    let mut worker = Worker::new(2);
    let third = Number::from_inv(3, 2);
    assert!(task_in.send(Task::new(false, 1, Term::init(3, &third))).is_ok());
    assert!(!worker_turn(&mut worker, &task_out, &msg_in));
}

#[test]
fn worker_turn_refuses_a_task_of_another_precision() {
    let (task_in, task_out) = unbounded::<Task>();
    let (msg_in, msg_out) = unbounded::<Msg>();
    let mut worker = Worker::new(2);
    let third = Number::from_inv(3, 3);
    assert!(task_in.send(Task::new(false, 1, Term::init(3, &third))).is_ok());
    assert!(!worker_turn(&mut worker, &task_out, &msg_in));
    assert!(msg_out.try_recv().is_err());
}

#[test]
fn worker_turn_retires_on_a_zero_quotient_and_sends_its_sum_once() {
    let (task_in, task_out) = unbounded::<Task>();
    let (msg_in, msg_out) = unbounded::<Msg>();
    let mut worker = Worker::new(1);
    let fifth = Number::from_inv(5, 1);
    assert!(task_in.send(Task::new(false, 1, Term::init(5, &fifth))).is_ok());
    let tiny = Term::init(u64::MAX, &Number::from_inv(u64::MAX, 1));
    assert!(task_in.send(Task::new(true, 2, tiny)).is_ok());
    assert!(task_in.send(Task::new(false, 1, Term::init(5, &fifth))).is_ok());
    assert!(worker_turn(&mut worker, &task_out, &msg_in));
    assert!(!worker_turn(&mut worker, &task_out, &msg_in));
    assert!(worker.is_retired());
    // a retired worker takes nothing more
    assert!(!worker_turn(&mut worker, &task_out, &msg_in));
    assert_eq!(task_out.len(), 1);
    assert!(matches!(msg_out.try_recv(), Ok(Msg::Term(_))));
    match msg_out.try_recv() {
        Ok(Msg::Number(partial)) => assert_eq!(partial.limbs(), fifth.limbs()),
        _ => panic!("no partial sum came"),
    }
    assert!(msg_out.try_recv().is_err());
}

#[test]
fn dispatcher_turn_issues_until_the_pool_is_empty() {
    let (task_in, task_out) = unbounded::<Task>();
    let (_msg_in, msg_out) = unbounded::<Msg>();
    let mut d = Dispatcher::new(5, 1, 2);
    assert!(dispatcher_turn(&mut d, &task_in, &msg_out));
    assert!(dispatcher_turn(&mut d, &task_in, &msg_out));
    assert!(dispatcher_turn(&mut d, &task_in, &msg_out));
    assert_eq!(d.phase(), Phase::Draining);
    assert_eq!(task_out.len(), 3);
    let first = task_out.try_recv().unwrap();
    assert!(first.neg());
    assert_eq!(first.divisor(), 75);
}

#[test]
fn dispatcher_turn_stops_when_no_message_can_come() {
    let (task_in, _task_out) = unbounded::<Task>();
    let (msg_in, msg_out) = unbounded::<Msg>();
    drop(msg_in);
    let mut d = Dispatcher::new(5, 1, 2);
    while d.phase() == Phase::Issuing {
        assert!(dispatcher_turn(&mut d, &task_in, &msg_out));
    }
    assert!(!dispatcher_turn(&mut d, &task_in, &msg_out));
}

#[test]
fn dispatcher_turn_gives_up_tasks_that_find_no_worker() {
    let (task_in, task_out) = unbounded::<Task>();
    let (_msg_in, msg_out) = unbounded::<Msg>();
    drop(task_out);
    let mut d = Dispatcher::new(5, 1, 2);
    assert!(dispatcher_turn(&mut d, &task_in, &msg_out));
    assert_eq!(d.outstanding(), 0);
}

#[test]
fn dispatcher_turn_stops_on_a_message_that_answers_nothing() {
    let (task_in, _task_out) = unbounded::<Task>();
    let (msg_in, msg_out) = unbounded::<Msg>();
    let mut d = Dispatcher::new(5, 1, 2);
    while d.phase() == Phase::Issuing {
        assert!(dispatcher_turn(&mut d, &task_in, &msg_out));
    }
    assert!(msg_in.send(Msg::Number(Number::zero(5))).is_ok());
    assert!(!dispatcher_turn(&mut d, &task_in, &msg_out));
}

#[test]
fn turns_on_one_thread_give_the_scalar_sum() {
    for &(x, n, nworkers) in &[(5u64, 8usize, 1usize), (239, 8, 3), (300, 5, 4), (2, 2, 2)] {
        let (task_in, task_out) = unbounded::<Task>();
        let (msg_in, msg_out) = unbounded::<Msg>();
        let mut d = Dispatcher::new(x, nworkers, n);
        let mut workers: Vec<Worker> = (0..nworkers).map(|_| Worker::new(n)).collect();
        let mut at = 0usize;
        loop {
            if d.phase() == Phase::Finished {
                break;
            }
            if d.phase() == Phase::Issuing {
                assert!(dispatcher_turn(&mut d, &task_in, &msg_out));
                continue;
            }
            // draining: let the workers take what is queued, in turn
            while !task_out.is_empty() {
                let mut tried = 0;
                while workers[at % nworkers].is_retired() && tried < nworkers {
                    at += 1;
                    tried += 1;
                }
                if tried == nworkers {
                    break;
                }
                worker_turn(&mut workers[at % nworkers], &task_out, &msg_in);
                at += 1;
            }
            if msg_out.is_empty() {
                break;
            }
            while !msg_out.is_empty() {
                assert!(dispatcher_turn(&mut d, &task_in, &msg_out) || d.phase() == Phase::Finished);
                if d.phase() != Phase::Draining {
                    break;
                }
            }
        }
        assert_eq!(d.phase(), Phase::Finished);
        assert_eq!(d.into_result().limbs(), ataninv_scalar(x, n).limbs());
    }
}
