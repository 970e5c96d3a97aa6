use picalc::atan::{ataninv, ataninv_scalar};
use picalc::schedule::{ataninv_scheduled, Move};
use picalc::dispatch::{Dispatcher, Msg, Phase, Task, Worker};
use picalc::number::Number;
use picalc::term::Term;

#[test]
fn scalar_matches_the_series_term_by_term() {
    assert_eq!(
        ataninv_scalar(5, 2).limbs(),
        &vec![0x328883f1ee4c16cbu64, 0xb3c14c813aedc46e]
    );
    assert_eq!(
        ataninv_scalar(239, 3).limbs(),
        &vec![0x0112352597c798fau64, 0x0a3ecf796adaf4f0, 0xd942131ea4303ac8]
    );
    assert_eq!(ataninv_scalar(2, 1).limbs(), &vec![0x76b19c1586ed3da4u64]);
}

#[test]
fn scalar_with_a_base_whose_powers_outgrow_64_bits() {
    // 300^8 does not fit in 64 bits: the reference term has to move forward.
    assert_eq!(
        ataninv_scalar(300, 4).limbs(),
        &vec![
            0x00da73d8a1204eadu64,
            0xa3076215b56bfccd,
            0x475ffd60705961c3,
            0xa4542312a33340a8
        ]
    );
    assert_eq!(
        ataninv_scalar(70000, 2).limbs(),
        &vec![0x0000efacacf797cdu64, 0x03e6e1f1b6db5e39]
    );
    assert_eq!(
        ataninv_scalar(4294967295, 3).limbs(),
        &vec![0x0000000100000001u64, 0x00000000aaaaaaaa, 0xaaaaaaa9dddddddd]
    );
}

#[test]
fn scalar_of_one_is_zero() {
    assert!(ataninv_scalar(1, 3).is_zero());
    assert!(ataninv(1, 2, 3).is_zero());
}

#[test]
fn scalar_without_limbs_is_empty() {
    assert_eq!(ataninv_scalar(5, 0).len(), 0);
    assert_eq!(ataninv(5, 3, 0).len(), 0);
}

#[test]
fn every_worker_count_gives_the_same_limbs() {
    for &(x, n) in &[(5u64, 64usize), (239, 64), (300, 7), (2, 3), (70000, 5)] {
        let reference = ataninv(x, 0, n);
        for &workers in &[1usize, 4, 8] {
            let pooled = ataninv(x, workers, n);
            assert_eq!(pooled.limbs(), reference.limbs());
            assert_eq!(pooled.leading_zeros(), reference.leading_zeros());
        }
    }
}

#[test]
fn machin_formula_gives_pi_with_workers() {
    let mut pi = ataninv(5, 4, 64);
    let small = ataninv(239, 4, 64);
    pi.mul4();
    pi.sub_assign(&small);
    pi.mul4();
    assert_eq!(pi.limbs()[0], 0x243f6a8885a308d3);
    assert_eq!(pi.limbs()[15], 0x636920d871574e69);
}

#[test]
fn dispatcher_starts_issuing_with_two_spare_terms() {
    let d = Dispatcher::new(5, 3, 4);
    assert_eq!(d.phase(), Phase::Issuing);
    assert_eq!(d.outstanding(), 0);
    assert_eq!(d.result().limbs(), Number::from_inv(5, 4).limbs());
}

#[test]
fn dispatcher_without_workers_is_finished() {
    let d = Dispatcher::new(5, 0, 4);
    assert_eq!(d.phase(), Phase::Finished);
}

#[test]
fn dispatcher_drains_when_the_pool_is_empty() {
    let mut d = Dispatcher::new(5, 1, 2);
    let t1 = d.issue();
    let t2 = d.issue();
    let t3 = d.issue();
    assert_eq!(d.phase(), Phase::Draining);
    assert_eq!(d.outstanding(), 3);
    // signs alternate, starting negative; exponents 3, 5, 7
    assert!(t1.neg());
    assert!(!t2.neg());
    assert!(t3.neg());
    assert_eq!(t1.divisor(), 3 * 25);
    assert_eq!(t2.divisor(), 5 * 625);
    assert_eq!(t3.divisor(), 7 * 15625);
    assert_eq!(t1.term().denom(), 1);
    let msg = Msg::Term(Term::init(5, &Number::from_inv(5, 2)));
    assert!(d.accepts(&msg));
    d.receive(msg);
    assert_eq!(d.phase(), Phase::Issuing);
    assert_eq!(d.outstanding(), 2);
}

#[test]
fn dispatcher_moves_the_reference_term_before_a_divisor_overflows() {
    // x = 65535: x^2 < 2^32, 3 x^2 fits, 5 x^4 does not fit in 64 bits.
    let mut d = Dispatcher::new(65535, 4, 2);
    let t1 = d.issue();
    assert_eq!(t1.divisor(), 3 * 65535 * 65535);
    assert_eq!(t1.term().denom(), 1);
    assert_eq!(d.reference().term().denom(), 1);
    let t2 = d.issue();
    // the reference term has moved to 1 / x^5, and the divisor is 5 alone
    assert_eq!(t2.divisor(), 5);
    assert_eq!(t2.term().denom(), 5);
    assert_eq!(d.reference().term().denom(), 5);
    assert!(!t2.neg());
    let mut expected = Number::from_inv(65535, 2);
    expected.div_assign(65535 * 65535);
    expected.div_assign(65535 * 65535);
    assert_eq!(t2.term().val().limbs(), expected.limbs());
}

#[test]
fn dispatcher_refuses_what_answers_no_task() {
    let d = Dispatcher::new(5, 2, 2);
    assert!(!d.accepts(&Msg::Number(Number::zero(2))));
    let mut d = Dispatcher::new(5, 2, 2);
    let _task = d.issue();
    assert!(d.accepts(&Msg::Number(Number::zero(2))));
    assert!(!d.accepts(&Msg::Number(Number::zero(3))));
    assert!(!d.accepts(&Msg::Term(Term::init(5, &Number::from_inv(5, 3)))));
    d.abandon();
    assert_eq!(d.outstanding(), 0);
}

#[test]
fn worker_adds_subtracts_and_retires() {
    let mut w = Worker::new(2);
    assert!(!w.is_retired());
    assert_eq!(w.len(), 2);
    let third = Number::from_inv(3, 2);
    let task = Task::new(false, 1, Term::init(3, &third));
    match w.process(task) {
        Msg::Term(t) => assert_eq!(t.val().limbs(), third.limbs()),
        Msg::Number(_) => panic!("retired on a quotient that is not zero"),
    }
    let task = Task::new(true, 2, Term::init(3, &third));
    match w.process(task) {
        Msg::Term(_) => {}
        Msg::Number(_) => panic!("retired on a quotient that is not zero"),
    }
    // 1/3 - 1/6 = 1/6, rounded down in each term
    let task = Task::new(false, u64::MAX, Term::init(3, &Number::from_inv(3, 2)));
    // (2^128 / 3) / (2^64 - 1) is not zero: still no retirement
    match w.process(task) {
        Msg::Term(_) => {}
        Msg::Number(_) => panic!("retired on a quotient that is not zero"),
    }
    assert!(!w.is_retired());
    let tiny = Term::init(u64::MAX, &Number::from_inv(u64::MAX, 1));
    let mut one_limb = Worker::new(1);
    let task = Task::new(false, 2, tiny);
    match one_limb.process(task) {
        Msg::Number(partial) => assert!(partial.is_zero()),
        Msg::Term(_) => panic!("a quotient of zero did not retire the worker"),
    }
    assert!(one_limb.is_retired());
}

#[test]
fn retiring_worker_hands_in_its_partial_sum() {
    let mut w = Worker::new(1);
    let fifth = Number::from_inv(5, 1);
    match w.process(Task::new(false, 1, Term::init(5, &fifth))) {
        Msg::Term(_) => {}
        Msg::Number(_) => panic!("retired early"),
    }
    let tiny = Term::init(u64::MAX, &Number::from_inv(u64::MAX, 1));
    match w.process(Task::new(true, 2, tiny)) {
        Msg::Number(partial) => assert_eq!(partial.limbs(), fifth.limbs()),
        Msg::Term(_) => panic!("a quotient of zero did not retire the worker"),
    }
}

#[test]
fn hand_run_protocol_agrees_with_the_scalar_sum() {
    // Two workers; the second one takes every third task.
    let (x, n) = (7u64, 3usize);
    let mut d = Dispatcher::new(x, 2, n);
    let mut a = Worker::new(n);
    let mut b = Worker::new(n);
    let mut turn = 0usize;
    while d.phase() != Phase::Finished {
        assert_eq!(d.phase(), Phase::Issuing);
        let task = d.issue();
        let worker = if turn % 3 == 2 { &mut b } else { &mut a };
        turn += 1;
        if worker.is_retired() {
            d.abandon();
            continue;
        }
        let msg = worker.process(task);
        assert!(d.accepts(&msg));
        d.receive(msg);
    }
    assert_eq!(d.into_result().limbs(), ataninv_scalar(x, n).limbs());
}

/// A stream of moves from a linear congruential generator.
fn moves_from(seed: u64, count: usize) -> Vec<Move> {
    let mut state = seed;
    let mut moves = Vec::new();
    for _ in 0..count {
        state = state.wrapping_mul(6364136223846793005).wrapping_add(1442695040888963407);
        let pick = (state >> 33) as usize;
        moves.push(match pick % 3 {
            0 => Move::Issue,
            1 => Move::Work(pick / 3),
            _ => Move::Collect(pick / 3),
        });
    }
    moves
}

#[test]
fn every_order_of_moves_gives_the_same_limbs() {
    let (x, n) = (239u64, 9usize);
    let reference = ataninv_scalar(x, n);
    let mut schedules: Vec<Vec<Move>> = vec![
        vec![],
        vec![Move::Issue; 40],
        vec![Move::Work(0); 10],
        vec![Move::Collect(7); 10],
        vec![Move::Issue, Move::Issue, Move::Work(1), Move::Issue, Move::Work(0), Move::Collect(1)],
        vec![Move::Issue, Move::Work(usize::MAX), Move::Collect(usize::MAX)],
    ];
    for seed in 1..12 {
        schedules.push(moves_from(seed, 400));
    }
    for moves in schedules.iter() {
        for &workers in &[1usize, 2, 5] {
            let run = ataninv_scheduled(x, workers, n, moves);
            assert_eq!(run.limbs(), reference.limbs());
            assert_eq!(run.leading_zeros(), reference.leading_zeros());
        }
    }
    assert_eq!(ataninv_scheduled(x, 0, n, &moves_from(3, 20)).limbs(), reference.limbs());
}

#[test]
fn moves_that_leave_tasks_queued_when_the_workers_retire() {
    // One limb, base 2^16: the series runs out after a few terms. The moves
    // hand out every free term before a worker takes the first.
    let (x, n) = (65536u64, 1usize);
    let reference = ataninv_scalar(x, n);
    for &workers in &[1usize, 3] {
        let mut moves = vec![Move::Issue; workers + 2];
        moves.extend(vec![Move::Work(0); workers + 2]);
        moves.extend(vec![Move::Collect(0); workers + 2]);
        moves.extend(vec![Move::Issue; workers + 2]);
        let run = ataninv_scheduled(x, workers, n, &moves);
        assert_eq!(run.limbs(), reference.limbs());
    }
}

#[test]
fn worker_answers_only_a_task_that_it_takes() {
    let third = Number::from_inv(3, 2);
    let mut w = Worker::new(2);
    // nothing came
    assert!(w.answer(None).is_none());
    // a task of another precision
    let other = Task::new(false, 1, Term::init(3, &Number::from_inv(3, 3)));
    assert!(w.answer(Some(other)).is_none());
    assert!(!w.is_retired());
    // a task that it takes: the term comes back
    match w.answer(Some(Task::new(false, 1, Term::init(3, &third)))) {
        Some(Msg::Term(term)) => assert_eq!(term.val().limbs(), third.limbs()),
        _ => panic!("no term came back"),
    }
    // a quotient of zero: the partial sum comes back, and nothing after it
    let x = u32::MAX as u64;
    let mut tiny = Term::init(x, &Number::from_inv(x, 2));
    tiny.advance_to(3);
    match w.answer(Some(Task::new(true, u64::MAX, tiny))) {
        Some(Msg::Number(partial)) => assert_eq!(partial.limbs(), third.limbs()),
        _ => panic!("no partial sum came back"),
    }
    assert!(w.is_retired());
    assert!(w.answer(Some(Task::new(false, 1, Term::init(3, &third)))).is_none());
    assert!(w.answer(None).is_none());
}
