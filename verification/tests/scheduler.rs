use ternoa_scheduler::engine::{SchedError, Scheduler};
use ternoa_scheduler::preimages::PreimageStore;
use ternoa_scheduler::task::{Call, CallRef, Period, TaskId, TaskStatus};
use ternoa_scheduler::weight::{CostParams, Weight};

fn w(compute: u64) -> Weight {
    Weight { compute, io: 0 }
}

fn unlimited() -> Weight {
    Weight { compute: u64::MAX, io: u64::MAX }
}

fn free_costs() -> CostParams {
    CostParams { bookkeeping: Weight::zero(), preimage_lookup: Weight::zero() }
}

fn charged_costs() -> CostParams {
    CostParams { bookkeeping: w(7), preimage_lookup: w(11) }
}

fn inline(cost: u64) -> CallRef {
    CallRef::Inline(Call { cost: w(cost), succeeds: true, actual_cost: w(cost) })
}

#[test]
fn idempotent_naming() {
    let mut s = Scheduler::new(free_costs());
    let id = s
        .schedule_named(b"job".to_vec(), 5, 0, 1, inline(10), None)
        .expect("first named schedule succeeds");
    let second = s.schedule_named(b"job".to_vec(), 7, 0, 1, inline(10), None);
    assert_eq!(second, Err(SchedError::NameAlreadyUsed));
    // the original task is untouched, and nothing appeared at step 7
    assert_eq!(s.task_status(id), Some(TaskStatus::Pending));
    assert_eq!(s.agenda_len(5), 1);
    assert_eq!(s.agenda_len(7), 0);
    assert_eq!(s.name_location(&b"job".to_vec()), Some(id));
}

#[test]
fn order_preservation_under_deferral() {
    let mut s = Scheduler::new(free_costs());
    let pre = PreimageStore::new();
    let a = s.schedule(1, 0, 10, inline(60), None);
    let b = s.schedule(1, 0, 11, inline(50), None);
    let c = s.schedule(1, 0, 12, inline(10), None);
    assert_eq!((a.when, b.when, c.when), (1, 1, 1));

    // step 1 under a budget of 100: only the first task fits
    let r1 = s.on_step(1, w(100), &pre);
    assert_eq!(r1.dispatched.len(), 1);
    assert_eq!(r1.dispatched[0].origin, 10);
    assert_eq!(r1.spent, w(60));
    assert_eq!(s.agenda_len(1), 0);
    assert_eq!(s.agenda_len(2), 2);

    // the rest ran a step later, intact and in order
    let r2 = s.on_step(2, w(100), &pre);
    assert_eq!(r2.dispatched.len(), 2);
    assert_eq!(r2.dispatched[0].origin, 11);
    assert_eq!(r2.dispatched[1].origin, 12);
    assert_eq!(r2.spent, w(60));
    assert_eq!(s.agenda_len(2), 0);
    assert_eq!(s.agenda_len(3), 0);
}

#[test]
fn periodic_rearm() {
    let mut s = Scheduler::new(free_costs());
    let pre = PreimageStore::new();
    let name = b"p".to_vec();
    let period = Period { interval: 100, remaining: Some(1) };
    s.schedule_named(name.clone(), 100, 0, 1, inline(5), Some(period))
        .expect("name is free");

    // executes at step 100 and re-arms to step 200 with one repeat spent
    let r100 = s.on_step(100, unlimited(), &pre);
    assert_eq!(r100.dispatched.len(), 1);
    let id200 = s.name_location(&name).expect("re-armed task is still indexed");
    assert_eq!(id200.when, 200);
    assert_eq!(
        s.task_period(id200),
        Some(Some(Period { interval: 100, remaining: Some(0) }))
    );

    // executes again at step 200 and does not re-arm
    let r200 = s.on_step(200, unlimited(), &pre);
    assert_eq!(r200.dispatched.len(), 1);
    assert_eq!(s.name_location(&name), None);
    assert_eq!(s.agenda_len(300), 0);
    let r300 = s.on_step(300, unlimited(), &pre);
    assert_eq!(r300.dispatched.len(), 0);
}

#[test]
fn cancellation_atomicity() {
    let mut s = Scheduler::new(charged_costs());
    let pre = PreimageStore::new();
    let name = b"p".to_vec();
    let id = s
        .schedule_named(name.clone(), 100, 0, 1, inline(5), None)
        .expect("name is free");

    assert_eq!(s.cancel_named(&name), Ok(()));
    // the index entry is gone at once and the slot is a tombstone
    assert_eq!(s.name_location(&name), None);
    assert_eq!(s.task_status(id), Some(TaskStatus::Aborted));
    // the name is reusable right away
    let again = s.schedule_named(name.clone(), 150, 0, 1, inline(5), None);
    assert!(again.is_ok());

    // step 100 neither dispatches the cancelled task nor errors; it only
    // purges the tombstone at the bookkeeping charge
    let r = s.on_step(100, unlimited(), &pre);
    assert_eq!(r.dispatched.len(), 0);
    assert_eq!(r.spent, w(7));
    assert_eq!(s.agenda_len(100), 0);
}

#[test]
fn preimage_abort() {
    let mut s = Scheduler::new(charged_costs());
    let pre = PreimageStore::new();
    let name = b"h".to_vec();
    let id = s
        .schedule_named(name.clone(), 10, 0, 9, CallRef::Hashed(42), None)
        .expect("name is free");
    assert_eq!(id.when, 10);

    // the hash never resolves: the task is aborted, purged, never dispatched
    let r = s.on_step(10, unlimited(), &pre);
    assert_eq!(r.dispatched.len(), 0);
    assert_eq!(r.spent, w(11));
    assert_eq!(s.agenda_len(10), 0);
    assert_eq!(s.agenda_len(11), 0);
    assert_eq!(s.name_location(&name), None);
    let r11 = s.on_step(11, unlimited(), &pre);
    assert_eq!(r11.dispatched.len(), 0);
}

#[test]
fn resolved_hash_dispatches() {
    let mut s = Scheduler::new(free_costs());
    let mut pre = PreimageStore::new();
    pre.provide(42, Call { cost: w(20), succeeds: true, actual_cost: w(20) });
    s.schedule(3, 0, 4, CallRef::Hashed(42), None);
    let r = s.on_step(3, w(100), &pre);
    assert_eq!(r.dispatched.len(), 1);
    assert_eq!(r.dispatched[0].consumed, w(20));
    assert!(r.dispatched[0].success);
    assert_eq!(r.spent, w(20));
}

#[test]
fn determinism_round_trip() {
    let script = |s: &mut Scheduler, pre: &PreimageStore| {
        let mut log: Vec<(u64, u64, bool)> = Vec::new();
        s.schedule(1, 2, 100, inline(30), None);
        s.schedule_named(b"a".to_vec(), 1, 1, 101, inline(40), None).unwrap();
        s.schedule_named(b"b".to_vec(), 2, 0, 102, CallRef::Hashed(7), None).unwrap();
        let c = s.schedule(2, 0, 103, inline(25), Some(Period { interval: 3, remaining: Some(2) }));
        s.cancel(c).unwrap();
        s.cancel_named(&b"b".to_vec()).unwrap();
        for now in 1..6u64 {
            let r = s.on_step(now, w(55), pre);
            for d in r.dispatched {
                log.push((d.task_seq, d.origin, d.success));
            }
        }
        log
    };
    let mut pre = PreimageStore::new();
    pre.provide(7, Call { cost: w(5), succeeds: false, actual_cost: w(5) });

    let mut s1 = Scheduler::new(free_costs());
    let mut s2 = Scheduler::new(free_costs());
    let log1 = script(&mut s1, &pre);
    let log2 = script(&mut s2, &pre);
    assert_eq!(log1, log2);
    // the resulting stores agree on everything observable
    assert_eq!(s1.current_horizon(), s2.current_horizon());
    for step in 0..12u64 {
        assert_eq!(s1.agenda_len(step), s2.agenda_len(step));
        for index in 0..s1.agenda_len(step) {
            let id = TaskId { when: step, index };
            assert_eq!(s1.task_seq(id), s2.task_seq(id));
            assert_eq!(s1.task_status(id), s2.task_status(id));
            assert_eq!(s1.task_period(id), s2.task_period(id));
        }
    }
    assert_eq!(s1.name_location(&b"a".to_vec()), s2.name_location(&b"a".to_vec()));
    assert_eq!(s1.name_location(&b"b".to_vec()), s2.name_location(&b"b".to_vec()));
}

#[test]
fn priority_orders_one_step() {
    let mut s = Scheduler::new(free_costs());
    let pre = PreimageStore::new();
    s.schedule(1, 5, 50, inline(1), None);
    s.schedule(1, 1, 51, inline(1), None);
    s.schedule(1, 5, 52, inline(1), None);
    let r = s.on_step(1, w(100), &pre);
    // lower priority value first; insertion order breaks the tie
    assert_eq!(r.dispatched.len(), 3);
    assert_eq!(r.dispatched[0].origin, 51);
    assert_eq!(r.dispatched[1].origin, 50);
    assert_eq!(r.dispatched[2].origin, 52);
}

#[test]
fn cancel_keeps_sibling_positions() {
    let mut s = Scheduler::new(free_costs());
    let first = s.schedule(4, 0, 1, inline(1), None);
    let second = s.schedule(4, 0, 2, inline(1), None);
    assert_eq!(s.cancel(first), Ok(()));
    // the tombstone stays in place, so the sibling's location is unchanged
    assert_eq!(s.task_status(first), Some(TaskStatus::Aborted));
    assert_eq!(s.task_status(second), Some(TaskStatus::Pending));
    assert_eq!(s.agenda_len(4), 2);
    let pre = PreimageStore::new();
    let r = s.on_step(4, w(100), &pre);
    assert_eq!(r.dispatched.len(), 1);
    assert_eq!(r.dispatched[0].origin, 2);
}

#[test]
fn cancel_unknown_task_fails() {
    let mut s = Scheduler::new(free_costs());
    s.schedule(4, 0, 1, inline(1), None);
    let r = s.cancel(TaskId { when: 4, index: 3 });
    assert_eq!(r, Err(SchedError::TaskNotFound));
    let r2 = s.cancel(TaskId { when: 9, index: 0 });
    assert_eq!(r2, Err(SchedError::TaskNotFound));
    assert_eq!(s.agenda_len(4), 1);
}

#[test]
fn cancel_unknown_name_fails() {
    let mut s = Scheduler::new(free_costs());
    let r = s.cancel_named(&b"missing".to_vec());
    assert_eq!(r, Err(SchedError::NameNotFound));
}

#[test]
fn oversized_first_task_defers_whole_agenda() {
    let mut s = Scheduler::new(free_costs());
    let pre = PreimageStore::new();
    s.schedule(1, 0, 1, inline(60), None);
    s.schedule(1, 0, 2, inline(5), None);
    // the engine stops at the first task it cannot afford: it does not skip
    // ahead to the cheaper one
    let r = s.on_step(1, w(10), &pre);
    assert_eq!(r.dispatched.len(), 0);
    assert_eq!(r.spent, w(0));
    assert_eq!(s.agenda_len(1), 0);
    assert_eq!(s.agenda_len(2), 2);
}

#[test]
fn io_dimension_exhausts_budget() {
    let mut s = Scheduler::new(free_costs());
    let pre = PreimageStore::new();
    let costly_io = Call {
        cost: Weight { compute: 1, io: 50 },
        succeeds: true,
        actual_cost: Weight { compute: 1, io: 50 },
    };
    s.schedule(1, 0, 1, CallRef::Inline(costly_io), None);
    // plenty of compute, not enough storage I/O: the task is deferred
    let r = s.on_step(1, Weight { compute: 1000, io: 10 }, &pre);
    assert_eq!(r.dispatched.len(), 0);
    assert_eq!(s.agenda_len(2), 1);
}

#[test]
fn actual_cost_below_estimate_frees_budget() {
    let mut s = Scheduler::new(free_costs());
    let pre = PreimageStore::new();
    let a = Call { cost: w(60), succeeds: true, actual_cost: w(30) };
    s.schedule(1, 0, 1, CallRef::Inline(a), None);
    s.schedule(1, 0, 2, inline(60), None);
    // the first estimate is 60, but it only consumes 30, so the second
    // task's estimate of 60 still fits the budget of 100
    let r = s.on_step(1, w(100), &pre);
    assert_eq!(r.dispatched.len(), 2);
    assert_eq!(r.spent, w(90));
}

#[test]
fn failed_dispatch_does_not_stop_the_step() {
    let mut s = Scheduler::new(free_costs());
    let pre = PreimageStore::new();
    let failing = Call { cost: w(10), succeeds: false, actual_cost: w(10) };
    s.schedule(1, 0, 1, CallRef::Inline(failing), None);
    s.schedule(1, 0, 2, inline(10), None);
    let r = s.on_step(1, w(100), &pre);
    assert_eq!(r.dispatched.len(), 2);
    assert!(!r.dispatched[0].success);
    assert!(r.dispatched[1].success);
}

#[test]
fn horizon_advances_per_step() {
    let mut s = Scheduler::new(free_costs());
    let pre = PreimageStore::new();
    assert_eq!(s.current_horizon(), 0);
    s.on_step(0, w(1), &pre);
    assert_eq!(s.current_horizon(), 1);
    s.on_step(5, w(1), &pre);
    assert_eq!(s.current_horizon(), 6);
}

#[test]
fn anonymous_duplicates_are_independent() {
    let mut s = Scheduler::new(free_costs());
    let pre = PreimageStore::new();
    let first = s.schedule(2, 0, 1, inline(5), None);
    let second = s.schedule(2, 0, 1, inline(5), None);
    assert_ne!(first.index, second.index);
    let r = s.on_step(2, w(100), &pre);
    assert_eq!(r.dispatched.len(), 2);
    assert_ne!(r.dispatched[0].task_seq, r.dispatched[1].task_seq);
}

#[test]
fn weight_arithmetic() {
    let a = Weight { compute: 1, io: 2 };
    let b = Weight { compute: 3, io: 4 };
    assert_eq!(a.saturating_add(b), Weight { compute: 4, io: 6 });
    let big = Weight { compute: u64::MAX - 1, io: 0 };
    assert_eq!(
        big.saturating_add(Weight { compute: 5, io: 1 }),
        Weight { compute: u64::MAX, io: 1 }
    );
    assert!(a.fits(b));
    assert!(!b.fits(a));
    assert!(!Weight { compute: 0, io: 5 }.fits(Weight { compute: 9, io: 4 }));
    assert_eq!(Weight::zero(), Weight { compute: 0, io: 0 });
}

#[test]
fn preimage_store_lookup() {
    let mut pre = PreimageStore::new();
    assert!(!pre.is_available(1));
    let c1 = Call { cost: w(1), succeeds: true, actual_cost: w(1) };
    let c2 = Call { cost: w(2), succeeds: true, actual_cost: w(2) };
    pre.provide(1, c1);
    pre.provide(2, c2);
    assert!(pre.is_available(1));
    assert!(pre.is_available(2));
    assert!(!pre.is_available(3));
    assert_eq!(pre.fetch(2), Some(c2));
    assert_eq!(pre.fetch(1), Some(c1));
    assert_eq!(pre.fetch(9), None);
}

#[test]
fn periodic_without_repeat_bound_rearms_forever() {
    let mut s = Scheduler::new(free_costs());
    let pre = PreimageStore::new();
    s.schedule(1, 0, 1, inline(5), Some(Period { interval: 2, remaining: None }));
    for now in [1u64, 3, 5, 7] {
        let r = s.on_step(now, w(100), &pre);
        assert_eq!(r.dispatched.len(), 1);
        assert_eq!(s.agenda_len(now + 2), 1);
    }
}

#[test]
fn deferred_named_task_stays_indexed() {
    let mut s = Scheduler::new(free_costs());
    let pre = PreimageStore::new();
    let name = b"late".to_vec();
    s.schedule(1, 0, 1, inline(60), None);
    s.schedule_named(name.clone(), 1, 0, 2, inline(60), None).unwrap();
    let r = s.on_step(1, w(100), &pre);
    assert_eq!(r.dispatched.len(), 1);
    // the named task was deferred; its index entry follows it to step 2
    let id = s.name_location(&name).expect("still indexed");
    assert_eq!(id.when, 2);
    assert_eq!(s.task_status(id), Some(TaskStatus::Pending));
    let r2 = s.on_step(2, w(100), &pre);
    assert_eq!(r2.dispatched.len(), 1);
    assert_eq!(s.name_location(&name), None);
}
