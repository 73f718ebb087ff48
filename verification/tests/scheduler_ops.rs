use lune::scheduler::clamp_wake;
use lune::scheduler::SchedError;
use lune::scheduler::Scheduler;
use lune::scheduler::TaskState;

#[test]
fn fresh_scheduler_is_quiescent() {
    let s = Scheduler::new();
    assert!(s.is_quiescent());
    assert!(s.is_idle());
    assert_eq!(s.num_tasks(), 0);
}

#[test]
fn deferred_task_queues_and_runs_in_order() {
    let mut s = Scheduler::new();
    let a = s.create_deferred();
    let b = s.create_deferred();
    assert_eq!(s.state_of(a), TaskState::Runnable);
    assert_eq!(s.ready_len(), 2);
    let first = s.take_next().unwrap();
    assert_eq!(first.id, a.id);
    assert_eq!(s.state_of(a), TaskState::Running);
    s.complete(first);
    assert_eq!(s.state_of(a), TaskState::Completed);
    let second = s.take_next().unwrap();
    assert_eq!(second.id, b.id);
    s.complete(second);
    assert!(s.take_next().is_none());
    assert!(s.is_quiescent());
}

#[test]
fn cancel_is_idempotent() {
    let mut s = Scheduler::new();
    let h = s.create_deferred();
    assert_eq!(s.cancel(h), Ok(true));
    assert_eq!(s.state_of(h), TaskState::Cancelled);
    assert!(s.is_quiescent());
    // the second cancellation observes a terminal context: a no-op
    assert_eq!(s.cancel(h), Ok(false));
    assert_eq!(s.state_of(h), TaskState::Cancelled);
    assert!(s.is_quiescent());
}

#[test]
fn cancel_of_completed_task_is_noop() {
    let mut s = Scheduler::new();
    let h = s.create_immediate();
    s.start(h);
    s.complete(h);
    assert_eq!(s.cancel(h), Ok(false));
    assert_eq!(s.state_of(h), TaskState::Completed);
}

#[test]
fn cancel_of_running_task_is_rejected() {
    let mut s = Scheduler::new();
    let h = s.create_immediate();
    s.start(h);
    assert_eq!(s.cancel(h), Err(SchedError::InvalidCancellation));
    // the rejection changed nothing: the context still runs
    assert_eq!(s.state_of(h), TaskState::Running);
}

#[test]
fn cancel_of_delayed_task_releases_its_timer() {
    let mut s = Scheduler::new();
    let h = s.create_delayed(0, 5);
    assert_eq!(s.state_of(h), TaskState::Suspended);
    assert_eq!(s.next_wake(), Some(5));
    assert_eq!(s.cancel(h), Ok(true));
    assert_eq!(s.next_wake(), None);
    assert!(s.is_quiescent());
}

#[test]
fn timers_fire_in_wake_order_with_ties_by_registration() {
    let mut s = Scheduler::new();
    let slow = s.create_delayed(0, 7);
    let fast = s.create_delayed(0, 2);
    let tie = s.create_delayed(0, 2);
    assert_eq!(s.next_wake(), Some(2));
    s.drain_timers(1);
    assert_eq!(s.ready_len(), 0);
    s.drain_timers(2);
    assert_eq!(s.ready_len(), 2);
    assert_eq!(s.take_next().unwrap().id, fast.id);
    assert_eq!(s.take_next().unwrap().id, tie.id);
    assert_eq!(s.state_of(slow), TaskState::Suspended);
    s.drain_timers(7);
    assert_eq!(s.take_next().unwrap().id, slow.id);
}

#[test]
fn nonpositive_delay_wakes_on_next_drain() {
    let mut s = Scheduler::new();
    let zero = s.create_delayed(3, 0);
    let negative = s.create_delayed(3, -1);
    s.drain_timers(3);
    assert_eq!(s.state_of(zero), TaskState::Runnable);
    assert_eq!(s.state_of(negative), TaskState::Runnable);
}

#[test]
fn wake_resolution_is_idempotent() {
    let mut s = Scheduler::new();
    let h = s.create_immediate();
    s.start(h);
    s.suspend_indefinite(h);
    assert_eq!(s.state_of(h), TaskState::Suspended);
    assert!(s.wake(h));
    assert_eq!(s.state_of(h), TaskState::Runnable);
    // resolving the registration again is a no-op, not an error
    assert!(!s.wake(h));
    assert_eq!(s.state_of(h), TaskState::Runnable);
    assert_eq!(s.ready_len(), 1);
}

#[test]
fn failed_task_leaves_siblings_untouched() {
    let mut s = Scheduler::new();
    let sibling = s.create_deferred();
    let timed = s.create_delayed(0, 4);
    let failing = s.create_immediate();
    s.start(failing);
    s.fail(failing);
    assert_eq!(s.state_of(failing), TaskState::Failed);
    assert_eq!(s.state_of(sibling), TaskState::Runnable);
    assert_eq!(s.state_of(timed), TaskState::Suspended);
    assert_eq!(s.ready_len(), 1);
    assert_eq!(s.next_wake(), Some(4));
}

#[test]
fn timed_wait_suspends_until_drain() {
    let mut s = Scheduler::new();
    let h = s.create_immediate();
    s.start(h);
    s.suspend_timed(h, 10, 3);
    assert_eq!(s.state_of(h), TaskState::Suspended);
    assert_eq!(s.next_wake(), Some(13));
    s.drain_timers(12);
    assert_eq!(s.state_of(h), TaskState::Suspended);
    s.drain_timers(14);
    assert_eq!(s.state_of(h), TaskState::Runnable);
    assert_eq!(s.take_next().unwrap().id, h.id);
}

#[test]
fn clamp_wake_keeps_fitting_durations_and_caps_the_rest() {
    assert_eq!(clamp_wake(0, 5), 5);
    assert_eq!(clamp_wake(0, -3), -3);
    assert_eq!(clamp_wake(u64::MAX - 5, 10), 5);
    assert_eq!(clamp_wake(u64::MAX, 10), 0);
    assert_eq!(clamp_wake(0, i64::MAX), i64::MAX);
}
