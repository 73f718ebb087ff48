use lune::sim::run_programs;
use lune::sim::Event;
use lune::sim::ScriptOp;

const FUEL: u64 = 100;

#[test]
fn spawned_tasks_begin_in_call_order_before_deferred() {
    // root spawns two tasks and defers two more before yielding: the
    // spawned ones begin, in call order, before any deferred one begins
    let progs = vec![
        vec![
            ScriptOp::Spawn(1),
            ScriptOp::Spawn(2),
            ScriptOp::Defer(3),
            ScriptOp::Defer(4),
        ],
        vec![ScriptOp::Emit(1)],
        vec![ScriptOp::Emit(2)],
        vec![ScriptOp::Emit(3)],
        vec![ScriptOp::Emit(4)],
    ];
    let sim = run_programs(progs, FUEL);
    let began: Vec<usize> = sim
        .trace
        .iter()
        .filter_map(|e| match e {
            Event::Began(id) => Some(*id),
            _ => None,
        })
        .collect();
    // spawn children are ids 1 and 2 (created first), deferred are 3 and 4
    assert_eq!(began, vec![0, 1, 2, 3, 4]);
    assert!(sim.sched.is_quiescent());
}

#[test]
fn defer_then_spawn_runs_spawned_first() {
    // root defers A (id 1), then spawns B (id 2): B runs to completion
    // before A starts
    let progs = vec![
        vec![ScriptOp::Defer(1), ScriptOp::Spawn(2)],
        vec![ScriptOp::Emit(10)],
        vec![ScriptOp::Emit(20)],
    ];
    let sim = run_programs(progs, FUEL);
    let expected = vec![
        Event::Began(0),
        Event::Began(2),
        Event::Emitted(2, 20),
        Event::Completed(2),
        Event::Completed(0),
        Event::Began(1),
        Event::Emitted(1, 10),
        Event::Completed(1),
    ];
    assert_eq!(sim.trace, expected);
}

#[test]
fn root_scenario_spawn_defer_print() {
    // root: spawn(wait(1)); defer(emit "deferred"); emit "root".
    // "root" is recorded synchronously, the spawned task begins and
    // suspends on its wait, "deferred" follows in the same pass, and one
    // second later the spawned task resumes and completes.
    let progs = vec![
        vec![ScriptOp::Spawn(1), ScriptOp::Defer(2), ScriptOp::Emit(100)],
        vec![ScriptOp::Wait(1), ScriptOp::Emit(11)],
        vec![ScriptOp::Emit(22)],
    ];
    let sim = run_programs(progs, FUEL);
    let expected = vec![
        Event::Began(0),
        Event::Began(1),
        Event::Emitted(0, 100),
        Event::Completed(0),
        Event::Began(2),
        Event::Emitted(2, 22),
        Event::Completed(2),
        Event::Resumed(1, 1),
        Event::Emitted(1, 11),
        Event::Completed(1),
    ];
    assert_eq!(sim.trace, expected);
    assert_eq!(sim.now, 1);
    assert!(sim.sched.is_quiescent());
}

#[test]
fn cancelled_delay_never_runs_and_reaches_quiescence_early() {
    // a handle from delay(5, ...) is cancelled before the five seconds
    // elapse: the body never executes and the run reaches quiescence
    // without the clock ever advancing to 5
    let progs = vec![
        vec![ScriptOp::Delay(5, 1), ScriptOp::Cancel(1), ScriptOp::Emit(7)],
        vec![ScriptOp::Emit(99)],
    ];
    let sim = run_programs(progs, FUEL);
    let expected = vec![
        Event::Began(0),
        Event::Emitted(0, 7),
        Event::Completed(0),
    ];
    assert_eq!(sim.trace, expected);
    assert_eq!(sim.now, 0);
    assert!(sim.sched.is_quiescent());
}

#[test]
fn failing_task_does_not_stop_siblings() {
    let progs = vec![
        vec![ScriptOp::Defer(1), ScriptOp::Defer(2), ScriptOp::Delay(1, 3)],
        vec![ScriptOp::Raise],
        vec![ScriptOp::Emit(2)],
        vec![ScriptOp::Emit(3)],
    ];
    let sim = run_programs(progs, FUEL);
    let expected = vec![
        Event::Began(0),
        Event::Completed(0),
        Event::Began(1),
        Event::Failed(1),
        Event::Began(2),
        Event::Emitted(2, 2),
        Event::Completed(2),
        Event::Began(3),
        Event::Emitted(3, 3),
        Event::Completed(3),
    ];
    assert_eq!(sim.trace, expected);
    assert!(sim.sched.is_quiescent());
}

#[test]
fn delay_monotonicity_across_two_delays() {
    // delay(2, A) and delay(5, B): A becomes runnable (and runs) no
    // later than B, and neither before its requested time
    let progs = vec![
        vec![ScriptOp::Delay(2, 1), ScriptOp::Delay(5, 2)],
        vec![ScriptOp::Emit(1)],
        vec![ScriptOp::Emit(2)],
    ];
    let sim = run_programs(progs, FUEL);
    let expected = vec![
        Event::Began(0),
        Event::Completed(0),
        Event::Began(1),
        Event::Emitted(1, 1),
        Event::Completed(1),
        Event::Began(2),
        Event::Emitted(2, 2),
        Event::Completed(2),
    ];
    assert_eq!(sim.trace, expected);
    assert_eq!(sim.now, 5);
}

#[test]
fn wait_returns_at_least_the_requested_time() {
    let progs = vec![vec![ScriptOp::Wait(3), ScriptOp::Emit(1)]];
    let sim = run_programs(progs, FUEL);
    assert_eq!(sim.trace[0], Event::Began(0));
    match sim.trace[1] {
        Event::Resumed(0, elapsed) => assert!(elapsed >= 3),
        other => panic!("unexpected event {:?}", other),
    }
    assert_eq!(sim.trace[2], Event::Emitted(0, 1));
    assert_eq!(sim.trace[3], Event::Completed(0));
    assert!(sim.now >= 3);
}

#[test]
fn zero_and_negative_waits_resolve_on_the_next_pass() {
    let progs = vec![vec![
        ScriptOp::Wait(0),
        ScriptOp::Emit(1),
        ScriptOp::Wait(-1),
        ScriptOp::Emit(2),
    ]];
    let sim = run_programs(progs, FUEL);
    let expected = vec![
        Event::Began(0),
        Event::Resumed(0, 0),
        Event::Emitted(0, 1),
        Event::Resumed(0, 0),
        Event::Emitted(0, 2),
        Event::Completed(0),
    ];
    assert_eq!(sim.trace, expected);
    assert_eq!(sim.now, 0);
    assert!(sim.sched.is_quiescent());
}

#[test]
fn cancelling_the_running_task_fails_it() {
    // a context cannot cancel itself mid-execution: the cancellation is
    // rejected and surfaces as the task's own failure
    let progs = vec![vec![ScriptOp::Cancel(0), ScriptOp::Emit(1)]];
    let sim = run_programs(progs, FUEL);
    let expected = vec![Event::Began(0), Event::Failed(0)];
    assert_eq!(sim.trace, expected);
    assert!(sim.sched.is_quiescent());
}

#[test]
fn cancelling_twice_in_a_script_changes_nothing_more() {
    let progs = vec![
        vec![
            ScriptOp::Delay(5, 1),
            ScriptOp::Cancel(1),
            ScriptOp::Cancel(1),
            ScriptOp::Emit(1),
        ],
        vec![ScriptOp::Emit(99)],
    ];
    let sim = run_programs(progs, FUEL);
    let expected = vec![
        Event::Began(0),
        Event::Emitted(0, 1),
        Event::Completed(0),
    ];
    assert_eq!(sim.trace, expected);
    assert!(sim.sched.is_quiescent());
}

#[test]
fn parked_task_with_no_wake_source_fails_as_deadlocked() {
    let progs = vec![vec![ScriptOp::Park, ScriptOp::Emit(1)]];
    let sim = run_programs(progs, FUEL);
    let expected = vec![Event::Began(0), Event::Failed(0)];
    assert_eq!(sim.trace, expected);
    assert!(sim.sched.is_quiescent());
}

#[test]
fn nested_spawns_run_depth_first() {
    let progs = vec![
        vec![ScriptOp::Spawn(1), ScriptOp::Emit(100)],
        vec![ScriptOp::Spawn(2), ScriptOp::Emit(10)],
        vec![ScriptOp::Emit(1)],
    ];
    let sim = run_programs(progs, FUEL);
    let expected = vec![
        Event::Began(0),
        Event::Began(1),
        Event::Began(2),
        Event::Emitted(2, 1),
        Event::Completed(2),
        Event::Emitted(1, 10),
        Event::Completed(1),
        Event::Emitted(0, 100),
        Event::Completed(0),
    ];
    assert_eq!(sim.trace, expected);
}
