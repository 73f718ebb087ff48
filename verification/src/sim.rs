//! A self-contained driver for the scheduler: task bodies are given as
//! small scripted programs, and the driver plays the part of the host —
//! it resumes whatever context the scheduler hands it, reports outcomes
//! back, and advances a simulated clock to the next pending wake time.
//! A run records every observable event, so the ordering, cancellation
//! and isolation behaviour of whole scenarios can be exercised end to
//! end.

use vstd::prelude::*;
use crate::scheduler::Scheduler;
use crate::scheduler::SchedModel;
use crate::scheduler::TaskHandle;
use crate::scheduler::TaskState;
use crate::scheduler::SchedError;
use crate::scheduler::elapsed_since;
use crate::scheduler::cancel_tr;
use crate::scheduler::complete_tr;
use crate::scheduler::create_deferred_tr;
use crate::scheduler::create_delayed_tr;
use crate::scheduler::create_immediate_tr;
use crate::scheduler::drain_tr;
use crate::scheduler::fail_tr;
use crate::scheduler::start_tr;
use crate::scheduler::suspend_indefinite_tr;
use crate::scheduler::suspend_timed_tr;
use crate::scheduler::take_next_tr;
use crate::scheduler::wake_tr;

verus! {

/// One step of a scripted task body.
#[derive(Clone, Copy, PartialEq, Eq, Structural, Debug)]
pub enum ScriptOp {
    /// Record a marker in the run's trace (stands for observable output).
    Emit(u64),
    /// Suspend for at least the given number of seconds; zero or a
    /// negative request means "resume on the next pass", never an error.
    Wait(i64),
    /// Suspend until an external wake arrives.
    Park,
    /// Create a task running the program of the given index and run it at
    /// once, synchronously, to its first suspension (spawn).
    Spawn(usize),
    /// Queue a task running the given program behind everything already
    /// in flight in the current pass (defer).
    Defer(usize),
    /// Schedule the given program after a minimum elapsed time (delay).
    Delay(i64, usize),
    /// Cancel the k-th context created during the run (the root is 0).
    Cancel(usize),
    /// Raise an error inside the task: it fails and its siblings keep
    /// running.
    Raise,
}

/// An observable event of a run.
#[derive(Clone, Copy, PartialEq, Eq, Structural, Debug)]
pub enum Event {
    /// The context began executing for the first time.
    Began(usize),
    /// The context recorded a marker.
    Emitted(usize, u64),
    /// The context resumed after a suspension; the second field is the
    /// elapsed time since the suspension began.
    Resumed(usize, u64),
    /// The context returned normally.
    Completed(usize),
    /// The context raised an error (or was found deadlocked).
    Failed(usize),
}

/// The driver: the scheduler, the programs, per-context bookkeeping, the
/// recorded trace and the simulated clock.
pub struct Sim {
    pub sched: Scheduler,
    pub progs: Vec<Vec<ScriptOp>>,
    pub task_prog: Vec<usize>,
    pub task_pc: Vec<usize>,
    pub task_started: Vec<u64>,
    pub task_began: Vec<bool>,
    pub trace: Vec<Event>,
    pub now: u64,
}

/// The driver's model: the scheduler model, the programs, the
/// per-context bookkeeping, the recorded trace and the simulated clock.
#[verifier::ext_equal]
pub struct SimModel {
    pub sched: SchedModel,
    pub progs: Seq<Seq<ScriptOp>>,
    pub task_prog: Seq<usize>,
    pub task_pc: Seq<usize>,
    pub task_started: Seq<u64>,
    pub task_began: Seq<bool>,
    pub trace: Seq<Event>,
    pub now: u64,
}

/// The programs as mathematical sequences.
pub open spec fn progs_view(progs: Seq<Vec<ScriptOp>>) -> Seq<Seq<ScriptOp>> {
    progs.map_values(|p: Vec<ScriptOp>| p@)
}

impl View for Sim {
    type V = SimModel;

    open spec fn view(&self) -> SimModel {
        SimModel {
            sched: self.sched@,
            progs: progs_view(self.progs@),
            task_prog: self.task_prog@,
            task_pc: self.task_pc@,
            task_started: self.task_started@,
            task_began: self.task_began@,
            trace: self.trace@,
            now: self.now,
        }
    }
}

/// The ops context `id` has not executed yet.
pub open spec fn remaining_ops(m: SimModel, id: usize) -> Seq<ScriptOp> {
    m.progs[m.task_prog[id as int] as int].skip(m.task_pc[id as int] as int)
}

/// The context returned normally: terminal state, a `Completed` event.
pub open spec fn seg_complete(m: SimModel, id: usize) -> SimModel {
    SimModel { sched: complete_tr(m.sched, id), trace: m.trace.push(Event::Completed(id)), ..m }
}

/// The context raised (or hit a resource limit): terminal state, a
/// `Failed` event.
pub open spec fn seg_fail(m: SimModel, id: usize) -> SimModel {
    SimModel { sched: fail_tr(m.sched, id), trace: m.trace.push(Event::Failed(id)), ..m }
}

/// The context consumed one op.
pub open spec fn bump_pc(m: SimModel, id: usize) -> SimModel {
    SimModel { task_pc: m.task_pc.update(id as int, ((m.task_pc[id as int] + 1) as usize)), ..m }
}

/// Bookkeeping for a freshly registered context running program `prog`.
pub open spec fn record_task_s(m: SimModel, prog: usize) -> SimModel {
    SimModel {
        task_prog: m.task_prog.push(prog),
        task_pc: m.task_pc.push(0usize),
        task_started: m.task_started.push(m.now),
        task_began: m.task_began.push(false),
        ..m
    }
}

/// One service of context `id`, already `Running`, with `ops` its
/// remaining program: ops execute in order until the context suspends
/// (`Wait`, `Park`), fails (`Raise`, a rejected cancellation, a resource
/// limit) or completes; a `Spawn` op registers a child, records its
/// beginning, and runs the child to its own first suspension before the
/// next op of `id`.
pub open spec fn run_seg_spec(m: SimModel, id: usize, ops: Seq<ScriptOp>, fuel: u64) -> SimModel
    decreases fuel, ops.len(),
{
    if ops.len() == 0 {
        seg_complete(m, id)
    } else {
        let m1 = bump_pc(m, id);
        match ops[0] {
            ScriptOp::Emit(x) => run_seg_spec(
                SimModel { trace: m1.trace.push(Event::Emitted(id, x)), ..m1 },
                id,
                ops.drop_first(),
                fuel,
            ),
            ScriptOp::Wait(secs) => {
                let dur: u64 = if secs <= 0 { 0u64 } else { secs as u64 };
                let m2 = SimModel { task_started: m1.task_started.update(id as int, m1.now), ..m1 };
                if dur <= u64::MAX - m2.now {
                    SimModel { sched: suspend_timed_tr(m2.sched, id, m2.now, secs), ..m2 }
                } else {
                    SimModel { sched: suspend_indefinite_tr(m2.sched, id), ..m2 }
                }
            },
            ScriptOp::Park => {
                let m2 = SimModel { task_started: m1.task_started.update(id as int, m1.now), ..m1 };
                SimModel { sched: suspend_indefinite_tr(m2.sched, id), ..m2 }
            },
            ScriptOp::Spawn(p) => {
                if p >= m1.progs.len() || m1.sched.states.len() >= usize::MAX || fuel == 0 {
                    seg_fail(m1, id)
                } else {
                    let child = m1.sched.states.len() as usize;
                    let m2 = SimModel { sched: create_immediate_tr(m1.sched), ..m1 };
                    let m3 = record_task_s(m2, p);
                    let m4 = SimModel {
                        task_began: m3.task_began.update(child as int, true),
                        trace: m3.trace.push(Event::Began(child)),
                        ..m3
                    };
                    let m5 = SimModel { sched: start_tr(m4.sched, child), ..m4 };
                    let m6 = run_seg_spec(m5, child, remaining_ops(m5, child), (fuel - 1) as u64);
                    run_seg_spec(m6, id, ops.drop_first(), fuel)
                }
            },
            ScriptOp::Defer(p) => {
                if p >= m1.progs.len() || m1.sched.states.len() >= usize::MAX {
                    seg_fail(m1, id)
                } else {
                    let m2 = SimModel { sched: create_deferred_tr(m1.sched), ..m1 };
                    run_seg_spec(record_task_s(m2, p), id, ops.drop_first(), fuel)
                }
            },
            ScriptOp::Delay(secs, p) => {
                let dur: u64 = if secs <= 0 { 0u64 } else { secs as u64 };
                if p >= m1.progs.len() || m1.sched.states.len() >= usize::MAX || dur > u64::MAX
                    - m1.now {
                    seg_fail(m1, id)
                } else {
                    let m2 = SimModel { sched: create_delayed_tr(m1.sched, m1.now, secs), ..m1 };
                    run_seg_spec(record_task_s(m2, p), id, ops.drop_first(), fuel)
                }
            },
            ScriptOp::Cancel(k) => {
                if k as int >= m1.sched.states.len() {
                    seg_fail(m1, id)
                } else if m1.sched.state_of(k) == TaskState::Running {
                    seg_fail(m1, id)
                } else {
                    run_seg_spec(
                        SimModel { sched: cancel_tr(m1.sched, k), ..m1 },
                        id,
                        ops.drop_first(),
                        fuel,
                    )
                }
            },
            ScriptOp::Raise => seg_fail(m1, id),
        }
    }
}

/// A sequence is a prefix of itself extended by one element.
proof fn lemma_prefix_push<A>(s: Seq<A>, e: A)
    ensures
        s.is_prefix_of(s.push(e)),
{
    assert(s =~= s.push(e).subrange(0, s.len() as int));
}

/// Being a prefix is transitive.
proof fn lemma_prefix_trans<A>(a: Seq<A>, b: Seq<A>, c: Seq<A>)
    requires
        a.is_prefix_of(b),
        b.is_prefix_of(c),
    ensures
        a.is_prefix_of(c),
{
    assert(a =~= c.subrange(0, a.len() as int));
}

/// Every sequence is a prefix of itself.
proof fn lemma_prefix_refl<A>(s: Seq<A>)
    ensures
        s.is_prefix_of(s),
{
    assert(s =~= s.subrange(0, s.len() as int));
}

/// The frame of one service: it only appends to the trace, appends fresh
/// contexts, advances `id`'s own program counter and moves contexts
/// between scheduler states — it never touches the programs, the clock,
/// another context's bookkeeping, or another running context's state.
pub proof fn lemma_seg_frame(m: SimModel, id: usize, ops: Seq<ScriptOp>, fuel: u64)
    requires
        (id as int) < m.task_pc.len(),
        m.task_pc.len() == m.sched.states.len(),
        m.task_prog.len() == m.sched.states.len(),
    ensures
        ({
            let r = run_seg_spec(m, id, ops, fuel);
            &&& r.progs == m.progs
            &&& r.now == m.now
            &&& r.sched.states.len() >= m.sched.states.len()
            &&& r.task_prog.len() >= m.task_prog.len()
            &&& r.task_pc.len() >= m.task_pc.len()
            &&& r.task_pc.len() == r.sched.states.len()
            &&& r.task_prog.len() == r.sched.states.len()
            &&& m.trace.is_prefix_of(r.trace)
            &&& forall|k: int|
                0 <= k < m.task_prog.len() ==> #[trigger] r.task_prog[k] == m.task_prog[k]
            &&& forall|k: int|
                0 <= k < m.task_pc.len() && k != id as int ==> #[trigger] r.task_pc[k] == m.task_pc[k]
            &&& forall|k: usize|
                (k as int) < m.sched.states.len() && k != id
                    && m.sched.state_of(k) == TaskState::Running
                    ==> (#[trigger] r.sched.state_of(k)) == TaskState::Running
        }),
    decreases fuel, ops.len(),
{
    let r = run_seg_spec(m, id, ops, fuel);
    if ops.len() == 0 {
        lemma_prefix_push(m.trace, Event::Completed(id));
    } else {
        let m1 = bump_pc(m, id);
        match ops[0] {
            ScriptOp::Emit(x) => {
                let me = SimModel { trace: m1.trace.push(Event::Emitted(id, x)), ..m1 };
                lemma_prefix_push(m.trace, Event::Emitted(id, x));
                lemma_seg_frame(me, id, ops.drop_first(), fuel);
                lemma_prefix_trans(m.trace, me.trace, r.trace);
            },
            ScriptOp::Wait(secs) => {
                lemma_prefix_refl(m.trace);
            },
            ScriptOp::Park => {
                lemma_prefix_refl(m.trace);
            },
            ScriptOp::Spawn(p) => {
                if p >= m1.progs.len() || m1.sched.states.len() >= usize::MAX || fuel == 0 {
                    lemma_prefix_push(m.trace, Event::Failed(id));
                } else {
                    let child = m1.sched.states.len() as usize;
                    let m2 = SimModel { sched: create_immediate_tr(m1.sched), ..m1 };
                    let m3 = record_task_s(m2, p);
                    let m4 = SimModel {
                        task_began: m3.task_began.update(child as int, true),
                        trace: m3.trace.push(Event::Began(child)),
                        ..m3
                    };
                    let m5 = SimModel { sched: start_tr(m4.sched, child), ..m4 };
                    let m6 = run_seg_spec(m5, child, remaining_ops(m5, child), (fuel - 1) as u64);
                    lemma_seg_frame(m5, child, remaining_ops(m5, child), (fuel - 1) as u64);
                    lemma_seg_frame(m6, id, ops.drop_first(), fuel);
                    lemma_prefix_push(m.trace, Event::Began(child));
                    lemma_prefix_trans(m.trace, m5.trace, m6.trace);
                    lemma_prefix_trans(m.trace, m6.trace, r.trace);
                    assert(child as int == m.sched.states.len());
                    assert forall|k: usize|
                        (k as int) < m.sched.states.len() && k != id
                            && m.sched.state_of(k) == TaskState::Running
                            implies (#[trigger] r.sched.state_of(k)) == TaskState::Running by {
                        assert(k as int != child as int);
                        assert(m2.sched.state_of(k) == TaskState::Running);
                        assert(m5.sched.state_of(k) == TaskState::Running);
                        assert(m6.sched.state_of(k) == TaskState::Running);
                        assert((k as int) < m6.sched.states.len());
                    }
                    assert forall|k: int| 0 <= k < m.task_pc.len() && k != id as int
                        implies #[trigger] r.task_pc[k] == m.task_pc[k] by {
                        assert(m1.task_pc[k] == m.task_pc[k]);
                        assert(m5.task_pc[k] == m1.task_pc[k]);
                        assert(k != child as int);
                        assert(m6.task_pc[k] == m5.task_pc[k]);
                    }
                    assert forall|k: int| 0 <= k < m.task_prog.len()
                        implies #[trigger] r.task_prog[k] == m.task_prog[k] by {
                        assert(m5.task_prog[k] == m.task_prog[k]);
                        assert(m6.task_prog[k] == m5.task_prog[k]);
                    }
                }
            },
            ScriptOp::Defer(p) => {
                if p >= m1.progs.len() || m1.sched.states.len() >= usize::MAX {
                    lemma_prefix_push(m.trace, Event::Failed(id));
                } else {
                    let m2 = SimModel { sched: create_deferred_tr(m1.sched), ..m1 };
                    lemma_seg_frame(record_task_s(m2, p), id, ops.drop_first(), fuel);
                    lemma_prefix_trans(m.trace, record_task_s(m2, p).trace, r.trace);
                }
            },
            ScriptOp::Delay(secs, p) => {
                let dur: u64 = if secs <= 0 { 0u64 } else { secs as u64 };
                if p >= m1.progs.len() || m1.sched.states.len() >= usize::MAX || dur > u64::MAX
                    - m1.now {
                    lemma_prefix_push(m.trace, Event::Failed(id));
                } else {
                    let m2 = SimModel { sched: create_delayed_tr(m1.sched, m1.now, secs), ..m1 };
                    lemma_seg_frame(record_task_s(m2, p), id, ops.drop_first(), fuel);
                    lemma_prefix_trans(m.trace, record_task_s(m2, p).trace, r.trace);
                }
            },
            ScriptOp::Cancel(k) => {
                if k as int >= m1.sched.states.len() {
                    lemma_prefix_push(m.trace, Event::Failed(id));
                } else if m1.sched.state_of(k) == TaskState::Running {
                    lemma_prefix_push(m.trace, Event::Failed(id));
                } else {
                    let mc = SimModel { sched: cancel_tr(m1.sched, k), ..m1 };
                    lemma_seg_frame(mc, id, ops.drop_first(), fuel);
                    lemma_prefix_trans(m.trace, mc.trace, r.trace);
                    assert forall|j: usize|
                        (j as int) < m.sched.states.len() && j != id
                            && m.sched.state_of(j) == TaskState::Running
                            implies (#[trigger] r.sched.state_of(j)) == TaskState::Running by {
                        assert(j != k);
                        assert(mc.sched.state_of(j) == TaskState::Running);
                    }
                }
            },
            ScriptOp::Raise => {
                lemma_prefix_push(m.trace, Event::Failed(id));
            },
        }
    }
}

/// One service of the queue head: it starts running, its beginning (or
/// its resumption, with the elapsed time since it suspended) is
/// recorded, and its remaining program runs to the next suspension.
pub open spec fn serve_spec(m: SimModel, fuel: u64) -> SimModel {
    let id = m.sched.ready[0];
    let m1 = SimModel { sched: take_next_tr(m.sched), ..m };
    let m2 = if !m1.task_began[id as int] {
        SimModel {
            task_began: m1.task_began.update(id as int, true),
            trace: m1.trace.push(Event::Began(id)),
            ..m1
        }
    } else {
        SimModel {
            trace: m1.trace.push(
                Event::Resumed(id, (m1.now - m1.task_started[id as int]) as u64),
            ),
            ..m1
        }
    };
    run_seg_spec(m2, id, remaining_ops(m2, id), fuel)
}

/// The event loop: while the step budget lasts, serve the queue head;
/// with the queue empty, advance the clock to the next wake time and
/// drain the timers; with no timer pending either, stop.
pub open spec fn pass_spec(m: SimModel, rounds: u64, fuel: u64) -> SimModel
    decreases rounds,
{
    if rounds == 0 {
        m
    } else if m.sched.ready.len() > 0 {
        pass_spec(serve_spec(m, fuel), (rounds - 1) as u64, fuel)
    } else if m.sched.timers.len() > 0 {
        let w = m.sched.timers[0].wake;
        let t = if w > m.now {
            w
        } else {
            m.now
        };
        pass_spec(SimModel { sched: drain_tr(m.sched, t), now: t, ..m }, (rounds - 1) as u64, fuel)
    } else {
        m
    }
}

/// Deadlock resolution: once nothing is runnable and no timer is
/// pending, every context still parked waits for a wake that can never
/// arrive; each is woken, taken and failed explicitly, in registration
/// order — never silently dropped.
pub open spec fn fail_deadlocked_spec(m: SimModel) -> SimModel
    decreases m.sched.indefinite.len()
        via fail_deadlocked_spec_dec
{
    if m.sched.idle() && m.sched.indefinite.len() > 0 {
        let id = m.sched.indefinite[0];
        let m1 = SimModel { sched: wake_tr(m.sched, id), ..m };
        let m2 = SimModel { sched: take_next_tr(m1.sched), ..m1 };
        let m3 = SimModel {
            sched: fail_tr(m2.sched, id),
            trace: m2.trace.push(Event::Failed(id)),
            ..m2
        };
        fail_deadlocked_spec(m3)
    } else {
        m
    }
}

/// Deadlock resolution law: starting from an idle scheduler (nothing
/// runnable, no timer pending), failing the parked contexts one by one
/// ends in quiescence — the driver never returns with a wait
/// registration still outstanding.
pub proof fn lemma_deadlock_resolution(m: SimModel)
    ensures
        m.sched.idle() ==> fail_deadlocked_spec(m).sched.quiescent(),
    decreases m.sched.indefinite.len(),
{
    if m.sched.idle() && m.sched.indefinite.len() > 0 {
        let id = m.sched.indefinite[0];
        assert(m.sched.indefinite.contains(id));
        m.sched.indefinite.index_of_first_ensures(id);
        let ix = m.sched.indefinite.index_of_first(id).unwrap();
        m.sched.indefinite.remove_ensures(ix);
        let m1 = SimModel { sched: wake_tr(m.sched, id), ..m };
        let m2 = SimModel { sched: take_next_tr(m1.sched), ..m1 };
        let m3 = SimModel {
            sched: fail_tr(m2.sched, id),
            trace: m2.trace.push(Event::Failed(id)),
            ..m2
        };
        assert(m3.sched.ready =~= m.sched.ready);
        lemma_deadlock_resolution(m3);
    }
}

#[via_fn]
proof fn fail_deadlocked_spec_dec(m: SimModel) {
    if m.sched.idle() && m.sched.indefinite.len() > 0 {
        let id = m.sched.indefinite[0];
        assert(m.sched.indefinite.contains(id));
        m.sched.indefinite.index_of_first_ensures(id);
        let ix = m.sched.indefinite.index_of_first(id).unwrap();
        m.sched.indefinite.remove_ensures(ix);
    }
}

impl Sim {
    /// The driver's invariant: the scheduler is well formed, every
    /// context has bookkeeping, every context's program exists, and no
    /// suspension started in the future.
    pub open spec fn wf(self) -> bool {
        &&& self.sched@.wf()
        &&& self.task_prog@.len() == self.sched@.states.len()
        &&& self.task_pc@.len() == self.sched@.states.len()
        &&& self.task_started@.len() == self.sched@.states.len()
        &&& self.task_began@.len() == self.sched@.states.len()
        &&& forall|k: int|
            0 <= k < self.task_prog@.len() ==> (#[trigger] self.task_prog@[k]) < self.progs@.len()
        &&& forall|k: int|
            0 <= k < self.task_started@.len() ==> (#[trigger] self.task_started@[k]) <= self.now
        &&& forall|k: int|
            0 <= k < self.task_pc@.len()
                ==> (#[trigger] self.task_pc@[k]) <= self.progs@[self.task_prog@[k] as int]@.len()
    }

    /// A fresh driver over the given programs; the clock starts at zero
    /// and nothing is scheduled yet.
    pub fn new(progs: Vec<Vec<ScriptOp>>) -> (s: Sim)
        ensures
            s.wf(),
            s.trace@.len() == 0,
            s.now == 0,
            s.sched@ == SchedModel::empty(),
            s.sched@.states.len() == 0,
            s.task_prog@.len() == 0,
            s.task_pc@.len() == 0,
            s.task_started@.len() == 0,
            s.task_began@.len() == 0,
            s.progs@ == progs@,
    {
        Sim {
            sched: Scheduler::new(),
            progs,
            task_prog: Vec::new(),
            task_pc: Vec::new(),
            task_started: Vec::new(),
            task_began: Vec::new(),
            trace: Vec::new(),
            now: 0,
        }
    }

    /// Bookkeeping for a context the scheduler just registered.
    fn record_task(&mut self, prog: usize)
        requires
            old(self).task_prog@.len() + 1 == old(self).sched@.states.len(),
            old(self).task_pc@.len() + 1 == old(self).sched@.states.len(),
            old(self).task_started@.len() + 1 == old(self).sched@.states.len(),
            old(self).task_began@.len() + 1 == old(self).sched@.states.len(),
            prog < old(self).progs@.len(),
        ensures
            final(self).sched == old(self).sched,
            final(self).progs == old(self).progs,
            final(self).trace == old(self).trace,
            final(self).now == old(self).now,
            final(self).task_prog@ == old(self).task_prog@.push(prog),
            final(self).task_pc@ == old(self).task_pc@.push(0usize),
            final(self).task_started@ == old(self).task_started@.push(old(self).now),
            final(self).task_began@ == old(self).task_began@.push(false),
    {
        let t = self.now;
        self.task_prog.push(prog);
        self.task_pc.push(0);
        self.task_started.push(t);
        self.task_began.push(false);
    }

    /// Run the context `h`, which must be `Running`, until it suspends,
    /// completes or fails; a `Spawn` op runs the child at once, depth
    /// first, before the parent's next op.  `fuel` bounds the spawn
    /// depth, like an interpreter's recursion budget.
    fn run_task(&mut self, h: TaskHandle, fuel: u64)
        requires
            old(self).wf(),
            old(self).sched@.valid_id(h.id),
            old(self).sched@.state_of(h.id) == TaskState::Running,
        ensures
            final(self).wf(),
            final(self)@ == run_seg_spec(old(self)@, h.id, remaining_ops(old(self)@, h.id), fuel),
            final(self).progs@ == old(self).progs@,
            final(self).sched@.states.len() >= old(self).sched@.states.len(),
            final(self).now == old(self).now,
            old(self).trace@.is_prefix_of(final(self).trace@),
            forall|k: int|
                0 <= k < old(self).task_pc@.len() && k != (h.id as int)
                    ==> #[trigger] final(self).task_pc@[k] == old(self).task_pc@[k],
            forall|k: int|
                0 <= k < old(self).task_prog@.len()
                    ==> #[trigger] final(self).task_prog@[k] == old(self).task_prog@[k],
        decreases fuel,
    {
        loop
            invariant
                old(self).wf(),
                self.wf(),
                self.sched@.valid_id(h.id),
                self.sched@.state_of(h.id) == TaskState::Running,
                self.progs@ == old(self).progs@,
                self.sched@.states.len() >= old(self).sched@.states.len(),
                self.now == old(self).now,
                old(self).trace@.is_prefix_of(self.trace@),
                (h.id as int) < old(self).task_pc@.len(),
                run_seg_spec(self@, h.id, remaining_ops(self@, h.id), fuel)
                    == run_seg_spec(old(self)@, h.id, remaining_ops(old(self)@, h.id), fuel),
                forall|k: int|
                    0 <= k < old(self).task_pc@.len() && k != (h.id as int)
                        ==> #[trigger] self.task_pc@[k] == old(self).task_pc@[k],
                forall|k: int|
                    0 <= k < old(self).task_prog@.len()
                        ==> #[trigger] self.task_prog@[k] == old(self).task_prog@[k],
            decreases
                self.progs@[self.task_prog@[h.id as int] as int].len() - self.task_pc@[h.id as int],
        {
            let ghost mi = self@;
            let ghost opsi = remaining_ops(mi, h.id);
            let prog = self.task_prog[h.id];
            let pc = self.task_pc[h.id];
            if pc >= self.progs[prog].len() {
                proof {
                    assert(opsi.len() == 0);
                }
                self.sched.complete(h);
                self.trace.push(Event::Completed(h.id));
                proof {
                    assert(self@ =~= seg_complete(mi, h.id));
                }
                return;
            }
            let op = self.progs[prog][pc];
            proof {
                assert(opsi.len() > 0);
                assert(opsi[0] == op);
            }
            self.task_pc.set(h.id, pc + 1);
            proof {
                assert(self@ =~= bump_pc(mi, h.id));
                assert(remaining_ops(self@, h.id) =~= opsi.drop_first());
            }
            let ghost m1 = bump_pc(mi, h.id);
            match op {
                ScriptOp::Emit(x) => {
                    self.trace.push(Event::Emitted(h.id, x));
                    proof {
                        assert(self@ =~= (SimModel { trace: m1.trace.push(Event::Emitted(h.id, x)), ..m1 }));
                        assert(remaining_ops(self@, h.id) =~= opsi.drop_first());
                    }
                },
                ScriptOp::Wait(secs) => {
                    let dur: u64 = if secs <= 0 { 0 } else { secs as u64 };
                    let t = self.now;
                    self.task_started.set(h.id, t);
                    let ghost m2 = SimModel { task_started: m1.task_started.update(h.id as int, m1.now), ..m1 };
                    proof {
                        assert(self@ =~= m2);
                    }
                    if dur <= u64::MAX - self.now {
                        self.sched.suspend_timed(h, t, secs);
                        proof {
                            assert(self@ =~= (SimModel { sched: suspend_timed_tr(m2.sched, h.id, m2.now, secs), ..m2 }));
                        }
                    } else {
                        // the clock cannot represent the wake time: the
                        // wake never arrives, so park indefinitely
                        self.sched.suspend_indefinite(h);
                        proof {
                            assert(self@ =~= (SimModel { sched: suspend_indefinite_tr(m2.sched, h.id), ..m2 }));
                        }
                    }
                    return;
                },
                ScriptOp::Park => {
                    let t = self.now;
                    self.task_started.set(h.id, t);
                    let ghost m2 = SimModel { task_started: m1.task_started.update(h.id as int, m1.now), ..m1 };
                    self.sched.suspend_indefinite(h);
                    proof {
                        assert(self@ =~= (SimModel { sched: suspend_indefinite_tr(m2.sched, h.id), ..m2 }));
                    }
                    return;
                },
                ScriptOp::Spawn(p) => {
                    if p >= self.progs.len() || self.sched.num_tasks() == usize::MAX || fuel == 0 {
                        self.sched.fail(h);
                        self.trace.push(Event::Failed(h.id));
                        proof {
                            assert(self@ =~= seg_fail(m1, h.id));
                        }
                        return;
                    }
                    let child = self.sched.create_immediate();
                    self.record_task(p);
                    self.task_began.set(child.id, true);
                    self.trace.push(Event::Began(child.id));
                    self.sched.start(child);
                    let ghost m5 = self@;
                    proof {
                        let m2 = SimModel { sched: create_immediate_tr(m1.sched), ..m1 };
                        let m3 = record_task_s(m2, p);
                        let m4 = SimModel {
                            task_began: m3.task_began.update(child.id as int, true),
                            trace: m3.trace.push(Event::Began(child.id)),
                            ..m3
                        };
                        assert(m5 =~= (SimModel { sched: start_tr(m4.sched, child.id), ..m4 }));
                    }
                    self.run_task(child, fuel - 1);
                    proof {
                        lemma_seg_frame(m5, child.id, remaining_ops(m5, child.id), (fuel - 1) as u64);
                        assert(self@ == run_seg_spec(m5, child.id, remaining_ops(m5, child.id), (fuel - 1) as u64));
                        assert(self.sched@.state_of(h.id) == TaskState::Running);
                        assert(remaining_ops(self@, h.id) =~= opsi.drop_first());
                    }
                },
                ScriptOp::Defer(p) => {
                    if p >= self.progs.len() || self.sched.num_tasks() == usize::MAX {
                        self.sched.fail(h);
                        self.trace.push(Event::Failed(h.id));
                        proof {
                            assert(self@ =~= seg_fail(m1, h.id));
                        }
                        return;
                    }
                    let _child = self.sched.create_deferred();
                    self.record_task(p);
                    proof {
                        let m2 = SimModel { sched: create_deferred_tr(m1.sched), ..m1 };
                        assert(self@ =~= record_task_s(m2, p));
                        assert(remaining_ops(self@, h.id) =~= opsi.drop_first());
                    }
                },
                ScriptOp::Delay(secs, p) => {
                    let dur: u64 = if secs <= 0 { 0 } else { secs as u64 };
                    if p >= self.progs.len() || self.sched.num_tasks() == usize::MAX
                        || dur > u64::MAX - self.now {
                        self.sched.fail(h);
                        self.trace.push(Event::Failed(h.id));
                        proof {
                            assert(self@ =~= seg_fail(m1, h.id));
                        }
                        return;
                    }
                    let t = self.now;
                    let _child = self.sched.create_delayed(t, secs);
                    self.record_task(p);
                    proof {
                        let m2 = SimModel { sched: create_delayed_tr(m1.sched, m1.now, secs), ..m1 };
                        assert(self@ =~= record_task_s(m2, p));
                        assert(remaining_ops(self@, h.id) =~= opsi.drop_first());
                    }
                },
                ScriptOp::Cancel(k) => {
                    if k >= self.sched.num_tasks() {
                        self.sched.fail(h);
                        self.trace.push(Event::Failed(h.id));
                        proof {
                            assert(self@ =~= seg_fail(m1, h.id));
                        }
                        return;
                    }
                    let r = self.sched.cancel(TaskHandle { id: k });
                    match r {
                        Ok(_) => {
                            proof {
                                assert(self@ =~= (SimModel { sched: cancel_tr(m1.sched, k), ..m1 }));
                                assert(remaining_ops(self@, h.id) =~= opsi.drop_first());
                            }
                        },
                        Err(SchedError::InvalidCancellation) => {
                            // a context cannot cancel a running context
                            // (itself included): the error surfaces in
                            // the cancelling task
                            self.sched.fail(h);
                            self.trace.push(Event::Failed(h.id));
                            proof {
                                assert(self@ =~= seg_fail(m1, h.id));
                            }
                            return;
                        },
                    }
                },
                ScriptOp::Raise => {
                    self.sched.fail(h);
                    self.trace.push(Event::Failed(h.id));
                    proof {
                        assert(self@ =~= seg_fail(m1, h.id));
                    }
                    return;
                },
            }
        }
    }


    /// Serve the resumption queue and the timer set until quiescence, a
    /// deadlock, or the step budget runs out.  Every pass drains the
    /// timers that have elapsed, then serves the queue strictly in
    /// order; once nothing is runnable the clock advances to the next
    /// wake time.  Contexts still parked when nothing can ever wake them
    /// are deadlocked: they are failed explicitly, never silently
    /// dropped.  Returns whether the run reached quiescence.
    pub fn run_to_quiescence(&mut self, fuel: u64) -> (done: bool)
        requires
            old(self).wf(),
        ensures
            final(self).wf(),
            final(self)@ == fail_deadlocked_spec(pass_spec(old(self)@, fuel, fuel)),
            final(self).progs@ == old(self).progs@,
            old(self).trace@.is_prefix_of(final(self).trace@),
            done == final(self).sched@.quiescent(),
    {
        let mut rounds: u64 = fuel;
        while rounds > 0
            invariant
                self.wf(),
                self.progs@ == old(self).progs@,
                old(self).trace@.is_prefix_of(self.trace@),
                pass_spec(self@, rounds, fuel) == pass_spec(old(self)@, fuel, fuel),
            decreases rounds,
        {
            let ghost mpre = self@;
            let ghost entry_rounds = rounds;
            rounds = rounds - 1;
            let ghost pre = self.sched@;
            let next = self.sched.take_next();
            match next {
                Some(h) => {
                    proof {
                        assert(pre.ready_entry_ok(0));
                        assert(self@ =~= (SimModel { sched: take_next_tr(mpre.sched), ..mpre }));
                    }
                    let ghost m1 = SimModel { sched: take_next_tr(mpre.sched), ..mpre };
                    if !self.task_began[h.id] {
                        self.task_began.set(h.id, true);
                        self.trace.push(Event::Began(h.id));
                        proof {
                            assert(self@ =~= (SimModel {
                                task_began: m1.task_began.update(h.id as int, true),
                                trace: m1.trace.push(Event::Began(h.id)),
                                ..m1
                            }));
                        }
                    } else {
                        let started = self.task_started[h.id];
                        let elapsed = elapsed_since(self.now, started);
                        self.trace.push(Event::Resumed(h.id, elapsed));
                        proof {
                            assert(self@ =~= (SimModel {
                                trace: m1.trace.push(
                                    Event::Resumed(h.id, (m1.now - m1.task_started[h.id as int]) as u64),
                                ),
                                ..m1
                            }));
                        }
                    }
                    self.run_task(h, fuel);
                    proof {
                        assert(self@ == serve_spec(mpre, fuel));
                        assert(pass_spec(mpre, entry_rounds, fuel)
                            == pass_spec(serve_spec(mpre, fuel), rounds, fuel));
                    }
                },
                None => {
                    let wake = self.sched.next_wake();
                    match wake {
                        Some(w) => {
                            if w > self.now {
                                self.now = w;
                            }
                            let t = self.now;
                            self.sched.drain_timers(t);
                            proof {
                                crate::scheduler::lemma_drain_props(pre, t);
                                assert(self@ =~= (SimModel {
                                    sched: drain_tr(mpre.sched, t),
                                    now: t,
                                    ..mpre
                                }));
                                assert(pass_spec(mpre, entry_rounds, fuel)
                                    == pass_spec(self@, rounds, fuel));
                            }
                        },
                        None => {
                            rounds = 0;
                            proof {
                                assert(pass_spec(mpre, entry_rounds, fuel) == mpre);
                                assert(pass_spec(self@, 0, fuel) == self@);
                            }
                        },
                    }
                },
            }
        }
        let ghost mid = self@;
        proof {
            assert(mid == pass_spec(old(self)@, fuel, fuel)) by {
                assert(pass_spec(mid, 0, fuel) == mid);
            }
        }
        // nothing runnable, no timer pending: any context still parked
        // waits for a wake that can never arrive — fail it explicitly
        if self.sched.is_idle() {
            while self.sched.has_indefinite()
                invariant
                    self.wf(),
                    self.sched@.idle(),
                    self.progs@ == old(self).progs@,
                    old(self).trace@.is_prefix_of(self.trace@),
                    fail_deadlocked_spec(self@) == fail_deadlocked_spec(mid),
                decreases self.sched@.indefinite.len(),
            {
                let ghost mpre = self@;
                let ghost pre = self.sched@;
                let first = self.sched.first_indefinite();
                if let Some(h) = first {
                    proof {
                        assert(pre.indefinite_entry_ok(0));
                        assert(pre.indefinite.contains(h.id)) by {
                            assert(pre.indefinite[0] == h.id);
                        }
                        pre.indefinite.index_of_first_ensures(h.id);
                    }
                    let _woke = self.sched.wake(h);
                    let ghost woken = self.sched@;
                    let next = self.sched.take_next();
                    if let Some(h2) = next {
                        self.sched.fail(h2);
                        self.trace.push(Event::Failed(h2.id));
                    }
                    proof {
                        pre.indefinite.remove_ensures(pre.indefinite.index_of_first(h.id).unwrap());
                        assert(woken.ready == pre.ready.push(h.id));
                        assert(self.sched@.ready =~= pre.ready);
                        assert(self.sched@.indefinite.len() < pre.indefinite.len());
                        let s1 = SimModel { sched: wake_tr(mpre.sched, h.id), ..mpre };
                        let s2 = SimModel { sched: take_next_tr(s1.sched), ..s1 };
                        assert(self@ =~= (SimModel {
                            sched: fail_tr(s2.sched, h.id),
                            trace: s2.trace.push(Event::Failed(h.id)),
                            ..s2
                        }));
                        assert(fail_deadlocked_spec(mpre) == fail_deadlocked_spec(self@));
                    }
                }
            }
            proof {
                assert(fail_deadlocked_spec(self@) == self@);
            }
        } else {
            proof {
                assert(fail_deadlocked_spec(mid) == mid);
            }
        }
        self.sched.is_quiescent()
    }
}

/// Run the given programs to quiescence: program 0 is the root task; it
/// begins at once and runs until its first suspension or completion,
/// and the driver then serves the queue and the timers.  Returns the
/// driver with its recorded trace, clock and final scheduler state.
/// The driver state at the start of a run of `progs`: the root context
/// (program 0) registered, recorded as begun, and `Running`.
pub open spec fn boot_spec(progs: Seq<Seq<ScriptOp>>) -> SimModel {
    let m0 = SimModel {
        sched: SchedModel::empty(),
        progs: progs,
        task_prog: Seq::empty(),
        task_pc: Seq::empty(),
        task_started: Seq::empty(),
        task_began: Seq::empty(),
        trace: Seq::empty(),
        now: 0,
    };
    let m1 = SimModel { sched: create_immediate_tr(m0.sched), ..m0 };
    let m2 = record_task_s(m1, 0);
    let m3 = SimModel {
        task_began: m2.task_began.update(0, true),
        trace: m2.trace.push(Event::Began(0usize)),
        ..m2
    };
    SimModel { sched: start_tr(m3.sched, 0usize), ..m3 }
}

/// A whole run: the root (program 0) begins at once and runs to its
/// first suspension or completion, the event loop serves the queue and
/// the timers to quiescence or to the step budget, and any context left
/// deadlocked is failed explicitly.
pub open spec fn run_programs_spec(progs: Seq<Seq<ScriptOp>>, fuel: u64) -> SimModel {
    let m = boot_spec(progs);
    let m1 = run_seg_spec(m, 0usize, remaining_ops(m, 0usize), fuel);
    fail_deadlocked_spec(pass_spec(m1, fuel, fuel))
}

pub fn run_programs(progs: Vec<Vec<ScriptOp>>, fuel: u64) -> (s: Sim)
    requires
        progs@.len() > 0,
    ensures
        s.wf(),
        s@ == run_programs_spec(progs_view(progs@), fuel),
        s.progs@ == progs@,
        s.trace@.len() > 0,
        s.trace@[0] == Event::Began(0usize),
{
    let ghost pv = progs_view(progs@);
    let mut sim = Sim::new(progs);
    let root = sim.sched.create_immediate();
    sim.record_task(0);
    sim.task_began.set(root.id, true);
    sim.trace.push(Event::Began(root.id));
    sim.sched.start(root);
    proof {
        assert(sim@ =~= boot_spec(pv));
    }
    let ghost bootm = sim@;
    let ghost t1 = sim.trace@;
    sim.run_task(root, fuel);
    proof {
        assert(root.id == 0usize);
        assert(sim@ == run_seg_spec(bootm, 0usize, remaining_ops(bootm, 0usize), fuel));
    }
    let ghost m1g = sim@;
    let ghost t2 = sim.trace@;
    let _done = sim.run_to_quiescence(fuel);
    proof {
        assert(sim@ == fail_deadlocked_spec(pass_spec(m1g, fuel, fuel)));
        assert(sim@ == run_programs_spec(pv, fuel));
        assert(progs_view(sim.progs@) == pv);
        assert(t1[0] == Event::Began(0usize));
        assert(t2.take(t1.len() as int) == t1);
        assert(t2[0] == t1[0]);
        assert(sim.trace@.take(t2.len() as int) == t2);
        assert(sim.trace@[0] == t2[0]);
    }
    sim
}

} // verus!
