//! The task scheduler: execution-context states, the resumption queue, the
//! timer set and the registrations for indefinite waits, together with the
//! transitions that the scheduling primitives perform on them.
//!
//! The scheduler is a state machine over plain values.  The host that owns
//! the embedded interpreter drives it: it asks the scheduler which context
//! to resume next, resumes that context, and reports the outcome back
//! (suspension, completion or failure).  Every decision — what runs next,
//! when a timer fires, what a cancellation does — is made here and verified.

use vstd::prelude::*;

verus! {

/// The lifecycle state of one execution context.
///
/// `Created` contexts were just registered for an immediate (spawn) run and
/// sit in the driver's hand; `Runnable` contexts stand in the resumption
/// queue; `Suspended` contexts are parked in the timer set or in an
/// indefinite-wait registration; `Completed`, `Failed` and `Cancelled` are
/// terminal.
#[derive(Clone, Copy, PartialEq, Eq, Structural, Debug)]
pub enum TaskState {
    Created,
    Running,
    Suspended,
    Runnable,
    Completed,
    Failed,
    Cancelled,
}

impl TaskState {
    /// A terminal context never runs again and holds no scheduler resources.
    pub open spec fn is_terminal(self) -> bool {
        self == TaskState::Completed || self == TaskState::Failed || self == TaskState::Cancelled
    }

    /// Executable test for `is_terminal`.
    pub fn terminal(&self) -> (r: bool)
        ensures
            r == self.is_terminal(),
    {
        match self {
            TaskState::Completed => true,
            TaskState::Failed => true,
            TaskState::Cancelled => true,
            _ => false,
        }
    }
}

/// Errors the scheduling primitives themselves can raise.
#[derive(Clone, Copy, PartialEq, Eq, Structural, Debug)]
pub enum SchedError {
    /// A context attempted to cancel itself (or any currently running
    /// context) mid-execution; cancellation is cooperative only.
    InvalidCancellation,
}

/// A handle to a scheduled context, as returned by the scheduling
/// primitives and accepted by `cancel`.
#[derive(Clone, Copy, PartialEq, Eq, Structural, Debug)]
pub struct TaskHandle {
    pub id: usize,
}

/// One entry of the timer set: context `id` becomes runnable once the
/// clock reaches `wake`; `started` records when the wait began, so the
/// elapsed time can be reported on resumption.
#[derive(Clone, Copy, PartialEq, Eq, Structural, Debug)]
pub struct Timer {
    pub wake: u64,
    pub id: usize,
    pub started: u64,
}

/// The mathematical model of a scheduler: the per-context states (indexed
/// by context id), the resumption queue, the timer set ordered by wake
/// time, and the indefinite-wait registrations.
#[verifier::ext_equal]
pub struct SchedModel {
    pub states: Seq<TaskState>,
    pub ready: Seq<usize>,
    pub timers: Seq<Timer>,
    pub indefinite: Seq<usize>,
}

/// A requested duration in seconds, clamped at zero: a non-positive delay
/// or wait means "as soon as possible", never an error.
pub open spec fn clamp_secs(secs: i64) -> int {
    if secs <= 0 {
        0
    } else {
        secs as int
    }
}

/// The ids of the timer-set entries, in timer order.
pub open spec fn timer_ids(timers: Seq<Timer>) -> Seq<usize> {
    timers.map_values(|t: Timer| t.id)
}

impl SchedModel {
    pub open spec fn empty() -> SchedModel {
        SchedModel { states: Seq::empty(), ready: Seq::empty(), timers: Seq::empty(), indefinite: Seq::empty() }
    }

    /// The id the next created context will receive: ids are assigned
    /// monotonically, one per context.
    pub open spec fn next_id(self) -> int {
        self.states.len() as int
    }

    pub open spec fn valid_id(self, id: usize) -> bool {
        (id as int) < self.states.len()
    }

    pub open spec fn state_of(self, id: usize) -> TaskState {
        self.states[id as int]
    }

    /// Context `id` is registered somewhere: in the resumption queue, the
    /// timer set or an indefinite-wait registration.
    pub open spec fn pending(self, id: usize) -> bool {
        self.ready.contains(id) || timer_ids(self.timers).contains(id) || self.indefinite.contains(id)
    }

    /// The timer set is ordered by ascending wake time (ties keep
    /// registration order because insertion is stable).
    pub open spec fn timers_sorted(self) -> bool {
        forall|i: int, j: int|
            0 <= i <= j < self.timers.len() ==> self.timers[i].wake <= self.timers[j].wake
    }

    /// Queue entry `i` points at a valid context that is `Runnable`.
    pub open spec fn ready_entry_ok(self, i: int) -> bool {
        self.valid_id(self.ready[i]) && self.state_of(self.ready[i]) == TaskState::Runnable
    }

    /// Every queue entry points at a valid context that is `Runnable`.
    pub open spec fn ready_ok(self) -> bool {
        forall|i: int| 0 <= i < self.ready.len() ==> #[trigger] self.ready_entry_ok(i)
    }

    /// Timer `i` points at a valid context that is `Suspended`, and never
    /// wakes before it started.
    pub open spec fn timer_entry_ok(self, i: int) -> bool {
        self.valid_id(self.timers[i].id)
            && self.state_of(self.timers[i].id) == TaskState::Suspended
            && self.timers[i].started <= self.timers[i].wake
    }

    /// Every timer points at a valid context that is `Suspended`.
    pub open spec fn timers_ok(self) -> bool {
        forall|i: int| 0 <= i < self.timers.len() ==> #[trigger] self.timer_entry_ok(i)
    }

    /// Registration `i` points at a valid context that is `Suspended`.
    pub open spec fn indefinite_entry_ok(self, i: int) -> bool {
        self.valid_id(self.indefinite[i]) && self.state_of(self.indefinite[i]) == TaskState::Suspended
    }

    /// Every indefinite-wait registration points at a valid context that
    /// is `Suspended`.
    pub open spec fn indefinite_ok(self) -> bool {
        forall|i: int| 0 <= i < self.indefinite.len() ==> #[trigger] self.indefinite_entry_ok(i)
    }

    /// No context is registered twice, in one place or across two.
    pub open spec fn no_double_registration(self) -> bool {
        &&& forall|i: int, j: int|
            0 <= i < j < self.ready.len() ==> self.ready[i] != self.ready[j]
        &&& forall|i: int, j: int|
            0 <= i < j < self.timers.len() ==> self.timers[i].id != self.timers[j].id
        &&& forall|i: int, j: int|
            0 <= i < j < self.indefinite.len() ==> self.indefinite[i] != self.indefinite[j]
        &&& forall|i: int, j: int|
            0 <= i < self.timers.len() && 0 <= j < self.indefinite.len()
                ==> self.timers[i].id != self.indefinite[j]
    }

    /// The lifecycle invariant: every registration points at a valid
    /// context whose state matches its place, no context is registered
    /// twice, and the timer set is ordered.  In particular no context is
    /// pending in two places at once, so it can never be resumed twice.
    pub open spec fn wf(self) -> bool {
        &&& self.ready_ok()
        &&& self.timers_ok()
        &&& self.indefinite_ok()
        &&& self.no_double_registration()
        &&& self.timers_sorted()
    }

    /// Nothing is runnable now and no timer will make anything runnable:
    /// the driver may only idle for an external wake.
    pub open spec fn idle(self) -> bool {
        self.ready.len() == 0 && self.timers.len() == 0
    }

    /// Quiescence: no context is runnable, no timer is pending and no
    /// indefinite wait remains; the event loop may terminate.
    pub open spec fn quiescent(self) -> bool {
        self.idle() && self.indefinite.len() == 0
    }
}

// ---------------------------------------------------------------------------
// Transitions, as spec functions over the model.  Each executable method of
// `Scheduler` ensures that its effect is exactly one of these, so laws about
// the primitives can be stated and proved over the model alone.
// ---------------------------------------------------------------------------

/// `spawn` registers a new context that the driver runs immediately and
/// synchronously: it is begun before control returns, so it enters no
/// queue and is born `Running` once the driver starts it.  Registration
/// itself leaves it `Created`.
pub open spec fn create_immediate_tr(m: SchedModel) -> SchedModel {
    SchedModel { states: m.states.push(TaskState::Created), ..m }
}

/// `defer` registers a new context at the tail of the resumption queue:
/// it runs only after everything already in flight in the current pass
/// has yielded or completed.
pub open spec fn create_deferred_tr(m: SchedModel) -> SchedModel {
    SchedModel {
        states: m.states.push(TaskState::Runnable),
        ready: m.ready.push(m.states.len() as usize),
        ..m
    }
}

/// The stable insertion point for a new timer with wake time `wake`:
/// after every entry that wakes no later, before every entry that wakes
/// strictly later.
pub open spec fn timer_pos(timers: Seq<Timer>, wake: u64) -> int
    decreases timers.len(),
{
    if timers.len() == 0 {
        0
    } else if timers[0].wake <= wake {
        1 + timer_pos(timers.drop_first(), wake)
    } else {
        0
    }
}

/// Insert a timer, keeping the set ordered by wake time and keeping
/// registration order among equal wake times.
pub open spec fn insert_timer_s(timers: Seq<Timer>, t: Timer) -> Seq<Timer> {
    timers.insert(timer_pos(timers, t.wake), t)
}

/// `delay` registers a new context gated on a minimum elapsed time:
/// it is `Suspended` with a timer that wakes `clamp_secs(secs)` after
/// `now`.  A non-positive delay wakes immediately, like `defer` on the
/// next pass.
pub open spec fn create_delayed_tr(m: SchedModel, now: u64, secs: i64) -> SchedModel {
    let t = Timer { wake: (now + clamp_secs(secs)) as u64, id: m.states.len() as usize, started: now };
    SchedModel {
        states: m.states.push(TaskState::Suspended),
        timers: insert_timer_s(m.timers, t),
        ..m
    }
}

/// First resumption of a context held by the driver (spawn) or popped
/// from the queue: it becomes `Running`.
pub open spec fn start_tr(m: SchedModel, id: usize) -> SchedModel {
    SchedModel { states: m.states.update(id as int, TaskState::Running), ..m }
}

/// Popping the head of the resumption queue for resumption.
pub open spec fn take_next_tr(m: SchedModel) -> SchedModel {
    SchedModel {
        states: m.states.update(m.ready[0] as int, TaskState::Running),
        ready: m.ready.drop_first(),
        ..m
    }
}

/// A running context called `wait(secs)` (or an asynchronous capability
/// with a known minimum latency): it suspends on a timer.
pub open spec fn suspend_timed_tr(m: SchedModel, id: usize, now: u64, secs: i64) -> SchedModel {
    let t = Timer { wake: (now + clamp_secs(secs)) as u64, id, started: now };
    SchedModel {
        states: m.states.update(id as int, TaskState::Suspended),
        timers: insert_timer_s(m.timers, t),
        ..m
    }
}

/// A running context called `wait()` with no duration, or invoked an
/// asynchronous capability: it suspends until an external wake.
pub open spec fn suspend_indefinite_tr(m: SchedModel, id: usize) -> SchedModel {
    SchedModel {
        states: m.states.update(id as int, TaskState::Suspended),
        indefinite: m.indefinite.push(id),
        ..m
    }
}

/// Normal return of a running context.
pub open spec fn complete_tr(m: SchedModel, id: usize) -> SchedModel {
    SchedModel { states: m.states.update(id as int, TaskState::Completed), ..m }
}

/// Unhandled error inside a running context.  Only that context's state
/// changes: failure is isolated, siblings and all registrations are
/// untouched.
pub open spec fn fail_tr(m: SchedModel, id: usize) -> SchedModel {
    SchedModel { states: m.states.update(id as int, TaskState::Failed), ..m }
}

/// Resolving an indefinite wait: if `id` is registered, it moves to the
/// tail of the resumption queue; otherwise the resolution is a no-op
/// (resolving a registration is idempotent).
pub open spec fn wake_tr(m: SchedModel, id: usize) -> SchedModel {
    if m.indefinite.contains(id) {
        SchedModel {
            states: m.states.update(id as int, TaskState::Runnable),
            indefinite: m.indefinite.remove_value(id),
            ready: m.ready.push(id),
            ..m
        }
    } else {
        m
    }
}

/// The timer set without the (single) timer of context `id`, if one is
/// registered; otherwise unchanged.
pub open spec fn remove_timer(ts: Seq<Timer>, id: usize) -> Seq<Timer> {
    match timer_ids(ts).index_of_first(id) {
        Some(i) => ts.remove(i),
        None => ts,
    }
}

/// Cancellation: a non-terminal, non-running context becomes `Cancelled`
/// and every resource it holds (queue slot, timer, wait registration) is
/// released, exactly once.  On a terminal context cancellation is a
/// no-op; on a running one it is rejected and changes nothing.
pub open spec fn cancel_tr(m: SchedModel, id: usize) -> SchedModel {
    if m.valid_id(id) && !m.state_of(id).is_terminal() && m.state_of(id) != TaskState::Running {
        SchedModel {
            states: m.states.update(id as int, TaskState::Cancelled),
            ready: m.ready.remove_value(id),
            timers: remove_timer(m.timers, id),
            indefinite: m.indefinite.remove_value(id),
        }
    } else {
        m
    }
}

/// One firing: the head of the timer set moves to the tail of the
/// resumption queue and becomes `Runnable`.
pub open spec fn drain_step(m: SchedModel) -> SchedModel {
    SchedModel {
        states: m.states.update(m.timers[0].id as int, TaskState::Runnable),
        ready: m.ready.push(m.timers[0].id),
        timers: m.timers.drop_first(),
        ..m
    }
}

/// Draining the timer set at time `now`: every entry whose wake time has
/// elapsed moves, in timer order (ascending wake, ties by registration),
/// to the tail of the resumption queue, exactly once.
pub open spec fn drain_tr(m: SchedModel, now: u64) -> SchedModel
    decreases m.timers.len(),
{
    if m.timers.len() > 0 && m.timers[0].wake <= now {
        drain_tr(drain_step(m), now)
    } else {
        m
    }
}

/// A scheduling call made by the running context before its first yield.
#[derive(Clone, Copy, PartialEq, Eq, Structural, Debug)]
pub enum SchedCall {
    Spawn,
    Defer,
}

/// The model after a sequence of spawn and defer calls from the running
/// context: a spawned context is begun at once (the driver starts it
/// before control returns to the caller), a deferred one joins the tail
/// of the resumption queue.
pub open spec fn apply_calls(m: SchedModel, calls: Seq<SchedCall>) -> SchedModel
    decreases calls.len(),
{
    if calls.len() == 0 {
        m
    } else {
        let m1 = if calls[0] is Spawn {
            start_tr(create_immediate_tr(m), m.states.len() as usize)
        } else {
            create_deferred_tr(m)
        };
        apply_calls(m1, calls.drop_first())
    }
}

/// The ids handed out by the deferred calls of the sequence, in call
/// order.
pub open spec fn defer_ids(m: SchedModel, calls: Seq<SchedCall>) -> Seq<usize>
    decreases calls.len(),
{
    if calls.len() == 0 {
        seq![]
    } else {
        let m1 = if calls[0] is Spawn {
            start_tr(create_immediate_tr(m), m.states.len() as usize)
        } else {
            create_deferred_tr(m)
        };
        if calls[0] is Spawn {
            defer_ids(m1, calls.drop_first())
        } else {
            seq![m.states.len() as usize] + defer_ids(m1, calls.drop_first())
        }
    }
}

// ---------------------------------------------------------------------------
// Helper lemmas about the invariant.
// ---------------------------------------------------------------------------

/// A context id that was never assigned is registered nowhere.
pub proof fn lemma_fresh_not_pending(m: SchedModel, id: usize)
    requires
        m.wf(),
        id as int >= m.states.len(),
    ensures
        !m.pending(id),
{
    if m.ready.contains(id) {
        let i = choose|i: int| 0 <= i < m.ready.len() && m.ready[i] == id;
        assert(m.ready_entry_ok(i));
    }
    if timer_ids(m.timers).contains(id) {
        let i = choose|i: int| 0 <= i < timer_ids(m.timers).len() && timer_ids(m.timers)[i] == id;
        assert(m.timer_entry_ok(i));
    }
    if m.indefinite.contains(id) {
        let i = choose|i: int| 0 <= i < m.indefinite.len() && m.indefinite[i] == id;
        assert(m.indefinite_entry_ok(i));
    }
}

/// A context whose state is neither `Runnable` nor `Suspended` is
/// registered nowhere.
pub proof fn lemma_unqueued_state_not_pending(m: SchedModel, id: usize)
    requires
        m.wf(),
        m.valid_id(id),
        m.state_of(id) != TaskState::Runnable,
        m.state_of(id) != TaskState::Suspended,
    ensures
        !m.pending(id),
{
    if m.ready.contains(id) {
        let i = choose|i: int| 0 <= i < m.ready.len() && m.ready[i] == id;
        assert(m.ready_entry_ok(i));
    }
    if timer_ids(m.timers).contains(id) {
        let i = choose|i: int| 0 <= i < timer_ids(m.timers).len() && timer_ids(m.timers)[i] == id;
        assert(m.timer_entry_ok(i));
    }
    if m.indefinite.contains(id) {
        let i = choose|i: int| 0 <= i < m.indefinite.len() && m.indefinite[i] == id;
        assert(m.indefinite_entry_ok(i));
    }
}

/// Extending the state table with a context that enters no queue keeps
/// the invariant.
pub proof fn lemma_wf_create_immediate(m: SchedModel)
    requires
        m.wf(),
    ensures
        create_immediate_tr(m).wf(),
{
    let m2 = create_immediate_tr(m);
    assert(m2.ready_ok()) by {
        assert forall|i: int| 0 <= i < m2.ready.len() implies #[trigger] m2.ready_entry_ok(i) by {
            assert(m.ready_entry_ok(i));
        }
    }
    assert(m2.timers_ok()) by {
        assert forall|i: int| 0 <= i < m2.timers.len() implies #[trigger] m2.timer_entry_ok(i) by {
            assert(m.timer_entry_ok(i));
        }
    }
    assert(m2.indefinite_ok()) by {
        assert forall|i: int| 0 <= i < m2.indefinite.len() implies #[trigger] m2.indefinite_entry_ok(i) by {
            assert(m.indefinite_entry_ok(i));
        }
    }
    assert(m2.no_double_registration());
    assert(m2.timers_sorted());
}

/// Registering a deferred context at the queue tail keeps the invariant.
pub proof fn lemma_wf_create_deferred(m: SchedModel)
    requires
        m.wf(),
        m.states.len() < usize::MAX,
    ensures
        create_deferred_tr(m).wf(),
{
    let m2 = create_deferred_tr(m);
    let id = m.states.len() as usize;
    lemma_fresh_not_pending(m, id);
    assert(m2.ready_ok()) by {
        assert forall|i: int| 0 <= i < m2.ready.len() implies #[trigger] m2.ready_entry_ok(i) by {
            if i < m.ready.len() {
                assert(m.ready_entry_ok(i));
            } else {
                assert(m2.ready[i] == id);
                assert(m2.states[id as int] == TaskState::Runnable);
            }
        }
    }
    assert(m2.timers_ok()) by {
        assert forall|i: int| 0 <= i < m2.timers.len() implies #[trigger] m2.timer_entry_ok(i) by {
            assert(m.timer_entry_ok(i));
        }
    }
    assert(m2.indefinite_ok()) by {
        assert forall|i: int| 0 <= i < m2.indefinite.len() implies #[trigger] m2.indefinite_entry_ok(i) by {
            assert(m.indefinite_entry_ok(i));
        }
    }
    assert(m2.no_double_registration()) by {
        assert forall|i: int, j: int| 0 <= i < j < m2.ready.len()
            implies m2.ready[i] != m2.ready[j] by {
            if j < m.ready.len() {
            } else {
                assert(m.ready_entry_ok(i));
                assert(m2.ready[j] == id);
            }
        }
    }
    assert(m2.timers_sorted());
}

/// Changing the state of an unregistered context keeps the invariant:
/// nothing in the queues points at it.
pub proof fn lemma_wf_update_unpending(m: SchedModel, id: usize, st: TaskState)
    requires
        m.wf(),
        m.valid_id(id),
        !m.pending(id),
    ensures
        (SchedModel { states: m.states.update(id as int, st), ..m }).wf(),
{
    let m2 = SchedModel { states: m.states.update(id as int, st), ..m };
    assert(m2.ready_ok()) by {
        assert forall|i: int| 0 <= i < m2.ready.len() implies #[trigger] m2.ready_entry_ok(i) by {
            assert(m.ready_entry_ok(i));
            assert(m.ready[i] != id);
        }
    }
    assert(m2.timers_ok()) by {
        assert forall|i: int| 0 <= i < m2.timers.len() implies #[trigger] m2.timer_entry_ok(i) by {
            assert(m.timer_entry_ok(i));
            assert(timer_ids(m.timers)[i] == m.timers[i].id);
            assert(m.timers[i].id != id);
        }
    }
    assert(m2.indefinite_ok()) by {
        assert forall|i: int| 0 <= i < m2.indefinite.len() implies #[trigger] m2.indefinite_entry_ok(i) by {
            assert(m.indefinite_entry_ok(i));
            assert(m.indefinite[i] != id);
        }
    }
    assert(m2.no_double_registration());
    assert(m2.timers_sorted());
}

// ---------------------------------------------------------------------------
// Timer-set lemmas.
// ---------------------------------------------------------------------------

/// `timer_pos` is the first index whose wake time is past `w`: everything
/// before it wakes no later than `w`.
pub proof fn lemma_timer_pos(ts: Seq<Timer>, w: u64)
    ensures
        0 <= timer_pos(ts, w) <= ts.len(),
        forall|k: int| 0 <= k < timer_pos(ts, w) ==> (#[trigger] ts[k]).wake <= w,
        timer_pos(ts, w) < ts.len() ==> ts[timer_pos(ts, w)].wake > w,
    decreases ts.len(),
{
    if ts.len() == 0 {
    } else if ts[0].wake <= w {
        lemma_timer_pos(ts.drop_first(), w);
        assert forall|k: int| 0 <= k < timer_pos(ts, w) implies (#[trigger] ts[k]).wake <= w by {
            if k > 0 {
                assert(ts.drop_first()[k - 1].wake <= w);
            }
        }
        if timer_pos(ts, w) < ts.len() {
            assert(ts.drop_first()[timer_pos(ts.drop_first(), w)].wake > w);
        }
    }
}

/// `timer_pos` is the only index with that property.
pub proof fn lemma_timer_pos_unique(ts: Seq<Timer>, w: u64, i: int)
    requires
        0 <= i <= ts.len(),
        forall|k: int| 0 <= k < i ==> (#[trigger] ts[k]).wake <= w,
        i < ts.len() ==> ts[i].wake > w,
    ensures
        timer_pos(ts, w) == i,
    decreases ts.len(),
{
    if ts.len() == 0 {
    } else if ts[0].wake <= w {
        assert(i >= 1);
        assert forall|k: int| 0 <= k < i - 1 implies (#[trigger] ts.drop_first()[k]).wake <= w by {
            assert(ts[k + 1].wake <= w);
        }
        lemma_timer_pos_unique(ts.drop_first(), w, i - 1);
    } else {
        assert(i == 0) by {
            if i > 0 {
                assert(ts[0].wake <= w);
            }
        }
    }
}

/// Stable insertion keeps the timer set sorted and keeps the invariant;
/// the inserted timer must belong to a valid context that is `Suspended`
/// in `m2.states` and is registered nowhere else.
pub proof fn lemma_wf_suspend_timed(m: SchedModel, id: usize, now: u64, secs: i64)
    requires
        m.wf(),
        m.valid_id(id),
        !m.pending(id),
        now + clamp_secs(secs) <= u64::MAX,
    ensures
        suspend_timed_tr(m, id, now, secs).wf(),
{
    let m2 = suspend_timed_tr(m, id, now, secs);
    let t = Timer { wake: (now + clamp_secs(secs)) as u64, id, started: now };
    let pos = timer_pos(m.timers, t.wake);
    lemma_timer_pos(m.timers, t.wake);
    m.timers.insert_ensures(pos, t);
    assert(m2.ready_ok()) by {
        assert forall|i: int| 0 <= i < m2.ready.len() implies #[trigger] m2.ready_entry_ok(i) by {
            assert(m.ready_entry_ok(i));
            assert(m.ready[i] != id);
        }
    }
    assert(m2.timers_ok()) by {
        assert forall|i: int| 0 <= i < m2.timers.len() implies #[trigger] m2.timer_entry_ok(i) by {
            if i < pos {
                assert(m2.timers[i] == m.timers[i]);
                assert(m.timer_entry_ok(i));
                assert(timer_ids(m.timers)[i] == m.timers[i].id);
                assert(m.timers[i].id != id);
            } else if i == pos {
                assert(m2.timers[i] == t);
            } else {
                assert(m2.timers[i] == m.timers[i - 1]);
                assert(m.timer_entry_ok(i - 1));
                assert(timer_ids(m.timers)[i - 1] == m.timers[i - 1].id);
                assert(m.timers[i - 1].id != id);
            }
        }
    }
    assert(m2.indefinite_ok()) by {
        assert forall|i: int| 0 <= i < m2.indefinite.len() implies #[trigger] m2.indefinite_entry_ok(i) by {
            assert(m.indefinite_entry_ok(i));
            assert(m.indefinite[i] != id);
        }
    }
    assert(m2.no_double_registration()) by {
        assert forall|i: int, j: int| 0 <= i < j < m2.timers.len()
            implies m2.timers[i].id != m2.timers[j].id by {
            if i != pos && j != pos {
                let i0: int = if i < pos { i } else { i - 1 };
                let j0: int = if j < pos { j } else { j - 1 };
                assert(m2.timers[i] == m.timers[i0]);
                assert(m2.timers[j] == m.timers[j0]);
            } else {
                let k0: int = if i == pos { if j < pos { j } else { j - 1 } } else { if i < pos { i } else { i - 1 } };
                assert(timer_ids(m.timers)[k0] == m.timers[k0].id);
            }
        }
        assert forall|i: int, j: int| 0 <= i < m2.timers.len() && 0 <= j < m2.indefinite.len()
            implies m2.timers[i].id != m2.indefinite[j] by {
            if i == pos {
                assert(m.indefinite[j] != id);
            } else {
                let i0: int = if i < pos { i } else { i - 1 };
                assert(m2.timers[i] == m.timers[i0]);
            }
        }
    }
    assert(m2.timers_sorted()) by {
        assert forall|i: int, j: int| 0 <= i <= j < m2.timers.len()
            implies m2.timers[i].wake <= m2.timers[j].wake by {
            let i0: int = if i < pos { i } else { i - 1 };
            let j0: int = if j < pos { j } else { j - 1 };
            if i == pos && j == pos {
            } else if i == pos {
                assert(m2.timers[j] == m.timers[j0]);
                assert(m.timers[j0].wake > t.wake);
            } else if j == pos {
                assert(m2.timers[i] == m.timers[i0]);
                assert(m.timers[i0].wake <= t.wake);
            } else {
                assert(m2.timers[i] == m.timers[i0]);
                assert(m2.timers[j] == m.timers[j0]);
            }
        }
    }
}

/// Registering a delayed context keeps the invariant: the new context is
/// fresh, `Suspended`, and holds exactly one timer.
pub proof fn lemma_wf_create_delayed(m: SchedModel, now: u64, secs: i64)
    requires
        m.wf(),
        m.states.len() < usize::MAX,
        now + clamp_secs(secs) <= u64::MAX,
    ensures
        create_delayed_tr(m, now, secs).wf(),
{
    let id = m.states.len() as usize;
    lemma_fresh_not_pending(m, id);
    let mc = SchedModel { states: m.states.push(TaskState::Suspended), ..m };
    lemma_wf_create_immediate(m);
    let mi = create_immediate_tr(m);
    assert(mc.ready_ok()) by {
        assert forall|i: int| 0 <= i < mc.ready.len() implies #[trigger] mc.ready_entry_ok(i) by {
            assert(mi.ready_entry_ok(i));
        }
    }
    assert(mc.timers_ok()) by {
        assert forall|i: int| 0 <= i < mc.timers.len() implies #[trigger] mc.timer_entry_ok(i) by {
            assert(mi.timer_entry_ok(i));
        }
    }
    assert(mc.indefinite_ok()) by {
        assert forall|i: int| 0 <= i < mc.indefinite.len() implies #[trigger] mc.indefinite_entry_ok(i) by {
            assert(mi.indefinite_entry_ok(i));
        }
    }
    assert(mc.wf());
    assert(mc.valid_id(id));
    assert(!mc.pending(id)) by {
        lemma_fresh_not_pending_same_queues(m, mc, id);
    }
    lemma_wf_suspend_timed(mc, id, now, secs);
    assert(create_delayed_tr(m, now, secs) =~= suspend_timed_tr(mc, id, now, secs));
}

/// Two models with the same queues agree on what is pending.
pub proof fn lemma_fresh_not_pending_same_queues(m: SchedModel, m2: SchedModel, id: usize)
    requires
        m.wf(),
        id as int >= m.states.len(),
        m2.ready == m.ready,
        m2.timers == m.timers,
        m2.indefinite == m.indefinite,
    ensures
        !m2.pending(id),
{
    lemma_fresh_not_pending(m, id);
}

// ---------------------------------------------------------------------------
// Removal lemmas, for cancellation and wait resolution.
// ---------------------------------------------------------------------------

/// Removing one value from a duplicate-free id sequence removes exactly
/// its occurrence: the rest keeps its order, values and freedom from
/// duplicates, and the removed value is gone.
pub proof fn lemma_remove_value_props(s: Seq<usize>, id: usize)
    requires
        forall|i: int, j: int| 0 <= i < j < s.len() ==> s[i] != s[j],
    ensures
        s.remove_value(id).len() <= s.len(),
        !s.remove_value(id).contains(id),
        forall|k: int|
            0 <= k < s.remove_value(id).len()
                ==> s.contains(#[trigger] s.remove_value(id)[k]) && s.remove_value(id)[k] != id,
        forall|i: int, j: int|
            0 <= i < j < s.remove_value(id).len() ==> s.remove_value(id)[i] != s.remove_value(id)[j],
        forall|x: usize| x != id ==> (s.remove_value(id).contains(x) <==> s.contains(x)),
{
    s.index_of_first_ensures(id);
    let r = s.remove_value(id);
    match s.index_of_first(id) {
        Some(ix) => {
            s.remove_ensures(ix);
            assert forall|k: int| 0 <= k < r.len()
                implies s.contains(#[trigger] r[k]) && r[k] != id by {
                if k < ix {
                    assert(r[k] == s[k]);
                } else {
                    assert(r[k] == s[k + 1]);
                    assert(s[k + 1] != s[ix]);
                }
            }
            assert forall|i: int, j: int| 0 <= i < j < r.len()
                implies r[i] != r[j] by {
                let i0: int = if i < ix { i } else { i + 1 };
                let j0: int = if j < ix { j } else { j + 1 };
                assert(r[i] == s[i0]);
                assert(r[j] == s[j0]);
            }
            assert(!r.contains(id)) by {
                if r.contains(id) {
                    let k = choose|k: int| 0 <= k < r.len() && r[k] == id;
                    if k < ix {
                        assert(r[k] == s[k]);
                    } else {
                        assert(r[k] == s[k + 1]);
                        assert(s[k + 1] != s[ix]);
                    }
                }
            }
            assert forall|x: usize| x != id implies (r.contains(x) <==> s.contains(x)) by {
                if s.contains(x) {
                    let k = choose|k: int| 0 <= k < s.len() && s[k] == x;
                    assert(k != ix);
                    if k < ix {
                        assert(r[k] == x);
                    } else {
                        assert(r[k - 1] == x);
                    }
                    assert(r.contains(x));
                }
                if r.contains(x) {
                    let k = choose|k: int| 0 <= k < r.len() && r[k] == x;
                    if k < ix {
                        assert(s[k] == x);
                    } else {
                        assert(s[k + 1] == x);
                    }
                    assert(s.contains(x));
                }
            }
        },
        None => {
            assert forall|k: int| 0 <= k < r.len()
                implies s.contains(#[trigger] r[k]) && r[k] != id by {
                assert(s[k] == r[k]);
            }
        },
    }
}

/// Removing the timer of one context from a duplicate-free, sorted timer
/// set keeps order, sortedness, the other timers and their values, and
/// leaves no timer for that context.
pub proof fn lemma_remove_timer_props(ts: Seq<Timer>, id: usize)
    requires
        forall|i: int, j: int| 0 <= i < j < ts.len() ==> ts[i].id != ts[j].id,
        forall|i: int, j: int| 0 <= i <= j < ts.len() ==> ts[i].wake <= ts[j].wake,
    ensures
        remove_timer(ts, id).len() <= ts.len(),
        !timer_ids(remove_timer(ts, id)).contains(id),
        forall|k: int|
            0 <= k < remove_timer(ts, id).len()
                ==> ts.contains(#[trigger] remove_timer(ts, id)[k]) && remove_timer(ts, id)[k].id != id,
        forall|i: int, j: int|
            0 <= i < j < remove_timer(ts, id).len()
                ==> remove_timer(ts, id)[i].id != remove_timer(ts, id)[j].id,
        forall|i: int, j: int|
            0 <= i <= j < remove_timer(ts, id).len()
                ==> remove_timer(ts, id)[i].wake <= remove_timer(ts, id)[j].wake,
{
    timer_ids(ts).index_of_first_ensures(id);
    let r = remove_timer(ts, id);
    match timer_ids(ts).index_of_first(id) {
        Some(ix) => {
            assert(timer_ids(ts)[ix] == ts[ix].id);
            ts.remove_ensures(ix);
            assert forall|k: int| 0 <= k < r.len()
                implies ts.contains(#[trigger] r[k]) && r[k].id != id by {
                if k < ix {
                    assert(r[k] == ts[k]);
                    assert(timer_ids(ts)[k] == ts[k].id);
                } else {
                    assert(r[k] == ts[k + 1]);
                    assert(ts[k + 1].id != ts[ix].id);
                }
            }
            assert forall|i: int, j: int| 0 <= i < j < r.len()
                implies r[i].id != r[j].id by {
                let i0: int = if i < ix { i } else { i + 1 };
                let j0: int = if j < ix { j } else { j + 1 };
                assert(r[i] == ts[i0]);
                assert(r[j] == ts[j0]);
            }
            assert forall|i: int, j: int| 0 <= i <= j < r.len()
                implies r[i].wake <= r[j].wake by {
                let i0: int = if i < ix { i } else { i + 1 };
                let j0: int = if j < ix { j } else { j + 1 };
                assert(r[i] == ts[i0]);
                assert(r[j] == ts[j0]);
            }
            assert(!timer_ids(r).contains(id)) by {
                if timer_ids(r).contains(id) {
                    let k = choose|k: int| 0 <= k < timer_ids(r).len() && timer_ids(r)[k] == id;
                    assert(r[k].id == id);
                }
            }
        },
        None => {
            assert forall|k: int| 0 <= k < r.len()
                implies ts.contains(#[trigger] r[k]) && r[k].id != id by {
                assert(ts[k] == r[k]);
                assert(timer_ids(ts)[k] == ts[k].id);
            }
            assert(!timer_ids(r).contains(id)) by {
                if timer_ids(r).contains(id) {
                    let k = choose|k: int| 0 <= k < timer_ids(r).len() && timer_ids(r)[k] == id;
                }
            }
        },
    }
}

/// Cancellation keeps the invariant and releases every registration of
/// the cancelled context.
pub proof fn lemma_wf_cancel(m: SchedModel, id: usize)
    requires
        m.wf(),
    ensures
        cancel_tr(m, id).wf(),
        !cancel_tr(m, id).pending(id) || m.state_of(id) == TaskState::Running,
{
    if m.valid_id(id) && !m.state_of(id).is_terminal() && m.state_of(id) != TaskState::Running {
        let m2 = cancel_tr(m, id);
        lemma_remove_value_props(m.ready, id);
        lemma_remove_timer_props(m.timers, id);
        lemma_remove_value_props(m.indefinite, id);
        assert(m2.ready_ok()) by {
            assert forall|i: int| 0 <= i < m2.ready.len() implies #[trigger] m2.ready_entry_ok(i) by {
                assert(m.ready.contains(m2.ready[i]));
                let k = choose|k: int| 0 <= k < m.ready.len() && m.ready[k] == m2.ready[i];
                assert(m.ready_entry_ok(k));
                assert(m2.ready[i] != id);
            }
        }
        assert(m2.timers_ok()) by {
            assert forall|i: int| 0 <= i < m2.timers.len() implies #[trigger] m2.timer_entry_ok(i) by {
                assert(m.timers.contains(m2.timers[i]));
                let k = choose|k: int| 0 <= k < m.timers.len() && m.timers[k] == m2.timers[i];
                assert(m.timer_entry_ok(k));
                assert(m2.timers[i].id != id);
            }
        }
        assert(m2.indefinite_ok()) by {
            assert forall|i: int| 0 <= i < m2.indefinite.len() implies #[trigger] m2.indefinite_entry_ok(i) by {
                assert(m.indefinite.contains(m2.indefinite[i]));
                let k = choose|k: int| 0 <= k < m.indefinite.len() && m.indefinite[k] == m2.indefinite[i];
                assert(m.indefinite_entry_ok(k));
                assert(m2.indefinite[i] != id);
            }
        }
        assert(m2.no_double_registration()) by {
            assert forall|i: int, j: int| 0 <= i < m2.timers.len() && 0 <= j < m2.indefinite.len()
                implies m2.timers[i].id != m2.indefinite[j] by {
                assert(m.timers.contains(m2.timers[i]));
                let ki = choose|k: int| 0 <= k < m.timers.len() && m.timers[k] == m2.timers[i];
                assert(m.indefinite.contains(m2.indefinite[j]));
                let kj = choose|k: int| 0 <= k < m.indefinite.len() && m.indefinite[k] == m2.indefinite[j];
                assert(m.timers[ki].id != m.indefinite[kj]);
            }
        }
        assert(m2.timers_sorted());
        assert(!m2.pending(id));
    } else if !m.valid_id(id) {
        lemma_fresh_not_pending(m, id);
    } else if m.state_of(id) != TaskState::Running {
        lemma_unqueued_state_not_pending(m, id);
    }
}

/// Resolving an indefinite wait keeps the invariant; resolving one that
/// is not registered changes nothing.
pub proof fn lemma_wf_wake(m: SchedModel, id: usize)
    requires
        m.wf(),
    ensures
        wake_tr(m, id).wf(),
{
    if m.indefinite.contains(id) {
        let ix = choose|k: int| 0 <= k < m.indefinite.len() && m.indefinite[k] == id;
        assert(m.indefinite_entry_ok(ix));
        let m2 = wake_tr(m, id);
        lemma_remove_value_props(m.indefinite, id);
        assert(m2.ready_ok()) by {
            assert forall|i: int| 0 <= i < m2.ready.len() implies #[trigger] m2.ready_entry_ok(i) by {
                if i < m.ready.len() {
                    assert(m.ready_entry_ok(i));
                    if m.ready[i] == id {
                        assert(m.state_of(id) == TaskState::Suspended);
                    }
                } else {
                    assert(m2.ready[i] == id);
                }
            }
        }
        assert(m2.timers_ok()) by {
            assert forall|i: int| 0 <= i < m2.timers.len() implies #[trigger] m2.timer_entry_ok(i) by {
                assert(m.timer_entry_ok(i));
                assert(m.timers[i].id != m.indefinite[ix]);
            }
        }
        assert(m2.indefinite_ok()) by {
            assert forall|i: int| 0 <= i < m2.indefinite.len() implies #[trigger] m2.indefinite_entry_ok(i) by {
                assert(m.indefinite.contains(m2.indefinite[i]));
                let k = choose|k: int| 0 <= k < m.indefinite.len() && m.indefinite[k] == m2.indefinite[i];
                assert(m.indefinite_entry_ok(k));
                assert(m2.indefinite[i] != id);
            }
        }
        assert(m2.no_double_registration()) by {
            assert forall|i: int, j: int| 0 <= i < j < m2.ready.len()
                implies m2.ready[i] != m2.ready[j] by {
                if j == m.ready.len() {
                    assert(m.ready_entry_ok(i));
                    if m.ready[i] == id {
                        assert(m.state_of(id) == TaskState::Suspended);
                    }
                }
            }
            assert forall|i: int, j: int| 0 <= i < m2.timers.len() && 0 <= j < m2.indefinite.len()
                implies m2.timers[i].id != m2.indefinite[j] by {
                assert(m.indefinite.contains(m2.indefinite[j]));
                let kj = choose|k: int| 0 <= k < m.indefinite.len() && m.indefinite[k] == m2.indefinite[j];
                assert(m.timers[i].id != m.indefinite[kj]);
            }
        }
        assert(m2.timers_sorted());
    }
}

// ---------------------------------------------------------------------------
// Drain lemmas.
// ---------------------------------------------------------------------------

/// One firing keeps the invariant: the head is `Suspended`, registered
/// nowhere else, and becomes a `Runnable` queue entry.
pub proof fn lemma_wf_drain_step(m: SchedModel)
    requires
        m.wf(),
        m.timers.len() > 0,
    ensures
        drain_step(m).wf(),
{
    let id = m.timers[0].id;
    assert(m.timer_entry_ok(0));
    let m2 = drain_step(m);
    assert(m2.ready_ok()) by {
        assert forall|i: int| 0 <= i < m2.ready.len() implies #[trigger] m2.ready_entry_ok(i) by {
            if i < m.ready.len() {
                assert(m.ready_entry_ok(i));
                if m.ready[i] == id {
                    assert(m.state_of(id) == TaskState::Suspended);
                }
            } else {
                assert(m2.ready[i] == id);
            }
        }
    }
    assert(m2.timers_ok()) by {
        assert forall|i: int| 0 <= i < m2.timers.len() implies #[trigger] m2.timer_entry_ok(i) by {
            assert(m.timer_entry_ok(i + 1));
            assert(m.timers[i + 1].id != id);
        }
    }
    assert(m2.indefinite_ok()) by {
        assert forall|i: int| 0 <= i < m2.indefinite.len() implies #[trigger] m2.indefinite_entry_ok(i) by {
            assert(m.indefinite_entry_ok(i));
            assert(m.timers[0].id != m.indefinite[i]);
        }
    }
    assert(m2.no_double_registration()) by {
        assert forall|i: int, j: int| 0 <= i < j < m2.ready.len()
            implies m2.ready[i] != m2.ready[j] by {
            if j < m.ready.len() {
            } else {
                assert(m2.ready[j] == id);
                assert(m.ready_entry_ok(i));
                if m.ready[i] == id {
                    assert(m.state_of(id) == TaskState::Suspended);
                }
            }
        }
        assert forall|i: int, j: int| 0 <= i < j < m2.timers.len()
            implies m2.timers[i].id != m2.timers[j].id by {
            assert(m.timers[i + 1].id != m.timers[j + 1].id);
        }
        assert forall|i: int, j: int| 0 <= i < m2.timers.len() && 0 <= j < m2.indefinite.len()
            implies m2.timers[i].id != m2.indefinite[j] by {
            assert(m.timers[i + 1].id != m.indefinite[j]);
        }
    }
    assert(m2.timers_sorted()) by {
        assert forall|i: int, j: int| 0 <= i <= j < m2.timers.len()
            implies m2.timers[i].wake <= m2.timers[j].wake by {
            assert(m.timers[i + 1].wake <= m.timers[j + 1].wake);
        }
    }
}

/// What draining does, in full: the elapsed prefix of the timer set (all
/// entries waking at or before `now`, and only those) moves in order to
/// the queue tail, those contexts become `Runnable`, and nothing else
/// changes.
pub proof fn lemma_drain_props(m: SchedModel, now: u64)
    requires
        m.wf(),
    ensures
        drain_tr(m, now).wf(),
        drain_tr(m, now).timers == m.timers.skip(timer_pos(m.timers, now)),
        drain_tr(m, now).ready == m.ready + timer_ids(m.timers).take(timer_pos(m.timers, now)),
        drain_tr(m, now).indefinite == m.indefinite,
        drain_tr(m, now).states.len() == m.states.len(),
        forall|id: usize|
            (id as int) < m.states.len() ==> #[trigger] drain_tr(m, now).states[id as int]
                == if timer_ids(m.timers).take(timer_pos(m.timers, now)).contains(id) {
                    TaskState::Runnable
                } else {
                    m.states[id as int]
                },
    decreases m.timers.len(),
{
    let d = drain_tr(m, now);
    let pos = timer_pos(m.timers, now);
    let fired = timer_ids(m.timers).take(pos);
    lemma_timer_pos(m.timers, now);
    if m.timers.len() > 0 && m.timers[0].wake <= now {
        let id0 = m.timers[0].id;
        lemma_wf_drain_step(m);
        let ms = drain_step(m);
        lemma_drain_props(ms, now);
        assert(d == drain_tr(ms, now));
        assert(ms.timers == m.timers.drop_first());
        lemma_timer_pos(ms.timers, now);
        assert(timer_pos(m.timers, now) == 1 + timer_pos(ms.timers, now));
        let pos1 = timer_pos(ms.timers, now);
        assert(m.timer_entry_ok(0));
        assert(ms.states.len() == m.states.len());
        assert(d.timers =~= m.timers.skip(pos)) by {
            assert(d.timers == ms.timers.skip(pos1));
        }
        assert(d.ready =~= m.ready + fired) by {
            assert(d.ready == ms.ready + timer_ids(ms.timers).take(pos1));
            assert forall|k: int| 0 <= k < pos1 implies timer_ids(ms.timers).take(pos1)[k]
                == fired[k + 1] by {
                assert(ms.timers[k] == m.timers[k + 1]);
            }
        }
        assert forall|id: usize| (id as int) < m.states.len() implies #[trigger] d.states[id as int]
            == if fired.contains(id) { TaskState::Runnable } else { m.states[id as int] } by {
            let fired1 = timer_ids(ms.timers).take(pos1);
            assert(d.states[id as int] == if fired1.contains(id) { TaskState::Runnable } else { ms.states[id as int] });
            if fired1.contains(id) {
                let j = choose|j: int| 0 <= j < fired1.len() && fired1[j] == id;
                assert(ms.timers[j].id == id);
                assert(fired[j + 1] == m.timers[j + 1].id);
                assert(fired.contains(id));
            } else if id == id0 {
                assert(fired[0] == id0);
                assert(fired.contains(id0));
                assert(ms.states[id as int] == TaskState::Runnable);
            } else {
                if fired.contains(id) {
                    let j = choose|j: int| 0 <= j < fired.len() && fired[j] == id;
                    assert(fired[j] == timer_ids(m.timers)[j]);
                    assert(m.timers[j].id == id);
                    assert(fired[0] == m.timers[0].id);
                    assert(j != 0);
                    assert(ms.timers[j - 1].id == id);
                    assert(fired1[j - 1] == id);
                    assert(fired1.contains(id));
                }
                assert(ms.states[id as int] == m.states[id as int]);
            }
        }
    } else {
        assert(pos == 0);
        assert(d.timers =~= m.timers.skip(0));
        assert(d.ready =~= m.ready + fired);
    }
}

// ---------------------------------------------------------------------------
// The executable scheduler.
// ---------------------------------------------------------------------------

/// The scheduler.  It owns every execution context's scheduling state;
/// the driver resumes contexts only when this structure says so.
pub struct Scheduler {
    states: Vec<TaskState>,
    ready: Vec<usize>,
    timers: Vec<Timer>,
    indefinite: Vec<usize>,
}

impl View for Scheduler {
    type V = SchedModel;

    closed spec fn view(&self) -> SchedModel {
        SchedModel {
            states: self.states@,
            ready: self.ready@,
            timers: self.timers@,
            indefinite: self.indefinite@,
        }
    }
}

impl Scheduler {
    /// A fresh scheduler: no contexts, nothing pending.
    pub fn new() -> (s: Scheduler)
        ensures
            s@ == SchedModel::empty(),
            s@.wf(),
    {
        let s = Scheduler { states: Vec::new(), ready: Vec::new(), timers: Vec::new(), indefinite: Vec::new() };
        proof {
            assert(s@ =~= SchedModel::empty());
        }
        s
    }

    /// How many contexts have ever been registered (ids are never reused).
    pub fn num_tasks(&self) -> (n: usize)
        ensures
            n == self@.states.len(),
    {
        self.states.len()
    }

    /// The current state of a context.
    pub fn state_of(&self, h: TaskHandle) -> (st: TaskState)
        requires
            self@.valid_id(h.id),
        ensures
            st == self@.state_of(h.id),
    {
        self.states[h.id]
    }

    /// How many contexts stand in the resumption queue.
    pub fn ready_len(&self) -> (n: usize)
        ensures
            n == self@.ready.len(),
    {
        self.ready.len()
    }

    /// Whether any timer is pending.
    pub fn has_timers(&self) -> (r: bool)
        ensures
            r == (self@.timers.len() > 0),
    {
        self.timers.len() > 0
    }

    /// Whether any indefinite-wait registration remains.
    pub fn has_indefinite(&self) -> (r: bool)
        ensures
            r == (self@.indefinite.len() > 0),
    {
        self.indefinite.len() > 0
    }

    /// The head of the indefinite-wait registrations, if any.
    pub fn first_indefinite(&self) -> (r: Option<TaskHandle>)
        ensures
            match r {
                Some(h) => self@.indefinite.len() > 0 && h.id == self@.indefinite[0],
                None => self@.indefinite.len() == 0,
            },
    {
        if self.indefinite.len() > 0 {
            Some(TaskHandle { id: self.indefinite[0] })
        } else {
            None
        }
    }

    /// Nothing runnable and no timer pending.
    pub fn is_idle(&self) -> (r: bool)
        ensures
            r == self@.idle(),
    {
        self.ready.len() == 0 && self.timers.len() == 0
    }

    /// Quiescence: the event loop may terminate.
    pub fn is_quiescent(&self) -> (r: bool)
        ensures
            r == self@.quiescent(),
    {
        self.ready.len() == 0 && self.timers.len() == 0 && self.indefinite.len() == 0
    }

    /// Register a context for an immediate, synchronous run (`spawn`).
    /// The driver must `start` and resume it before touching the queue.
    pub fn create_immediate(&mut self) -> (h: TaskHandle)
        requires
            old(self)@.wf(),
            old(self)@.states.len() < usize::MAX,
        ensures
            final(self)@ == create_immediate_tr(old(self)@),
            final(self)@.wf(),
            h.id as int == old(self)@.next_id(),
            final(self)@.state_of(h.id) == TaskState::Created,
            !final(self)@.pending(h.id),
    {
        let id = self.states.len();
        self.states.push(TaskState::Created);
        proof {
            assert(self@ =~= create_immediate_tr(old(self)@));
            lemma_wf_create_immediate(old(self)@);
            lemma_fresh_not_pending(old(self)@, id);
        }
        TaskHandle { id }
    }

    /// Register a context to run after the current pass (`defer`): it
    /// joins the tail of the resumption queue as `Runnable`.
    pub fn create_deferred(&mut self) -> (h: TaskHandle)
        requires
            old(self)@.wf(),
            old(self)@.states.len() < usize::MAX,
        ensures
            final(self)@ == create_deferred_tr(old(self)@),
            final(self)@.wf(),
            h.id as int == old(self)@.next_id(),
            final(self)@.state_of(h.id) == TaskState::Runnable,
            final(self)@.ready == old(self)@.ready.push(h.id),
    {
        let id = self.states.len();
        self.states.push(TaskState::Runnable);
        self.ready.push(id);
        proof {
            assert(self@ =~= create_deferred_tr(old(self)@));
            lemma_wf_create_deferred(old(self)@);
        }
        TaskHandle { id }
    }

    /// First resumption of a context the driver holds in hand (a spawned
    /// context): it becomes `Running`.  The context must not stand in any
    /// queue; queued contexts are started through `take_next`.
    pub fn start(&mut self, h: TaskHandle)
        requires
            old(self)@.wf(),
            old(self)@.valid_id(h.id),
            !old(self)@.pending(h.id),
            old(self)@.state_of(h.id) == TaskState::Created
                || old(self)@.state_of(h.id) == TaskState::Runnable,
        ensures
            final(self)@ == start_tr(old(self)@, h.id),
            final(self)@.wf(),
    {
        self.states.set(h.id, TaskState::Running);
        proof {
            assert(self@ =~= start_tr(old(self)@, h.id));
            lemma_wf_update_unpending(old(self)@, h.id, TaskState::Running);
        }
    }

    /// Pop the head of the resumption queue and mark it `Running`; the
    /// driver must resume exactly this context next.  Returns `None` when
    /// the queue is empty.
    pub fn take_next(&mut self) -> (r: Option<TaskHandle>)
        requires
            old(self)@.wf(),
        ensures
            final(self)@.wf(),
            match r {
                Some(h) => old(self)@.ready.len() > 0 && h.id == old(self)@.ready[0]
                    && final(self)@ == take_next_tr(old(self)@)
                    && final(self)@.state_of(h.id) == TaskState::Running,
                None => old(self)@.ready.len() == 0 && final(self)@ == old(self)@,
            },
    {
        if self.ready.len() == 0 {
            return None;
        }
        proof {
            let m = old(self)@;
            assert(m.ready_entry_ok(0));
        }
        let id = self.ready.remove(0);
        self.states.set(id, TaskState::Running);
        proof {
            let m = old(self)@;
            assert(m.ready.remove(0) =~= m.ready.drop_first());
            assert(self@ =~= take_next_tr(m));
            lemma_wf_take_next(m);
        }
        Some(TaskHandle { id })
    }

    /// A running context suspended until an external wake: register it
    /// for indefinite waiting.
    pub fn suspend_indefinite(&mut self, h: TaskHandle)
        requires
            old(self)@.wf(),
            old(self)@.valid_id(h.id),
            old(self)@.state_of(h.id) == TaskState::Running,
        ensures
            final(self)@ == suspend_indefinite_tr(old(self)@, h.id),
            final(self)@.wf(),
    {
        proof {
            lemma_unqueued_state_not_pending(old(self)@, h.id);
            lemma_wf_suspend_indefinite(old(self)@, h.id);
        }
        self.states.set(h.id, TaskState::Suspended);
        self.indefinite.push(h.id);
        proof {
            assert(self@ =~= suspend_indefinite_tr(old(self)@, h.id));
        }
    }

    /// A running context returned normally.
    pub fn complete(&mut self, h: TaskHandle)
        requires
            old(self)@.wf(),
            old(self)@.valid_id(h.id),
            old(self)@.state_of(h.id) == TaskState::Running,
        ensures
            final(self)@ == complete_tr(old(self)@, h.id),
            final(self)@.wf(),
    {
        proof {
            lemma_unqueued_state_not_pending(old(self)@, h.id);
            lemma_wf_update_unpending(old(self)@, h.id, TaskState::Completed);
        }
        self.states.set(h.id, TaskState::Completed);
        proof {
            assert(self@ =~= complete_tr(old(self)@, h.id));
        }
    }

    /// A running context raised an unhandled error.  Only this context's
    /// state changes; every sibling and every registration is untouched,
    /// so one task's failure never starves the others.
    pub fn fail(&mut self, h: TaskHandle)
        requires
            old(self)@.wf(),
            old(self)@.valid_id(h.id),
            old(self)@.state_of(h.id) == TaskState::Running,
        ensures
            final(self)@ == fail_tr(old(self)@, h.id),
            final(self)@.wf(),
    {
        proof {
            lemma_unqueued_state_not_pending(old(self)@, h.id);
            lemma_wf_update_unpending(old(self)@, h.id, TaskState::Failed);
        }
        self.states.set(h.id, TaskState::Failed);
        proof {
            assert(self@ =~= fail_tr(old(self)@, h.id));
        }
    }

    /// Register a context gated on a minimum elapsed time (`delay`): it is
    /// `Suspended` on a timer that wakes `clamp_secs(secs)` after `now`.
    /// A non-positive delay is "as soon as possible", never an error.
    pub fn create_delayed(&mut self, now: u64, secs: i64) -> (h: TaskHandle)
        requires
            old(self)@.wf(),
            old(self)@.states.len() < usize::MAX,
            now + clamp_secs(secs) <= u64::MAX,
        ensures
            final(self)@ == create_delayed_tr(old(self)@, now, secs),
            final(self)@.wf(),
            h.id as int == old(self)@.next_id(),
            final(self)@.state_of(h.id) == TaskState::Suspended,
    {
        let id = self.states.len();
        self.states.push(TaskState::Suspended);
        let dur: u64 = if secs <= 0 { 0 } else { secs as u64 };
        let t = Timer { wake: now + dur, id, started: now };
        insert_timer(&mut self.timers, t);
        proof {
            assert(self@ =~= create_delayed_tr(old(self)@, now, secs));
            lemma_wf_create_delayed(old(self)@, now, secs);
        }
        TaskHandle { id }
    }

    /// The running context called `wait(secs)`: suspend it on a timer that
    /// wakes `clamp_secs(secs)` after `now`.  `wait(0)` and negative waits
    /// wake on the next pass; none is an error.
    pub fn suspend_timed(&mut self, h: TaskHandle, now: u64, secs: i64)
        requires
            old(self)@.wf(),
            old(self)@.valid_id(h.id),
            old(self)@.state_of(h.id) == TaskState::Running,
            now + clamp_secs(secs) <= u64::MAX,
        ensures
            final(self)@ == suspend_timed_tr(old(self)@, h.id, now, secs),
            final(self)@.wf(),
    {
        proof {
            lemma_unqueued_state_not_pending(old(self)@, h.id);
            lemma_wf_suspend_timed(old(self)@, h.id, now, secs);
        }
        self.states.set(h.id, TaskState::Suspended);
        let dur: u64 = if secs <= 0 { 0 } else { secs as u64 };
        let t = Timer { wake: now + dur, id: h.id, started: now };
        insert_timer(&mut self.timers, t);
        proof {
            assert(self@ =~= suspend_timed_tr(old(self)@, h.id, now, secs));
        }
    }

    /// Drain the timer set at time `now`: every context whose wake time
    /// has elapsed moves, in wake order (ties by registration), to the
    /// tail of the resumption queue, exactly once; none moves earlier.
    pub fn drain_timers(&mut self, now: u64)
        requires
            old(self)@.wf(),
        ensures
            final(self)@ == drain_tr(old(self)@, now),
            final(self)@.wf(),
    {
        while self.timers.len() > 0 && self.timers[0].wake <= now
            invariant
                self@.wf(),
                drain_tr(self@, now) == drain_tr(old(self)@, now),
            decreases self@.timers.len(),
        {
            let ghost pre = self@;
            proof {
                lemma_wf_drain_step(pre);
                assert(pre.timer_entry_ok(0));
            }
            let t = self.timers.remove(0);
            self.ready.push(t.id);
            self.states.set(t.id, TaskState::Runnable);
            proof {
                assert(self@ =~= drain_step(pre));
                assert(drain_tr(pre, now) == drain_tr(drain_step(pre), now));
            }
        }
        proof {
            lemma_drain_props(old(self)@, now);
        }
    }

    /// The earliest pending wake time, if any timer is pending.  The
    /// driver idles until then (or until an external wake) once the queue
    /// is empty.
    pub fn next_wake(&self) -> (r: Option<u64>)
        requires
            self@.wf(),
        ensures
            match r {
                Some(w) => self@.timers.len() > 0 && w == self@.timers[0].wake
                    && forall|k: int| 0 <= k < self@.timers.len()
                        ==> w <= (#[trigger] self@.timers[k]).wake,
                None => self@.timers.len() == 0,
            },
    {
        if self.timers.len() > 0 {
            Some(self.timers[0].wake)
        } else {
            None
        }
    }

    /// Cancel a context.  A running context cannot cancel (itself or any
    /// other running context): that is rejected with `InvalidCancellation`
    /// and changes nothing.  A terminal context is left alone: `Ok(false)`,
    /// a no-op, not an error.  Otherwise the context becomes `Cancelled`
    /// and every resource it held (queue slot, timer, wait registration)
    /// is released exactly once: `Ok(true)`.
    pub fn cancel(&mut self, h: TaskHandle) -> (r: Result<bool, SchedError>)
        requires
            old(self)@.wf(),
            old(self)@.valid_id(h.id),
        ensures
            final(self)@ == cancel_tr(old(self)@, h.id),
            final(self)@.wf(),
            match r {
                Err(e) => e == SchedError::InvalidCancellation
                    && old(self)@.state_of(h.id) == TaskState::Running
                    && final(self)@ == old(self)@,
                Ok(changed) => old(self)@.state_of(h.id) != TaskState::Running
                    && changed == !old(self)@.state_of(h.id).is_terminal()
                    && (changed ==> final(self)@.state_of(h.id) == TaskState::Cancelled
                        && !final(self)@.pending(h.id))
                    && (!changed ==> final(self)@ == old(self)@),
            },
    {
        let st = self.state_of(h);
        if st == TaskState::Running {
            return Err(SchedError::InvalidCancellation);
        }
        if st.terminal() {
            return Ok(false);
        }
        proof {
            lemma_wf_cancel(old(self)@, h.id);
        }
        self.states.set(h.id, TaskState::Cancelled);
        remove_first_id(&mut self.ready, h.id);
        remove_first_timer(&mut self.timers, h.id);
        remove_first_id(&mut self.indefinite, h.id);
        proof {
            assert(self@ =~= cancel_tr(old(self)@, h.id));
        }
        Ok(true)
    }

    /// Resolve an indefinite wait: if the context is registered it moves
    /// to the tail of the resumption queue; resolving a registration a
    /// second time (or one that never existed) is a no-op, not an error.
    pub fn wake(&mut self, h: TaskHandle) -> (woke: bool)
        requires
            old(self)@.wf(),
        ensures
            final(self)@ == wake_tr(old(self)@, h.id),
            final(self)@.wf(),
            woke == old(self)@.indefinite.contains(h.id),
    {
        proof {
            lemma_wf_wake(old(self)@, h.id);
        }
        let found = remove_first_id(&mut self.indefinite, h.id);
        if found {
            proof {
                let m = old(self)@;
                let ix = choose|k: int| 0 <= k < m.indefinite.len() && m.indefinite[k] == h.id;
                assert(m.indefinite_entry_ok(ix));
            }
            self.ready.push(h.id);
            self.states.set(h.id, TaskState::Runnable);
            proof {
                assert(self@ =~= wake_tr(old(self)@, h.id));
            }
        } else {
            proof {
                old(self)@.indefinite.index_of_first_ensures(h.id);
                assert(self@ =~= wake_tr(old(self)@, h.id));
            }
        }
        found
    }
}

/// Remove the first occurrence of `id`, if any; report whether one was
/// found.
fn remove_first_id(v: &mut Vec<usize>, id: usize) -> (found: bool)
    ensures
        final(v)@ == old(v)@.remove_value(id),
        found == old(v)@.contains(id),
{
    let mut i: usize = 0;
    while i < v.len()
        invariant
            v@ == old(v)@,
            0 <= i <= v@.len(),
            forall|k: int| 0 <= k < i ==> v@[k] != id,
        decreases v@.len() - i,
    {
        if v[i] == id {
            proof {
                old(v)@.index_of_first_ensures(id);
                assert(old(v)@.index_of_first(id) == Some(i as int)) by {
                    match old(v)@.index_of_first(id) {
                        Some(ix) => {
                            if ix < i {
                                assert(v@[ix] != id);
                            }
                            if ix > i {
                                assert(v@[i as int] != id);
                            }
                        },
                        None => {
                            assert(!old(v)@.contains(id));
                            assert(v@[i as int] == id);
                        },
                    }
                }
            }
            v.remove(i);
            return true;
        }
        i = i + 1;
    }
    proof {
        old(v)@.index_of_first_ensures(id);
        assert(!old(v)@.contains(id)) by {
            if old(v)@.contains(id) {
                let k = choose|k: int| 0 <= k < v@.len() && v@[k] == id;
            }
        }
    }
    false
}

/// Remove the first timer registered for context `id`, if any; report
/// whether one was found.
fn remove_first_timer(v: &mut Vec<Timer>, id: usize) -> (found: bool)
    ensures
        final(v)@ == remove_timer(old(v)@, id),
        found == timer_ids(old(v)@).contains(id),
{
    let mut i: usize = 0;
    while i < v.len()
        invariant
            v@ == old(v)@,
            0 <= i <= v@.len(),
            forall|k: int| 0 <= k < i ==> (#[trigger] v@[k]).id != id,
        decreases v@.len() - i,
    {
        if v[i].id == id {
            proof {
                let ids = timer_ids(old(v)@);
                ids.index_of_first_ensures(id);
                assert(ids[i as int] == v@[i as int].id);
                assert(ids.index_of_first(id) == Some(i as int)) by {
                    match ids.index_of_first(id) {
                        Some(ix) => {
                            assert(ids[ix] == v@[ix].id);
                            if ix < i {
                                assert(v@[ix].id != id);
                            }
                            if ix > i {
                                assert(ids[i as int] == id);
                            }
                        },
                        None => {
                            assert(!ids.contains(id));
                            assert(ids[i as int] == id);
                        },
                    }
                }
            }
            v.remove(i);
            return true;
        }
        i = i + 1;
    }
    proof {
        let ids = timer_ids(old(v)@);
        ids.index_of_first_ensures(id);
        assert(!ids.contains(id)) by {
            if ids.contains(id) {
                let k = choose|k: int| 0 <= k < ids.len() && ids[k] == id;
                assert(ids[k] == v@[k].id);
            }
        }
    }
    false
}

/// Clamp a requested duration so that its wake time fits the clock: the
/// result never wakes later than requested, and is the request itself
/// whenever that fits.
pub fn clamp_wake(now: u64, secs: i64) -> (r: i64)
    ensures
        now + clamp_secs(r) <= u64::MAX,
        clamp_secs(r) <= clamp_secs(secs),
        clamp_secs(secs) <= u64::MAX - now ==> clamp_secs(r) == clamp_secs(secs),
{
    if secs <= 0 {
        secs
    } else {
        let remaining: u64 = u64::MAX - now;
        if (secs as u64) <= remaining {
            secs
        } else if remaining > i64::MAX as u64 {
            i64::MAX
        } else {
            remaining as i64
        }
    }
}

/// How long a context waited: the clock now, minus the instant its wait
/// registration was created.  Callers report this on resumption; it is
/// at least the requested duration whenever the wake time has elapsed.
pub fn elapsed_since(now: u64, started: u64) -> (r: u64)
    requires
        started <= now,
    ensures
        r == now - started,
{
    now - started
}

/// Insert a timer into the set, after every entry that wakes no later
/// and before every entry that wakes strictly later.
fn insert_timer(timers: &mut Vec<Timer>, t: Timer)
    ensures
        final(timers)@ == insert_timer_s(old(timers)@, t),
{
    let mut i: usize = 0;
    while i < timers.len() && timers[i].wake <= t.wake
        invariant
            timers@ == old(timers)@,
            0 <= i <= timers@.len(),
            forall|k: int| 0 <= k < i ==> (#[trigger] timers@[k]).wake <= t.wake,
        decreases timers@.len() - i,
    {
        i = i + 1;
    }
    proof {
        lemma_timer_pos_unique(timers@, t.wake, i as int);
    }
    timers.insert(i, t);
}


/// Popping the queue head keeps the invariant, because the head is
/// `Runnable`, appears nowhere else, and becomes the running context.
pub proof fn lemma_wf_take_next(m: SchedModel)
    requires
        m.wf(),
        m.ready.len() > 0,
    ensures
        take_next_tr(m).wf(),
{
    let id = m.ready[0];
    assert(m.ready_entry_ok(0));
    let m2 = take_next_tr(m);
    assert(m2.ready_ok()) by {
        assert forall|i: int| 0 <= i < m2.ready.len() implies #[trigger] m2.ready_entry_ok(i) by {
            assert(m.ready_entry_ok(i + 1));
            assert(m.ready[i + 1] != id);
            assert(m2.ready[i] == m.ready[i + 1]);
        }
    }
    assert(m2.timers_ok()) by {
        assert forall|i: int| 0 <= i < m2.timers.len() implies #[trigger] m2.timer_entry_ok(i) by {
            assert(m.timer_entry_ok(i));
            assert(m.timers[i].id != id);
        }
    }
    assert(m2.indefinite_ok()) by {
        assert forall|i: int| 0 <= i < m2.indefinite.len() implies #[trigger] m2.indefinite_entry_ok(i) by {
            assert(m.indefinite_entry_ok(i));
            assert(m.indefinite[i] != id);
        }
    }
    assert(m2.no_double_registration()) by {
        assert forall|i: int, j: int| 0 <= i < j < m2.ready.len()
            implies m2.ready[i] != m2.ready[j] by {
            assert(m.ready[i + 1] != m.ready[j + 1]);
        }
    }
    assert(m2.timers_sorted());
}

/// Registering an indefinite wait for the running context keeps the
/// invariant.
pub proof fn lemma_wf_suspend_indefinite(m: SchedModel, id: usize)
    requires
        m.wf(),
        m.valid_id(id),
        !m.pending(id),
    ensures
        suspend_indefinite_tr(m, id).wf(),
{
    let m2 = suspend_indefinite_tr(m, id);
    assert(m2.ready_ok()) by {
        assert forall|i: int| 0 <= i < m2.ready.len() implies #[trigger] m2.ready_entry_ok(i) by {
            assert(m.ready_entry_ok(i));
            assert(m.ready[i] != id);
        }
    }
    assert(m2.timers_ok()) by {
        assert forall|i: int| 0 <= i < m2.timers.len() implies #[trigger] m2.timer_entry_ok(i) by {
            assert(m.timer_entry_ok(i));
            assert(timer_ids(m.timers)[i] == m.timers[i].id);
            assert(m.timers[i].id != id);
        }
    }
    assert(m2.indefinite_ok()) by {
        assert forall|i: int| 0 <= i < m2.indefinite.len() implies #[trigger] m2.indefinite_entry_ok(i) by {
            if i < m.indefinite.len() {
                assert(m.indefinite_entry_ok(i));
                assert(m.indefinite[i] != id);
            } else {
                assert(m2.indefinite[i] == id);
                assert(m2.states[id as int] == TaskState::Suspended);
            }
        }
    }
    assert(m2.no_double_registration()) by {
        assert forall|i: int, j: int| 0 <= i < j < m2.indefinite.len()
            implies m2.indefinite[i] != m2.indefinite[j] by {
            if j < m.indefinite.len() {
            } else {
                assert(m2.indefinite[j] == id);
                assert(m.indefinite[i] != id);
            }
        }
        assert forall|i: int, j: int| 0 <= i < m2.timers.len() && 0 <= j < m2.indefinite.len()
            implies m2.timers[i].id != m2.indefinite[j] by {
            if j < m.indefinite.len() {
            } else {
                assert(timer_ids(m.timers)[i] == m.timers[i].id);
                assert(m2.indefinite[j] == id);
            }
        }
    }
    assert(m2.timers_sorted());
}

} // verus!
