//! The scheduling laws: ordering of `spawn` against `defer`, delay
//! monotonicity, wait accuracy, cancellation idempotence and failure
//! isolation, proved over the scheduler's model transitions.

use vstd::prelude::*;
use crate::scheduler::SchedModel;
use crate::scheduler::SchedCall;
use crate::scheduler::TaskState;
use crate::scheduler::Timer;
use crate::scheduler::apply_calls;
use crate::scheduler::cancel_tr;
use crate::scheduler::clamp_secs;
use crate::scheduler::create_deferred_tr;
use crate::scheduler::create_delayed_tr;
use crate::scheduler::create_immediate_tr;
use crate::scheduler::defer_ids;
use crate::scheduler::drain_tr;
use crate::scheduler::fail_tr;
use crate::scheduler::insert_timer_s;
use crate::scheduler::lemma_drain_props;
use crate::scheduler::lemma_fresh_not_pending;
use crate::scheduler::lemma_fresh_not_pending_same_queues;
use crate::scheduler::lemma_remove_value_props;
use crate::scheduler::lemma_timer_pos;
use crate::scheduler::lemma_unqueued_state_not_pending;
use crate::scheduler::lemma_wf_create_deferred;
use crate::scheduler::lemma_wf_create_delayed;
use crate::scheduler::lemma_wf_create_immediate;
use crate::scheduler::lemma_wf_suspend_timed;
use crate::scheduler::lemma_wf_update_unpending;
use crate::scheduler::start_tr;
use crate::scheduler::suspend_timed_tr;
use crate::scheduler::timer_ids;
use crate::scheduler::timer_pos;
use crate::scheduler::wake_tr;

verus! {

// ---------------------------------------------------------------------------
// Ordering: spawn begins immediately and in call order; defer waits for
// the queue.
// ---------------------------------------------------------------------------

/// Ordering law.  After any sequence of `spawn` and `defer` calls made by
/// the running context before its first yield: every spawned context has
/// already begun (it is `Running` — each began during its own call, so in
/// call order), while every deferred context stands `Runnable` in the
/// resumption queue, behind everything queued before the sequence and in
/// call order among themselves.  Since `take_next` serves the queue
/// strictly in order, every spawned context begins before any context
/// deferred in the same pass.
pub proof fn lemma_spawn_defer_order(m: SchedModel, calls: Seq<SchedCall>)
    requires
        m.wf(),
        m.states.len() + calls.len() <= usize::MAX,
    ensures
        apply_calls(m, calls).wf(),
        apply_calls(m, calls).states.len() == m.states.len() + calls.len(),
        apply_calls(m, calls).ready == m.ready + defer_ids(m, calls),
        forall|i: int|
            0 <= i < m.states.len() ==> #[trigger] apply_calls(m, calls).states[i] == m.states[i],
        forall|k: int|
            0 <= k < calls.len() && calls[k] is Spawn
                ==> #[trigger] apply_calls(m, calls).states[m.states.len() + k] == TaskState::Running,
        forall|k: int|
            0 <= k < calls.len() && calls[k] is Defer
                ==> #[trigger] apply_calls(m, calls).states[m.states.len() + k] == TaskState::Runnable,
    decreases calls.len(),
{
    let r = apply_calls(m, calls);
    if calls.len() == 0 {
        assert(r.ready =~= m.ready + defer_ids(m, calls));
    } else {
        let id0 = m.states.len() as usize;
        let m1 = if calls[0] is Spawn {
            start_tr(create_immediate_tr(m), id0)
        } else {
            create_deferred_tr(m)
        };
        if calls[0] is Spawn {
            lemma_wf_create_immediate(m);
            lemma_fresh_not_pending_same_queues(m, create_immediate_tr(m), id0);
            lemma_wf_update_unpending(create_immediate_tr(m), id0, TaskState::Running);
            assert(m1.wf());
        } else {
            lemma_wf_create_deferred(m);
        }
        lemma_spawn_defer_order(m1, calls.drop_first());
        assert(r == apply_calls(m1, calls.drop_first()));
        assert(r.ready =~= m.ready + defer_ids(m, calls)) by {
            if calls[0] is Spawn {
                assert(m1.ready == m.ready);
                assert(defer_ids(m, calls) == defer_ids(m1, calls.drop_first()));
            } else {
                assert(m1.ready == m.ready.push(id0));
                assert(defer_ids(m, calls) == seq![id0] + defer_ids(m1, calls.drop_first()));
            }
        }
        assert forall|k: int| 0 <= k < calls.len() && calls[k] is Spawn
            implies #[trigger] r.states[m.states.len() + k] == TaskState::Running by {
            if k == 0 {
                assert(m1.states[id0 as int] == TaskState::Running);
                assert(r.states[id0 as int] == m1.states[id0 as int]);
            } else {
                assert(calls.drop_first()[k - 1] is Spawn);
                assert(r.states[m1.states.len() + (k - 1)] == TaskState::Running);
            }
        }
        assert forall|k: int| 0 <= k < calls.len() && calls[k] is Defer
            implies #[trigger] r.states[m.states.len() + k] == TaskState::Runnable by {
            if k == 0 {
                assert(m1.states[id0 as int] == TaskState::Runnable);
                assert(r.states[id0 as int] == m1.states[id0 as int]);
            } else {
                assert(calls.drop_first()[k - 1] is Defer);
                assert(r.states[m1.states.len() + (k - 1)] == TaskState::Runnable);
            }
        }
    }
}

/// Defer-vs-spawn law.  A running context calls `defer` (handing out
/// context `a`) and then `spawn` (context `b`): when control returns,
/// `b` has already begun — it ran to its first suspension during the
/// `spawn` call — while `a` still stands in the resumption queue and has
/// not begun.  So `b` runs to its first suspension before `a` starts.
pub proof fn lemma_defer_vs_spawn(m: SchedModel)
    requires
        m.wf(),
        m.states.len() + 2 <= usize::MAX,
    ensures
        ({
            let a = m.states.len() as usize;
            let m1 = create_deferred_tr(m);
            let b = m1.states.len() as usize;
            let m2 = start_tr(create_immediate_tr(m1), b);
            &&& m2.wf()
            &&& m2.state_of(b) == TaskState::Running
            &&& m2.state_of(a) == TaskState::Runnable
            &&& m2.ready == m.ready.push(a)
            &&& !m2.ready.contains(b)
        }),
{
    let a = m.states.len() as usize;
    let m1 = create_deferred_tr(m);
    let b = m1.states.len() as usize;
    let m2 = start_tr(create_immediate_tr(m1), b);
    lemma_wf_create_deferred(m);
    lemma_wf_create_immediate(m1);
    lemma_fresh_not_pending_same_queues(m1, create_immediate_tr(m1), b);
    lemma_wf_update_unpending(create_immediate_tr(m1), b, TaskState::Running);
    assert(m2.ready == m.ready.push(a));
    assert(!m2.ready.contains(b)) by {
        if m2.ready.contains(b) {
            let i = choose|i: int| 0 <= i < m2.ready.len() && m2.ready[i] == b;
            assert(m2.ready_entry_ok(i));
            assert(m2.state_of(b) == TaskState::Running);
        }
    }
}

// ---------------------------------------------------------------------------
// Delay monotonicity and wait accuracy.
// ---------------------------------------------------------------------------

/// In a well-formed model, draining at time `at` makes exactly the
/// contexts whose timer has elapsed runnable: the context of timer `i`
/// becomes `Runnable` iff its wake time is at or before `at`, and keeps
/// its state otherwise.
pub proof fn lemma_drain_fires_exactly(m: SchedModel, at: u64, i: int)
    requires
        m.wf(),
        0 <= i < m.timers.len(),
    ensures
        m.timers[i].wake <= at ==> drain_tr(m, at).state_of(m.timers[i].id) == TaskState::Runnable,
        m.timers[i].wake > at ==> drain_tr(m, at).state_of(m.timers[i].id) == m.state_of(m.timers[i].id),
{
    lemma_drain_props(m, at);
    lemma_timer_pos(m.timers, at);
    let pos = timer_pos(m.timers, at);
    let id = m.timers[i].id;
    let fired = timer_ids(m.timers).take(pos);
    assert(m.timer_entry_ok(i));
    if m.timers[i].wake <= at {
        assert(i < pos) by {
            if i >= pos {
                assert(m.timers[pos].wake > at);
                assert(m.timers[pos].wake <= m.timers[i].wake);
            }
        }
        assert(fired[i] == timer_ids(m.timers)[i]);
        assert(fired.contains(id));
    } else {
        assert(!fired.contains(id)) by {
            if fired.contains(id) {
                let k = choose|k: int| 0 <= k < fired.len() && fired[k] == id;
                assert(fired[k] == timer_ids(m.timers)[k]);
                assert(m.timers[k].id == id);
                assert(m.timers[k].wake <= at);
                assert(k != i);
            }
        }
    }
}

/// Inserting a timer keeps every timer that was already in the set.
pub proof fn lemma_insert_timer_contains(ts: Seq<Timer>, t: Timer, x: Timer)
    requires
        ts.contains(x),
    ensures
        insert_timer_s(ts, t).contains(x),
{
    lemma_timer_pos(ts, t.wake);
    let pos = timer_pos(ts, t.wake);
    ts.insert_ensures(pos, t);
    let k = choose|k: int| 0 <= k < ts.len() && ts[k] == x;
    if k < pos {
        assert(insert_timer_s(ts, t)[k] == x);
    } else {
        assert(insert_timer_s(ts, t)[k + 1] == x);
    }
}

/// The timer just inserted stands in the set.
pub proof fn lemma_insert_timer_there(ts: Seq<Timer>, t: Timer)
    ensures
        insert_timer_s(ts, t).contains(t),
{
    lemma_timer_pos(ts, t.wake);
    let pos = timer_pos(ts, t.wake);
    ts.insert_ensures(pos, t);
    assert(insert_timer_s(ts, t)[pos] == t);
}

/// Delay monotonicity law.  Two contexts are registered at the same
/// instant, `a` with delay `t1` and `b` with delay `t2`, `t1 < t2`.
/// After any drain: whenever `b` has become runnable, `a` has too (`a`
/// becomes runnable no later than `b`), and neither is runnable before
/// its own requested time has elapsed.
pub proof fn lemma_delay_monotonic(m: SchedModel, now: u64, t1: i64, t2: i64, at: u64)
    requires
        m.wf(),
        m.states.len() + 2 <= usize::MAX,
        t1 < t2,
        now + clamp_secs(t2) <= u64::MAX,
    ensures
        ({
            let a = m.states.len() as usize;
            let m1 = create_delayed_tr(m, now, t1);
            let b = m1.states.len() as usize;
            let m2 = create_delayed_tr(m1, now, t2);
            let d = drain_tr(m2, at);
            &&& (d.state_of(b) == TaskState::Runnable ==> d.state_of(a) == TaskState::Runnable)
            &&& (at < now + clamp_secs(t1) ==> d.state_of(a) == TaskState::Suspended)
            &&& (at < now + clamp_secs(t2) ==> d.state_of(b) == TaskState::Suspended)
        }),
{
    let a = m.states.len() as usize;
    let m1 = create_delayed_tr(m, now, t1);
    let b = m1.states.len() as usize;
    let m2 = create_delayed_tr(m1, now, t2);
    let d = drain_tr(m2, at);
    let ta = Timer { wake: (now + clamp_secs(t1)) as u64, id: a, started: now };
    let tb = Timer { wake: (now + clamp_secs(t2)) as u64, id: b, started: now };
    lemma_wf_create_delayed(m, now, t1);
    lemma_wf_create_delayed(m1, now, t2);
    lemma_insert_timer_there(m.timers, ta);
    lemma_insert_timer_contains(m1.timers, tb, ta);
    lemma_insert_timer_there(m1.timers, tb);
    let ia = choose|k: int| 0 <= k < m2.timers.len() && m2.timers[k] == ta;
    let ib = choose|k: int| 0 <= k < m2.timers.len() && m2.timers[k] == tb;
    assert(m2.state_of(a) == TaskState::Suspended);
    assert(m2.state_of(b) == TaskState::Suspended) by {
        assert(b as int == m1.states.len());
    }
    lemma_drain_fires_exactly(m2, at, ia);
    lemma_drain_fires_exactly(m2, at, ib);
    lemma_drain_props(m2, at);
    if d.state_of(b) == TaskState::Runnable {
        assert(tb.wake <= at) by {
            if tb.wake > at {
                assert(d.state_of(b) == m2.state_of(b));
            }
        }
        assert(ta.wake <= tb.wake);
        assert(d.state_of(a) == TaskState::Runnable);
    }
    if at < now + clamp_secs(t1) {
        assert(ta.wake > at);
        assert(d.state_of(a) == TaskState::Suspended);
    }
    if at < now + clamp_secs(t2) {
        assert(tb.wake > at);
        assert(d.state_of(b) == TaskState::Suspended);
    }
}

/// Wait accuracy law, timing half: once the wake time of a timed wait
/// has elapsed, the elapsed time reported on resumption (`at` minus the
/// registration instant) is at least the requested duration, for every
/// requested duration, zero and negative ones included.
pub proof fn lemma_wait_accuracy(started: u64, secs: i64, at: u64)
    requires
        started + clamp_secs(secs) <= u64::MAX,
        at >= started + clamp_secs(secs),
    ensures
        at - started >= clamp_secs(secs),
        at - started >= secs,
{
}

/// Wait accuracy law, resolution half: `wait(0)` and `wait` with a
/// negative duration register a timer that wakes immediately, so the
/// very next drain (any drain at or after the registration instant)
/// makes the context runnable — the next scheduling pass, never an
/// error.
pub proof fn lemma_wait_asap(m: SchedModel, id: usize, now: u64, secs: i64, at: u64)
    requires
        m.wf(),
        m.valid_id(id),
        m.state_of(id) == TaskState::Running,
        secs <= 0,
        at >= now,
    ensures
        drain_tr(suspend_timed_tr(m, id, now, secs), at).state_of(id) == TaskState::Runnable,
{
    let m2 = suspend_timed_tr(m, id, now, secs);
    let t = Timer { wake: (now + clamp_secs(secs)) as u64, id, started: now };
    lemma_unqueued_state_not_pending(m, id);
    lemma_wf_suspend_timed(m, id, now, secs);
    lemma_insert_timer_there(m.timers, t);
    let i = choose|k: int| 0 <= k < m2.timers.len() && m2.timers[k] == t;
    lemma_drain_fires_exactly(m2, at, i);
    assert(t.wake == now);
}

// ---------------------------------------------------------------------------
// Cancellation and wait-resolution idempotence.
// ---------------------------------------------------------------------------

/// Cancellation idempotence law: cancelling the same handle twice has
/// exactly the same effect on the scheduler as cancelling it once.
pub proof fn lemma_cancel_idempotent(m: SchedModel, id: usize)
    ensures
        cancel_tr(cancel_tr(m, id), id) == cancel_tr(m, id),
{
    let m1 = cancel_tr(m, id);
    if m.valid_id(id) && !m.state_of(id).is_terminal() && m.state_of(id) != TaskState::Running {
        assert(m1.state_of(id) == TaskState::Cancelled);
    }
}

/// Cancelling a terminal context — completed, failed or already
/// cancelled — is a no-op, not an error.
pub proof fn lemma_cancel_terminal_noop(m: SchedModel, id: usize)
    requires
        m.valid_id(id),
        m.state_of(id).is_terminal(),
    ensures
        cancel_tr(m, id) == m,
{
}

/// Resolving a wait registration is idempotent: a second resolution of
/// the same registration is a no-op, not an error.
pub proof fn lemma_wake_idempotent(m: SchedModel, id: usize)
    requires
        m.wf(),
    ensures
        wake_tr(wake_tr(m, id), id) == wake_tr(m, id),
{
    if m.indefinite.contains(id) {
        lemma_remove_value_props(m.indefinite, id);
        assert(!wake_tr(m, id).indefinite.contains(id));
    }
}

/// Cancellation releases resources at once: a context registered with
/// `delay` and cancelled before its wake time leaves no timer behind, so
/// with no other pending work the scheduler is quiescent immediately —
/// nothing idles out the remaining delay.
pub proof fn lemma_cancel_delayed_quiescent(m: SchedModel, now: u64, secs: i64)
    requires
        m.wf(),
        m.quiescent(),
        m.states.len() < usize::MAX,
        now + clamp_secs(secs) <= u64::MAX,
    ensures
        ({
            let a = m.states.len() as usize;
            let m2 = cancel_tr(create_delayed_tr(m, now, secs), a);
            &&& m2.quiescent()
            &&& m2.state_of(a) == TaskState::Cancelled
        }),
{
    let a = m.states.len() as usize;
    let m1 = create_delayed_tr(m, now, secs);
    lemma_wf_create_delayed(m, now, secs);
    let m2 = cancel_tr(m1, a);
    crate::scheduler::lemma_wf_cancel(m1, a);
    assert(m1.ready.len() == 0);
    assert(m1.indefinite.len() == 0);
    m1.ready.index_of_first_ensures(a);
    m1.indefinite.index_of_first_ensures(a);
    crate::scheduler::lemma_remove_timer_props(m1.timers, a);
    assert(m2.timers.len() == 0) by {
        if m2.timers.len() > 0 {
            assert(m1.timers.contains(m2.timers[0]));
            let k = choose|k: int| 0 <= k < m1.timers.len() && m1.timers[k] == m2.timers[0];
            assert(m1.timers.len() == 1);
            assert(m1.timers[0].id == a) by {
                lemma_timer_pos(m.timers, (now + clamp_secs(secs)) as u64);
                m.timers.insert_ensures(
                    timer_pos(m.timers, (now + clamp_secs(secs)) as u64),
                    Timer { wake: (now + clamp_secs(secs)) as u64, id: a, started: now },
                );
            }
            assert(m2.timers[0].id != a);
        }
    }
    assert(m2.ready.len() == 0);
    assert(m2.indefinite.len() == 0);
    assert(m1.state_of(a) == TaskState::Suspended);
}

// ---------------------------------------------------------------------------
// Failure isolation.
// ---------------------------------------------------------------------------

/// Isolation law: a context that raises an error changes nothing but its
/// own state.  The resumption queue, the timer set, the wait
/// registrations and every sibling's state are untouched, so the
/// siblings still run, and the event loop reaches quiescence exactly as
/// it would have.
pub proof fn lemma_failure_isolation(m: SchedModel, id: usize)
    requires
        m.wf(),
        m.valid_id(id),
        m.state_of(id) == TaskState::Running,
    ensures
        fail_tr(m, id).wf(),
        fail_tr(m, id).ready == m.ready,
        fail_tr(m, id).timers == m.timers,
        fail_tr(m, id).indefinite == m.indefinite,
        forall|j: usize|
            m.valid_id(j) && j != id ==> #[trigger] fail_tr(m, id).state_of(j) == m.state_of(j),
        fail_tr(m, id).quiescent() == m.quiescent(),
        fail_tr(m, id).idle() == m.idle(),
{
    lemma_unqueued_state_not_pending(m, id);
    lemma_wf_update_unpending(m, id, TaskState::Failed);
}

} // verus!
