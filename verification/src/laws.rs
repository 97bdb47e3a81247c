//! The guarantees the dispatcher gives across whole runs: FIFO order per
//! user, round-robin fairness across users, at most one task in flight,
//! conservation of the counters, and no lost wake.
//!
//! A run is modelled as a start state plus a sequence of observable steps
//! (`DispatchOp`); the proofs quantify over all of them.

use vstd::prelude::*;
use crate::dispatcher::{SchedModel, UserModel, TaskEnd, Task, spec_enqueue, spec_pick,
    spec_record, queue_of, processed_of, dropped_of, find_user, insert_position, active_idxs,
    active_users, users_sorted, counts_as_processed, lemma_find_user, lemma_find_user_at,
    lemma_insert_position, lemma_sorted_insert, lemma_sorted_update, lemma_active_idxs,
    lemma_active_idxs_same};
use crate::strings::{lex_lt, lemma_lex_irreflexive};

verus! {

// ---------------------------------------------------------------------------
// How each operation changes what one user sees
// ---------------------------------------------------------------------------

/// A sorted user list holds each id once.
pub proof fn lemma_sorted_unique(users: Seq<UserModel>)
    requires
        users_sorted(users),
    ensures
        forall|i: int, j: int| 0 <= i < j < users.len() ==> users[i].user != users[j].user,
{
    assert forall|i: int, j: int| 0 <= i < j < users.len() implies users[i].user
        != users[j].user by {
        if users[i].user == users[j].user {
            assert(lex_lt(users[i].user, users[j].user));
            lemma_lex_irreflexive(users[i].user);
        }
    }
}

/// `find_user` sees only the id fields.
pub proof fn lemma_find_user_pointwise(a: Seq<UserModel>, b: Seq<UserModel>, u: Seq<char>)
    requires
        a.len() == b.len(),
        forall|i: int| 0 <= i < a.len() ==> a[i].user == b[i].user,
    ensures
        find_user(a, u) == find_user(b, u),
    decreases a.len(),
{
    if a.len() > 0 && a[0].user != u {
        lemma_find_user_pointwise(a.skip(1), b.skip(1), u);
        assert(forall|i: int| 0 <= i < a.len() - 1 ==> a.skip(1)[i] == a[i + 1]);
        assert(forall|i: int| 0 <= i < b.len() - 1 ==> b.skip(1)[i] == b[i + 1]);
    }
}

/// Inserting an entry for another id leaves what `find_user` points at
/// unchanged.
pub proof fn lemma_find_user_insert_other(
    users: Seq<UserModel>,
    p: int,
    slot: UserModel,
    u: Seq<char>,
)
    requires
        0 <= p <= users.len(),
        slot.user != u,
    ensures
        find_user(users.insert(p, slot), u) == -1 <==> find_user(users, u) == -1,
        find_user(users, u) >= 0 ==> users.insert(p, slot)[find_user(users.insert(p, slot), u)]
            == users[find_user(users, u)],
    decreases users.len(),
{
    let w = users.insert(p, slot);
    lemma_find_user(users, u);
    lemma_find_user(w, u);
    if p == 0 {
        assert(w[0] == slot);
        assert(w.skip(1) =~= users);
        let f = find_user(users, u);
        assert(find_user(w, u) == (if f == -1 {
            -1
        } else {
            f + 1
        }));
        if f >= 0 {
            assert(w[f + 1] == w.skip(1)[f]);
        }
    } else {
        assert(w[0] == users[0]);
        if users[0].user == u {
            assert(find_user(users, u) == 0);
            assert(find_user(w, u) == 0);
        } else {
            lemma_find_user_insert_other(users.skip(1), p - 1, slot, u);
            assert(w.skip(1) =~= users.skip(1).insert(p - 1, slot));
            lemma_find_user(users.skip(1), u);
            lemma_find_user(w.skip(1), u);
            let fs = find_user(users.skip(1), u);
            let ws = find_user(w.skip(1), u);
            assert(find_user(users, u) == (if fs == -1 {
                -1
            } else {
                fs + 1
            }));
            assert(find_user(w, u) == (if ws == -1 {
                -1
            } else {
                ws + 1
            }));
            if fs >= 0 {
                assert(w.skip(1)[ws] == users.skip(1)[fs]);
                assert(w[ws + 1] == w.skip(1)[ws]);
                assert(users[fs + 1] == users.skip(1)[fs]);
            }
        }
    }
}

/// What `enqueue` does, user by user: `v`'s queue grows by `t` at the back,
/// every other queue and all counters stay, and the wake flag rises.
pub proof fn lemma_enqueue_effect(m: SchedModel, v: Seq<char>, t: Task)
    requires
        users_sorted(m.users),
    ensures
        users_sorted(spec_enqueue(m, v, t).users),
        queue_of(spec_enqueue(m, v, t), v) == queue_of(m, v).push(t),
        forall|u: Seq<char>| u != v ==> queue_of(spec_enqueue(m, v, t), u) == queue_of(m, u),
        forall|u: Seq<char>| processed_of(spec_enqueue(m, v, t), u) == processed_of(m, u),
        forall|u: Seq<char>| dropped_of(spec_enqueue(m, v, t), u) == dropped_of(m, u),
        spec_enqueue(m, v, t).wake,
        spec_enqueue(m, v, t).cursor == m.cursor,
{
    let m2 = spec_enqueue(m, v, t);
    let f = find_user(m.users, v);
    lemma_find_user(m.users, v);
    lemma_sorted_unique(m.users);
    if f >= 0 {
        let e2 = UserModel { queue: m.users[f].queue.push(t), ..m.users[f] };
        lemma_sorted_update(m.users, f, e2);
        lemma_find_user_pointwise(m2.users, m.users, v);
        assert(queue_of(m2, v) == queue_of(m, v).push(t));
        assert forall|u: Seq<char>| u != v implies queue_of(m2, u) == queue_of(m, u) by {
            lemma_find_user_pointwise(m2.users, m.users, u);
            lemma_find_user(m.users, u);
        }
        assert forall|u: Seq<char>| processed_of(m2, u) == processed_of(m, u) && dropped_of(
            m2,
            u,
        ) == dropped_of(m, u) by {
            lemma_find_user_pointwise(m2.users, m.users, u);
            lemma_find_user(m.users, u);
        }
    } else {
        let p = insert_position(m.users, v);
        let slot = UserModel { user: v, queue: seq![t], processed: 0, dropped: 0 };
        lemma_insert_position(m.users, v);
        lemma_sorted_insert(m.users, v, slot);
        assert(m2.users == m.users.insert(p, slot));
        assert(m2.users[p] == slot);
        assert forall|j: int| 0 <= j < p implies m2.users[j].user != v by {
            assert(m2.users[j] == m.users[j]);
        }
        lemma_find_user_at(m2.users, v, p);
        assert(queue_of(m, v) =~= Seq::<Task>::empty());
        assert(queue_of(m2, v) =~= queue_of(m, v).push(t));
        assert forall|u: Seq<char>| u != v implies queue_of(m2, u) == queue_of(m, u) by {
            lemma_find_user_insert_other(m.users, p, slot, u);
            lemma_find_user(m.users, u);
            lemma_find_user(m2.users, u);
        }
        assert forall|u: Seq<char>| processed_of(m2, u) == processed_of(m, u) && dropped_of(
            m2,
            u,
        ) == dropped_of(m, u) by {
            if u == v {
                assert(processed_of(m2, u) == 0);
                assert(dropped_of(m2, u) == 0);
            } else {
                lemma_find_user_insert_other(m.users, p, slot, u);
                lemma_find_user(m.users, u);
                lemma_find_user(m2.users, u);
            }
        }
    }
}

/// What recording an ending does, user by user: one counter of `v` grows by
/// one, everything else stays.
pub proof fn lemma_record_effect(m: SchedModel, v: Seq<char>, success: bool)
    requires
        users_sorted(m.users),
    ensures
        users_sorted(spec_record(m, v, success).users),
        processed_of(spec_record(m, v, success), v) == processed_of(m, v) + (if success {
            1nat
        } else {
            0nat
        }),
        dropped_of(spec_record(m, v, success), v) == dropped_of(m, v) + (if success {
            0nat
        } else {
            1nat
        }),
        forall|u: Seq<char>| u != v ==> processed_of(spec_record(m, v, success), u)
            == processed_of(m, u),
        forall|u: Seq<char>| u != v ==> dropped_of(spec_record(m, v, success), u) == dropped_of(
            m,
            u,
        ),
        forall|u: Seq<char>| queue_of(spec_record(m, v, success), u) == queue_of(m, u),
        spec_record(m, v, success).wake == m.wake,
        spec_record(m, v, success).cursor == m.cursor,
{
    let m2 = spec_record(m, v, success);
    let f = find_user(m.users, v);
    lemma_find_user(m.users, v);
    lemma_sorted_unique(m.users);
    if f >= 0 {
        let e = m.users[f];
        let e2 = if success {
            UserModel { processed: e.processed + 1, ..e }
        } else {
            UserModel { dropped: e.dropped + 1, ..e }
        };
        lemma_sorted_update(m.users, f, e2);
        lemma_find_user_pointwise(m2.users, m.users, v);
        assert forall|u: Seq<char>| u != v implies (processed_of(m2, u) == processed_of(m, u)
            && dropped_of(m2, u) == dropped_of(m, u) && queue_of(m2, u) == queue_of(m, u)) by {
            lemma_find_user_pointwise(m2.users, m.users, u);
            lemma_find_user(m.users, u);
        }
        assert(queue_of(m2, v) == queue_of(m, v));
    } else {
        let p = insert_position(m.users, v);
        let slot = UserModel {
            user: v,
            queue: Seq::empty(),
            processed: if success {
                1nat
            } else {
                0nat
            },
            dropped: if success {
                0nat
            } else {
                1nat
            },
        };
        lemma_insert_position(m.users, v);
        lemma_sorted_insert(m.users, v, slot);
        assert(m2.users == m.users.insert(p, slot));
        assert(m2.users[p] == slot);
        assert forall|j: int| 0 <= j < p implies m2.users[j].user != v by {
            assert(m2.users[j] == m.users[j]);
        }
        lemma_find_user_at(m2.users, v, p);
        assert(queue_of(m2, v) =~= queue_of(m, v));
        assert forall|u: Seq<char>| u != v implies (processed_of(m2, u) == processed_of(m, u)
            && dropped_of(m2, u) == dropped_of(m, u) && queue_of(m2, u) == queue_of(m, u)) by {
            lemma_find_user_insert_other(m.users, p, slot, u);
            lemma_find_user(m.users, u);
            lemma_find_user(m2.users, u);
        }
    }
}

/// What one pick does: the user at the cursor position of the active list
/// is chosen, the head of exactly that user's queue comes off, and the
/// cursor moves one step.
pub proof fn lemma_pick_effect(m: SchedModel)
    requires
        users_sorted(m.users),
        active_idxs(m.users).len() > 0,
    ensures
        spec_pick(m) matches Some(pick) && {
            let acts = active_idxs(m.users);
            let c = if m.cursor < acts.len() {
                m.cursor as int
            } else {
                0
            };
            let m2 = pick.2;
            &&& pick.0 == active_users(m.users)[c]
            &&& users_sorted(m2.users)
            &&& queue_of(m, pick.0).len() > 0
            &&& pick.1 == queue_of(m, pick.0)[0]
            &&& queue_of(m2, pick.0) == queue_of(m, pick.0).drop_first()
            &&& (forall|u: Seq<char>| u != pick.0 ==> queue_of(m2, u) == queue_of(m, u))
            &&& (forall|u: Seq<char>| processed_of(m2, u) == processed_of(m, u))
            &&& (forall|u: Seq<char>| dropped_of(m2, u) == dropped_of(m, u))
            &&& m2.wake == m.wake
            &&& m2.cursor == c + 1
            &&& m2.users.len() == m.users.len()
            &&& (forall|i: int|
                0 <= i < m.users.len() ==> (#[trigger] m2.users[i]).user == m.users[i].user)
            &&& m2.users[acts[c]].queue.len() == m.users[acts[c]].queue.len() - 1
            &&& (forall|i: int|
                0 <= i < m.users.len() && i != acts[c] ==> #[trigger] m2.users[i] == m.users[i])
        },
{
    let acts = active_idxs(m.users);
    let c = if m.cursor < acts.len() {
        m.cursor as int
    } else {
        0
    };
    lemma_active_idxs(m.users);
    let idx = acts[c];
    let e = m.users[idx];
    lemma_sorted_unique(m.users);
    assert forall|j: int| 0 <= j < idx implies m.users[j].user != e.user by {
        assert(m.users[j].user != m.users[idx].user);
    }
    lemma_find_user_at(m.users, e.user, idx);
    let pick = spec_pick(m).unwrap();
    let m2 = pick.2;
    let e2 = UserModel { queue: e.queue.drop_first(), ..e };
    lemma_sorted_update(m.users, idx, e2);
    lemma_find_user_pointwise(m2.users, m.users, e.user);
    assert(queue_of(m2, pick.0) == queue_of(m, pick.0).drop_first());
    assert forall|u: Seq<char>| u != pick.0 implies queue_of(m2, u) == queue_of(m, u) by {
        lemma_find_user_pointwise(m2.users, m.users, u);
        lemma_find_user(m.users, u);
    }
    assert forall|u: Seq<char>| processed_of(m2, u) == processed_of(m, u) && dropped_of(m2, u)
        == dropped_of(m, u) by {
        lemma_find_user_pointwise(m2.users, m.users, u);
        lemma_find_user(m.users, u);
    }
}

// ---------------------------------------------------------------------------
// Runs of the dispatcher
// ---------------------------------------------------------------------------

/// What the single worker is doing: nothing, or exactly one dequeued task
/// whose ending has not been recorded yet.
pub enum WorkerPhase {
    Idle,
    Busy { user: Seq<char>, task: Task },
}

/// One observable step of the dispatcher: an ingress enqueue, the worker
/// dequeuing (only when idle), or the worker recording how its current task
/// ended.
pub enum DispatchOp {
    Enqueue { user: Seq<char>, task: Task },
    Pick,
    Finish { end: TaskEnd },
}

/// The dispatcher state together with the worker's phase.
#[verifier::ext_equal]
pub struct DispatchState {
    pub sched: SchedModel,
    pub phase: WorkerPhase,
}

/// How many tasks sit between "dequeued by the worker" and "ending
/// recorded".
pub open spec fn in_flight(s: DispatchState) -> nat {
    match s.phase {
        WorkerPhase::Idle => 0,
        WorkerPhase::Busy { .. } => 1,
    }
}

/// One step of a run. A busy worker picks nothing further, and an idle
/// worker has nothing to finish; such steps change nothing.
pub open spec fn dispatch_step(s: DispatchState, op: DispatchOp) -> DispatchState {
    match op {
        DispatchOp::Enqueue { user, task } => DispatchState {
            sched: spec_enqueue(s.sched, user, task),
            ..s
        },
        DispatchOp::Pick => match s.phase {
            WorkerPhase::Idle => match spec_pick(s.sched) {
                Some(pick) => DispatchState {
                    sched: pick.2,
                    phase: WorkerPhase::Busy { user: pick.0, task: pick.1 },
                },
                None => s,
            },
            WorkerPhase::Busy { .. } => s,
        },
        DispatchOp::Finish { end } => match s.phase {
            WorkerPhase::Busy { user, .. } => DispatchState {
                sched: spec_record(s.sched, user, counts_as_processed(end)),
                phase: WorkerPhase::Idle,
            },
            WorkerPhase::Idle => s,
        },
    }
}

/// A whole run: the steps applied in order.
pub open spec fn dispatch_run(s: DispatchState, ops: Seq<DispatchOp>) -> DispatchState
    decreases ops.len(),
{
    if ops.len() == 0 {
        s
    } else {
        dispatch_run(dispatch_step(s, ops[0]), ops.skip(1))
    }
}

/// The tasks a run enqueues for `u`, in order.
pub open spec fn enqueued_for(ops: Seq<DispatchOp>, u: Seq<char>) -> Seq<Task>
    decreases ops.len(),
{
    if ops.len() == 0 {
        Seq::empty()
    } else {
        let rest = enqueued_for(ops.skip(1), u);
        match ops[0] {
            DispatchOp::Enqueue { user, task } => if user == u {
                seq![task] + rest
            } else {
                rest
            },
            _ => rest,
        }
    }
}

/// The tasks a run hands the worker for `u`, in order.
pub open spec fn picked_for(s: DispatchState, ops: Seq<DispatchOp>, u: Seq<char>) -> Seq<Task>
    decreases ops.len(),
{
    if ops.len() == 0 {
        Seq::empty()
    } else {
        let rest = picked_for(dispatch_step(s, ops[0]), ops.skip(1), u);
        match ops[0] {
            DispatchOp::Pick => match s.phase {
                WorkerPhase::Idle => match spec_pick(s.sched) {
                    Some(pick) => if pick.0 == u {
                        seq![pick.1] + rest
                    } else {
                        rest
                    },
                    None => rest,
                },
                WorkerPhase::Busy { .. } => rest,
            },
            _ => rest,
        }
    }
}

/// How many endings a run records for `u`.
pub open spec fn finishes_for(s: DispatchState, ops: Seq<DispatchOp>, u: Seq<char>) -> nat
    decreases ops.len(),
{
    if ops.len() == 0 {
        0
    } else {
        let rest = finishes_for(dispatch_step(s, ops[0]), ops.skip(1), u);
        match ops[0] {
            DispatchOp::Finish { .. } => match s.phase {
                WorkerPhase::Busy { user, .. } => if user == u {
                    1 + rest
                } else {
                    rest
                },
                WorkerPhase::Idle => rest,
            },
            _ => rest,
        }
    }
}

/// Every step keeps the user list sorted.
pub proof fn lemma_step_sorted(s: DispatchState, op: DispatchOp)
    requires
        users_sorted(s.sched.users),
    ensures
        users_sorted(dispatch_step(s, op).sched.users),
{
    match op {
        DispatchOp::Enqueue { user, task } => {
            lemma_enqueue_effect(s.sched, user, task);
        },
        DispatchOp::Pick => {
            if s.phase is Idle && spec_pick(s.sched) is Some {
                assert(active_idxs(s.sched.users).len() > 0);
                lemma_pick_effect(s.sched);
            }
        },
        DispatchOp::Finish { end } => {
            match s.phase {
                WorkerPhase::Busy { user, .. } => {
                    lemma_record_effect(s.sched, user, counts_as_processed(end));
                },
                WorkerPhase::Idle => {},
            }
        },
    }
}

/// FIFO per user: over any run, what the worker was handed for `u`,
/// followed by what still waits for `u`, is exactly `u`'s initial queue
/// followed by `u`'s enqueues, in order. In particular, of two tasks
/// enqueued for the same user, the earlier one is always picked first.
pub proof fn lemma_fifo_per_user(s: DispatchState, ops: Seq<DispatchOp>, u: Seq<char>)
    requires
        users_sorted(s.sched.users),
    ensures
        picked_for(s, ops, u) + queue_of(dispatch_run(s, ops).sched, u) == queue_of(s.sched, u)
            + enqueued_for(ops, u),
    decreases ops.len(),
{
    let q = queue_of(s.sched, u);
    let run = dispatch_run(s, ops);
    if ops.len() == 0 {
        assert(picked_for(s, ops, u) + q =~= q + enqueued_for(ops, u));
    } else {
        let op = ops[0];
        let s2 = dispatch_step(s, op);
        lemma_step_sorted(s, op);
        lemma_fifo_per_user(s2, ops.skip(1), u);
        let picked2 = picked_for(s2, ops.skip(1), u);
        let enq2 = enqueued_for(ops.skip(1), u);
        let qrun = queue_of(run.sched, u);
        assert(dispatch_run(s, ops) == dispatch_run(s2, ops.skip(1)));
        match op {
            DispatchOp::Enqueue { user, task } => {
                lemma_enqueue_effect(s.sched, user, task);
                assert(picked_for(s, ops, u) == picked2);
                if user == u {
                    assert(queue_of(s2.sched, u) == q.push(task));
                    assert(enqueued_for(ops, u) == seq![task] + enq2);
                    assert(q.push(task) + enq2 =~= q + (seq![task] + enq2));
                } else {
                    assert(queue_of(s2.sched, u) == q);
                    assert(enqueued_for(ops, u) == enq2);
                }
            },
            DispatchOp::Pick => {
                assert(enqueued_for(ops, u) == enq2);
                if s.phase is Idle && spec_pick(s.sched) is Some {
                    assert(active_idxs(s.sched.users).len() > 0);
                    lemma_pick_effect(s.sched);
                    let pick = spec_pick(s.sched).unwrap();
                    if pick.0 == u {
                        assert(picked_for(s, ops, u) == seq![pick.1] + picked2);
                        assert(queue_of(s2.sched, u) == q.drop_first());
                        assert(pick.1 == q[0]);
                        assert((seq![pick.1] + picked2) + qrun =~= seq![pick.1] + (picked2
                            + qrun));
                        assert(seq![q[0]] + (q.drop_first() + enq2) =~= (seq![q[0]]
                            + q.drop_first()) + enq2);
                        assert(seq![q[0]] + q.drop_first() =~= q);
                    } else {
                        assert(picked_for(s, ops, u) == picked2);
                        assert(queue_of(s2.sched, u) == q);
                    }
                } else {
                    assert(picked_for(s, ops, u) == picked2);
                    assert(s2 == s);
                }
            },
            DispatchOp::Finish { end } => {
                assert(picked_for(s, ops, u) == picked2);
                assert(enqueued_for(ops, u) == enq2);
                match s.phase {
                    WorkerPhase::Busy { user, .. } => {
                        lemma_record_effect(s.sched, user, counts_as_processed(end));
                        assert(queue_of(s2.sched, u) == q);
                    },
                    WorkerPhase::Idle => {
                        assert(s2 == s);
                    },
                }
            },
        }
    }
}

/// At most one in flight: over any run, never more than one task sits
/// between "dequeued by the worker" and "ending recorded" — the worker
/// dequeues only while idle and becomes idle only by recording an ending.
pub proof fn lemma_at_most_one_in_flight(s: DispatchState, ops: Seq<DispatchOp>)
    ensures
        in_flight(dispatch_run(s, ops)) <= 1,
{
}

/// Count conservation: over any run, `processed + dropped` for `u` grows by
/// exactly the number of endings recorded for `u`'s tasks.
pub proof fn lemma_count_conservation(s: DispatchState, ops: Seq<DispatchOp>, u: Seq<char>)
    requires
        users_sorted(s.sched.users),
    ensures
        processed_of(dispatch_run(s, ops).sched, u) + dropped_of(dispatch_run(s, ops).sched, u)
            == processed_of(s.sched, u) + dropped_of(s.sched, u) + finishes_for(s, ops, u),
    decreases ops.len(),
{
    if ops.len() > 0 {
        let op = ops[0];
        let s2 = dispatch_step(s, op);
        lemma_step_sorted(s, op);
        lemma_count_conservation(s2, ops.skip(1), u);
        match op {
            DispatchOp::Enqueue { user, task } => {
                lemma_enqueue_effect(s.sched, user, task);
            },
            DispatchOp::Pick => {
                if s.phase is Idle && spec_pick(s.sched) is Some {
                    assert(active_idxs(s.sched.users).len() > 0);
                    lemma_pick_effect(s.sched);
                }
            },
            DispatchOp::Finish { end } => {
                match s.phase {
                    WorkerPhase::Busy { user, .. } => {
                        lemma_record_effect(s.sched, user, counts_as_processed(end));
                    },
                    WorkerPhase::Idle => {},
                }
            },
        }
    }
}

/// A pick comes back empty exactly when no queue holds a task.
pub proof fn lemma_pick_none_iff_all_empty(m: SchedModel)
    ensures
        (spec_pick(m) is None) <==> (forall|i: int|
            0 <= i < m.users.len() ==> (#[trigger] m.users[i]).queue.len() == 0),
{
    lemma_active_idxs(m.users);
    if spec_pick(m) is None {
        assert forall|i: int| 0 <= i < m.users.len() implies (#[trigger] m.users[i]).queue.len()
            == 0 by {
            if m.users[i].queue.len() > 0 {
                assert(active_idxs(m.users).contains(i));
                let k = choose|k: int|
                    0 <= k < active_idxs(m.users).len() && active_idxs(m.users)[k] == i;
            }
        }
    } else {
        let acts = active_idxs(m.users);
        assert(acts.len() > 0);
        assert(m.users[acts[0]].queue.len() > 0);
    }
}

// ---------------------------------------------------------------------------
// Round-robin fairness
// ---------------------------------------------------------------------------

/// An index into a list of length `k`, advanced by less than `k`: wraps at
/// most once.
pub open spec fn wrap_index(x: int, k: int) -> int {
    if x < k {
        x
    } else {
        x - k
    }
}

/// The users served by the next `n` picks, in order.
pub open spec fn picks_users(m: SchedModel, n: nat) -> Seq<Seq<char>>
    decreases n,
{
    if n == 0 {
        Seq::empty()
    } else {
        match spec_pick(m) {
            Some(pick) => seq![pick.0] + picks_users(pick.2, (n - 1) as nat),
            None => Seq::empty(),
        }
    }
}

/// The first `n` picks walk the active list in order from the cursor, as
/// long as every queue they touch keeps its user active (length at least
/// two at the start of the window).
proof fn lemma_rr_window_aux(m: SchedModel, n: nat)
    requires
        users_sorted(m.users),
        active_idxs(m.users).len() > 0,
        n <= active_idxs(m.users).len(),
        ({
            let acts = active_idxs(m.users);
            let k = acts.len() as int;
            let c0 = if m.cursor < acts.len() {
                m.cursor as int
            } else {
                0
            };
            forall|p: int|
                0 <= p < k && wrap_index(p - c0 + k, k) < n ==> m.users[#[trigger] acts[p]]
                    .queue.len() >= 2
        }),
    ensures
        picks_users(m, n).len() == n,
        ({
            let acts = active_idxs(m.users);
            let k = acts.len() as int;
            let c0 = if m.cursor < acts.len() {
                m.cursor as int
            } else {
                0
            };
            forall|i: int|
                0 <= i < n ==> picks_users(m, n)[i] == active_users(m.users)[wrap_index(
                    c0 + i,
                    k,
                )]
        }),
    decreases n,
{
    if n > 0 {
        let acts = active_idxs(m.users);
        let k = acts.len() as int;
        let c0 = if m.cursor < acts.len() {
            m.cursor as int
        } else {
            0
        };
        lemma_active_idxs(m.users);
        lemma_pick_effect(m);
        let pick = spec_pick(m).unwrap();
        let m2 = pick.2;
        assert(wrap_index(c0 - c0 + k, k) == 0);
        assert(m.users[acts[c0]].queue.len() >= 2);
        assert(m2.users[acts[c0]].queue.len() >= 1);
        assert forall|i: int|
            0 <= i < m.users.len() implies ((m.users[i].queue.len() > 0) == (m2.users[i]
            .queue.len() > 0)) by {
            if i != acts[c0] {
                assert(m2.users[i] == m.users[i]);
            }
        }
        lemma_active_idxs_same(m.users, m2.users);
        assert(active_idxs(m2.users) == acts);
        assert(active_users(m2.users) =~= active_users(m.users));
        let c1 = if m2.cursor < acts.len() {
            m2.cursor as int
        } else {
            0
        };
        assert(m2.cursor == c0 + 1);
        assert(c1 == wrap_index(c0 + 1, k));
        assert forall|p: int|
            0 <= p < k && wrap_index(p - c1 + k, k) < n - 1 implies m2.users[#[trigger] acts[p]]
            .queue.len() >= 2 by {
            if p == c0 {
                assert(wrap_index(p - c1 + k, k) == k - 1);
                assert(false);
            }
            assert(wrap_index(p - c0 + k, k) == wrap_index(p - c1 + k, k) + 1);
            assert(m.users[acts[p]].queue.len() >= 2);
            if p < c0 {
                assert(acts[p] < acts[c0]);
            } else {
                assert(acts[c0] < acts[p]);
            }
            assert(m2.users[acts[p]] == m.users[acts[p]]);
        }
        lemma_rr_window_aux(m2, (n - 1) as nat);
        assert(picks_users(m, n) == seq![pick.0] + picks_users(m2, (n - 1) as nat));
        assert forall|i: int|
            0 <= i < n implies picks_users(m, n)[i] == active_users(m.users)[wrap_index(
            c0 + i,
            k,
        )] by {
            if i == 0 {
                assert(picks_users(m, n)[0] == pick.0);
            } else {
                assert(picks_users(m, n)[i] == picks_users(m2, (n - 1) as nat)[i - 1]);
                assert(picks_users(m2, (n - 1) as nat)[i - 1] == active_users(m2.users)[
                    wrap_index(c1 + (i - 1), k)]);
                assert(wrap_index(c1 + (i - 1), k) == wrap_index(c0 + i, k));
            }
        }
    }
}

/// Round-robin fairness: with the active users continuously active (each
/// holding at least two waiting tasks, so none drains mid-window) and
/// nothing enqueued meanwhile, the next `k` picks serve the `k` active
/// users exactly once each, walking them in user-id order from the cursor's
/// position.
pub proof fn lemma_round_robin_window(m: SchedModel)
    requires
        users_sorted(m.users),
        active_idxs(m.users).len() > 0,
        forall|j: int|
            0 <= j < active_idxs(m.users).len() ==> m.users[#[trigger] active_idxs(m.users)[j]]
                .queue.len() >= 2,
    ensures
        ({
            let acts = active_idxs(m.users);
            let k = acts.len() as int;
            let c0 = if m.cursor < acts.len() {
                m.cursor as int
            } else {
                0
            };
            let w = picks_users(m, acts.len());
            &&& w.len() == k
            &&& (forall|i: int|
                0 <= i < k ==> w[i] == active_users(m.users)[wrap_index(c0 + i, k)])
            &&& (forall|i1: int, i2: int| 0 <= i1 < i2 < k ==> w[i1] != w[i2])
            &&& (forall|j: int|
                0 <= j < k ==> #[trigger] w[wrap_index(j - c0 + k, k)] == active_users(
                    m.users,
                )[j])
        }),
{
    let acts = active_idxs(m.users);
    let k = acts.len() as int;
    let c0 = if m.cursor < acts.len() {
        m.cursor as int
    } else {
        0
    };
    lemma_active_idxs(m.users);
    lemma_sorted_unique(m.users);
    assert forall|p: int|
        0 <= p < k && wrap_index(p - c0 + k, k) < acts.len() implies m.users[#[trigger] acts[p]]
        .queue.len() >= 2 by {
    }
    lemma_rr_window_aux(m, acts.len());
    let w = picks_users(m, acts.len());
    assert forall|a: int, b: int| 0 <= a < b < k implies active_users(m.users)[a] != active_users(
        m.users,
    )[b] by {
        assert(acts[a] < acts[b]);
        assert(m.users[acts[a]].user != m.users[acts[b]].user);
        assert(active_users(m.users)[a] == m.users[acts[a]].user);
        assert(active_users(m.users)[b] == m.users[acts[b]].user);
    }
    assert forall|i1: int, i2: int| 0 <= i1 < i2 < k implies w[i1] != w[i2] by {
        let w1 = wrap_index(c0 + i1, k);
        let w2 = wrap_index(c0 + i2, k);
        assert(w1 != w2);
    }
    assert forall|j: int| 0 <= j < k implies #[trigger] w[wrap_index(j - c0 + k, k)]
        == active_users(m.users)[j] by {
        let i = wrap_index(j - c0 + k, k);
        assert(0 <= i < k);
        assert(wrap_index(c0 + i, k) == j);
    }
}

/// No lost wake: `enqueue` leaves the wake flag raised and leaves the state
/// with a task to pick, so an idle worker that is woken and re-checks will
/// dequeue something.
pub proof fn lemma_no_lost_wake(m: SchedModel, u: Seq<char>, t: Task)
    requires
        users_sorted(m.users),
    ensures
        spec_enqueue(m, u, t).wake,
        spec_pick(spec_enqueue(m, u, t)) is Some,
{
    lemma_enqueue_effect(m, u, t);
    let m2 = spec_enqueue(m, u, t);
    assert(queue_of(m2, u).len() > 0);
    lemma_find_user(m2.users, u);
    let f = find_user(m2.users, u);
    assert(f >= 0);
    lemma_active_idxs(m2.users);
    assert(active_idxs(m2.users).contains(f));
    let k = choose|k: int| 0 <= k < active_idxs(m2.users).len() && active_idxs(m2.users)[k] == f;
    assert(active_idxs(m2.users).len() > 0);
}

} // verus!
