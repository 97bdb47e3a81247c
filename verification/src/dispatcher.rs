//! The dispatcher core: per-user FIFO queues, the round-robin scheduler,
//! task accounting, the block-list, and the ingress admission decisions.
//!
//! `AppState` is the shared state of the proxy. The surrounding binary keeps
//! it behind one lock, calls `enqueue`/`submit` from the ingress handler and
//! `next_task`/`preflight`/`finish` from the single worker, and mirrors the
//! one-slot `wake` flag with its notification primitive.

use vstd::prelude::*;
use std::collections::VecDeque;
use crate::responder::{ChunkMsg, RESPONDER_CAPACITY, bytes_size, bytes_view, new_responder,
    responder_bound, responder_is_closed};
use crate::strings::{lex_lt, str_eq, str_lt, lemma_lex_asymmetric, lemma_lex_connected,
    lemma_lex_irreflexive, lemma_lex_transitive};

verus! {

/// One accepted, not yet completed request: the upstream path to call, the
/// buffered request body, and the producer half of the responder channel.
pub struct Task {
    pub path: String,
    pub body: bytes::Bytes,
    pub responder: tokio::sync::mpsc::Sender<ChunkMsg>,
}

/// Everything the dispatcher keeps for one user id: the FIFO of waiting
/// tasks and the two monotone counters the dashboard reads.
pub struct UserEntry {
    pub user: String,
    pub queue: VecDeque<Task>,
    pub processed: usize,
    pub dropped: usize,
}

/// The shared dispatcher state. `users` is kept strictly sorted by user id,
/// which makes the round-robin schedule deterministic; a user stays listed
/// once known, with an empty queue when nothing is waiting.
pub struct AppState {
    pub users: Vec<UserEntry>,
    pub cursor: usize,
    pub wake: bool,
    pub blocked_users: Vec<String>,
    pub blocked_ips: Vec<String>,
    pub user_ips: Vec<(String, String)>,
    pub ollama_url: String,
}

/// The abstract value of a `UserEntry`.
#[verifier::ext_equal]
pub struct UserModel {
    pub user: Seq<char>,
    pub queue: Seq<Task>,
    pub processed: nat,
    pub dropped: nat,
}

/// The abstract value of the whole dispatcher state.
#[verifier::ext_equal]
pub struct SchedModel {
    pub users: Seq<UserModel>,
    pub cursor: nat,
    pub wake: bool,
    pub blocked_users: Seq<Seq<char>>,
    pub blocked_ips: Seq<Seq<char>>,
    pub user_ips: Seq<(Seq<char>, Seq<char>)>,
    pub upstream: Seq<char>,
}

impl View for UserEntry {
    type V = UserModel;

    open spec fn view(&self) -> UserModel {
        UserModel {
            user: self.user@,
            queue: self.queue@,
            processed: self.processed as nat,
            dropped: self.dropped as nat,
        }
    }
}

/// The views of a sequence of strings.
pub open spec fn str_views(s: Seq<String>) -> Seq<Seq<char>> {
    s.map_values(|x: String| x@)
}

impl View for AppState {
    type V = SchedModel;

    open spec fn view(&self) -> SchedModel {
        SchedModel {
            users: self.users@.map_values(|e: UserEntry| e@),
            cursor: self.cursor as nat,
            wake: self.wake,
            blocked_users: str_views(self.blocked_users@),
            blocked_ips: str_views(self.blocked_ips@),
            user_ips: self.user_ips@.map_values(|p: (String, String)| (p.0@, p.1@)),
            upstream: self.ollama_url@,
        }
    }
}

/// How one task ended, as the worker saw it. Exactly one of these is
/// reported for every dequeued task; only a cleanly completed stream counts
/// as processed, everything else counts as dropped.
#[derive(Clone, Copy, Debug, PartialEq, Eq, Structural)]
pub enum TaskEnd {
    /// The upstream stream ended cleanly and every chunk was handed over.
    Completed,
    /// The responder was already closed when the task came up for dispatch.
    ClientGoneBeforeDispatch,
    /// The responder closed while the worker was waiting for the upstream
    /// response to begin.
    ClientGoneWaiting,
    /// A chunk could no longer be handed over mid-stream.
    ClientGoneStreaming,
    /// The upstream call failed before any body arrived.
    UpstreamFailed,
    /// The upstream stream failed mid-body.
    UpstreamTruncated,
}

/// Whether an ending counts towards `processed` rather than `dropped`.
pub open spec fn counts_as_processed(end: TaskEnd) -> bool {
    end is Completed
}

/// The ingress decision for one inbound request.
#[derive(Clone, Copy, Debug, PartialEq, Eq, Structural)]
pub enum Admission {
    Accepted,
    BlockedIp,
    BlockedUser,
    BodyTooLarge,
}

/// The largest request body the proxy accepts.
pub const MAX_BODY_BYTES: usize = 50 * 1024 * 1024;

/// One row of the dashboard's read-only view.
pub struct UserStat {
    pub user: String,
    pub queue_len: usize,
    pub processed: usize,
    pub dropped: usize,
}

/// The read-only view the dashboard renders: one row per known user, plus
/// aggregate totals.
pub struct Snapshot {
    pub users: Vec<UserStat>,
    pub user_count: usize,
    pub total_queued: u128,
    pub total_processed: u128,
    pub total_dropped: u128,
}

// ---------------------------------------------------------------------------
// Spec-level helpers over the model
// ---------------------------------------------------------------------------

/// The index of `u` among `users`, or -1 when absent.
pub open spec fn find_user(users: Seq<UserModel>, u: Seq<char>) -> int
    decreases users.len(),
{
    if users.len() == 0 {
        -1
    } else if users[0].user == u {
        0
    } else {
        let r = find_user(users.skip(1), u);
        if r == -1 {
            -1
        } else {
            r + 1
        }
    }
}

/// Whether `u` is a known user.
pub open spec fn has_user(users: Seq<UserModel>, u: Seq<char>) -> bool {
    find_user(users, u) != -1
}

/// Where a new entry for `u` belongs in the sorted user list: after every
/// user id ordered before it.
pub open spec fn insert_position(users: Seq<UserModel>, u: Seq<char>) -> int
    decreases users.len(),
{
    if users.len() == 0 {
        0
    } else if lex_lt(users[0].user, u) {
        1 + insert_position(users.skip(1), u)
    } else {
        0
    }
}

/// The indices of the users whose queue is non-empty, in ascending order.
pub open spec fn active_idxs(users: Seq<UserModel>) -> Seq<int>
    decreases users.len(),
{
    if users.len() == 0 {
        Seq::empty()
    } else {
        let pre = active_idxs(users.drop_last());
        if users.last().queue.len() > 0 {
            pre.push(users.len() - 1)
        } else {
            pre
        }
    }
}

/// The ids of the active users, in ascending id order.
pub open spec fn active_users(users: Seq<UserModel>) -> Seq<Seq<char>> {
    active_idxs(users).map_values(|idx: int| users[idx].user)
}

/// The waiting tasks of `u`, oldest first; empty when `u` is unknown.
pub open spec fn queue_of(m: SchedModel, u: Seq<char>) -> Seq<Task> {
    let f = find_user(m.users, u);
    if f >= 0 {
        m.users[f].queue
    } else {
        Seq::empty()
    }
}

/// How many of `u`'s tasks completed successfully.
pub open spec fn processed_of(m: SchedModel, u: Seq<char>) -> nat {
    let f = find_user(m.users, u);
    if f >= 0 {
        m.users[f].processed
    } else {
        0
    }
}

/// How many of `u`'s tasks were dropped.
pub open spec fn dropped_of(m: SchedModel, u: Seq<char>) -> nat {
    let f = find_user(m.users, u);
    if f >= 0 {
        m.users[f].dropped
    } else {
        0
    }
}

/// The address recorded for key `u` in an association list, if any.
pub open spec fn ip_lookup(s: Seq<(Seq<char>, Seq<char>)>, u: Seq<char>) -> Option<Seq<char>>
    decreases s.len(),
{
    if s.len() == 0 {
        None
    } else if s[0].0 == u {
        Some(s[0].1)
    } else {
        ip_lookup(s.skip(1), u)
    }
}

/// The index of key `u` in an association list, or -1 when absent.
pub open spec fn ip_key_index(s: Seq<(Seq<char>, Seq<char>)>, u: Seq<char>) -> int
    decreases s.len(),
{
    if s.len() == 0 {
        -1
    } else if s[0].0 == u {
        0
    } else {
        let r = ip_key_index(s.skip(1), u);
        if r == -1 {
            -1
        } else {
            r + 1
        }
    }
}

/// `note_user_ip`: record `ip` as the address last seen for `u`, replacing
/// an earlier record.
pub open spec fn spec_note_ip(
    s: Seq<(Seq<char>, Seq<char>)>,
    u: Seq<char>,
    ip: Seq<char>,
) -> Seq<(Seq<char>, Seq<char>)> {
    let f = ip_key_index(s, u);
    if f >= 0 {
        s.update(f, (u, ip))
    } else {
        s.push((u, ip))
    }
}

/// The address last seen for `u`, if any.
pub open spec fn ip_of(m: SchedModel, u: Seq<char>) -> Option<Seq<char>> {
    ip_lookup(m.user_ips, u)
}

/// The total number of waiting tasks.
pub open spec fn sum_queued(users: Seq<UserModel>) -> nat
    decreases users.len(),
{
    if users.len() == 0 {
        0
    } else {
        sum_queued(users.drop_last()) + users.last().queue.len()
    }
}

/// The total number of processed tasks.
pub open spec fn sum_processed(users: Seq<UserModel>) -> nat
    decreases users.len(),
{
    if users.len() == 0 {
        0
    } else {
        sum_processed(users.drop_last()) + users.last().processed
    }
}

/// The total number of dropped tasks.
pub open spec fn sum_dropped(users: Seq<UserModel>) -> nat
    decreases users.len(),
{
    if users.len() == 0 {
        0
    } else {
        sum_dropped(users.drop_last()) + users.last().dropped
    }
}

/// The user list is strictly sorted by id.
pub open spec fn users_sorted(users: Seq<UserModel>) -> bool {
    forall|i: int, j: int|
        0 <= i < j < users.len() ==> lex_lt(users[i].user, users[j].user)
}

/// No repeated entry.
pub open spec fn nodup_strs(s: Seq<Seq<char>>) -> bool {
    forall|i: int, j: int| 0 <= i < j < s.len() ==> s[i] != s[j]
}

/// The keys of the user/address association.
pub open spec fn ip_keys(s: Seq<(Seq<char>, Seq<char>)>) -> Seq<Seq<char>> {
    s.map_values(|p: (Seq<char>, Seq<char>)| p.0)
}

/// Well-formedness of a model: sorted users, duplicate-free auxiliary lists.
pub open spec fn model_wf(m: SchedModel) -> bool {
    &&& users_sorted(m.users)
    &&& nodup_strs(m.blocked_users)
    &&& nodup_strs(m.blocked_ips)
    &&& nodup_strs(ip_keys(m.user_ips))
}

/// A fresh entry for user `u` holding one waiting task.
pub open spec fn fresh_slot(u: Seq<char>, t: Task) -> UserModel {
    UserModel { user: u, queue: seq![t], processed: 0, dropped: 0 }
}

/// `enqueue`: append `t` to `u`'s FIFO, creating the queue on first use, and
/// raise the wake flag.
pub open spec fn spec_enqueue(m: SchedModel, u: Seq<char>, t: Task) -> SchedModel {
    let f = find_user(m.users, u);
    let users = if f >= 0 {
        m.users.update(f, UserModel { queue: m.users[f].queue.push(t), ..m.users[f] })
    } else {
        m.users.insert(insert_position(m.users, u), fresh_slot(u, t))
    };
    SchedModel { users, wake: true, ..m }
}

/// `next_task`: among the active users, pick the one at the round-robin
/// cursor (reset to the first when out of range), pop the head of its FIFO,
/// and advance the cursor. None exactly when no task waits anywhere.
pub open spec fn spec_pick(m: SchedModel) -> Option<(Seq<char>, Task, SchedModel)> {
    let acts = active_idxs(m.users);
    if acts.len() == 0 {
        None
    } else {
        let c = if m.cursor < acts.len() {
            m.cursor as int
        } else {
            0
        };
        let idx = acts[c];
        let e = m.users[idx];
        let m2 = SchedModel {
            users: m.users.update(idx, UserModel { queue: e.queue.drop_first(), ..e }),
            cursor: (c + 1) as nat,
            ..m
        };
        Some((e.user, e.queue[0], m2))
    }
}

/// `record_processed` / `record_dropped`: bump the counter of `u`, creating
/// an entry with an empty queue when `u` was never seen.
pub open spec fn spec_record(m: SchedModel, u: Seq<char>, success: bool) -> SchedModel {
    let f = find_user(m.users, u);
    if f >= 0 {
        let e = m.users[f];
        let e2 = if success {
            UserModel { processed: e.processed + 1, ..e }
        } else {
            UserModel { dropped: e.dropped + 1, ..e }
        };
        SchedModel { users: m.users.update(f, e2), ..m }
    } else {
        let slot = UserModel {
            user: u,
            queue: Seq::empty(),
            processed: if success { 1nat } else { 0nat },
            dropped: if success { 0nat } else { 1nat },
        };
        SchedModel { users: m.users.insert(insert_position(m.users, u), slot), ..m }
    }
}

/// Whether an upstream HTTP status is an error status (a client or server
/// error). Such a response is an upstream failure: the worker forwards one
/// error marker instead of streaming the body, and the task counts dropped.
pub open spec fn spec_upstream_status_fails(status: u16) -> bool {
    status >= 400
}

/// The supported upstream-compatible routes.
pub open spec fn spec_supported_path(p: Seq<char>) -> bool {
    ||| p == "/api/generate"@
    ||| p == "/api/chat"@
    ||| p == "/v1/chat/completions"@
    ||| p == "/v1/completions"@
}

impl AppState {
    /// Well-formedness of the dispatcher state.
    pub open spec fn wf(&self) -> bool {
        model_wf(self@)
    }
}

// ---------------------------------------------------------------------------
// Lemmas about the spec helpers
// ---------------------------------------------------------------------------

/// What `find_user` returns: a valid index of `u`, the first one, or -1 when
/// `u` is absent.
pub proof fn lemma_find_user(users: Seq<UserModel>, u: Seq<char>)
    ensures
        -1 <= find_user(users, u) < users.len(),
        find_user(users, u) >= 0 ==> users[find_user(users, u)].user == u,
        find_user(users, u) >= 0 ==> forall|i: int|
            0 <= i < find_user(users, u) ==> users[i].user != u,
        find_user(users, u) == -1 ==> forall|i: int|
            0 <= i < users.len() ==> users[i].user != u,
    decreases users.len(),
{
    if users.len() == 0 {
    } else if users[0].user == u {
    } else {
        lemma_find_user(users.skip(1), u);
        let f = find_user(users, u);
        if f >= 0 {
            assert(users.skip(1)[f - 1] == users[f]);
            assert forall|i: int| 0 <= i < f implies users[i].user != u by {
                if i > 0 {
                    assert(users.skip(1)[i - 1] == users[i]);
                }
            }
        } else {
            assert forall|i: int| 0 <= i < users.len() implies users[i].user != u by {
                if i > 0 {
                    assert(users.skip(1)[i - 1] == users[i]);
                }
            }
        }
    }
}

/// `find_user` returns the first matching index.
pub proof fn lemma_find_user_at(users: Seq<UserModel>, u: Seq<char>, i: int)
    requires
        0 <= i < users.len(),
        users[i].user == u,
        forall|j: int| 0 <= j < i ==> users[j].user != u,
    ensures
        find_user(users, u) == i,
    decreases users.len(),
{
    if i == 0 {
    } else {
        assert(users[0].user != u);
        lemma_find_user_at(users.skip(1), u, i - 1);
        assert(forall|j: int| 0 <= j < users.len() - 1 ==> users.skip(1)[j] == users[j + 1]);
    }
}

/// `find_user` returns -1 when no entry matches.
pub proof fn lemma_find_user_absent(users: Seq<UserModel>, u: Seq<char>)
    requires
        forall|i: int| 0 <= i < users.len() ==> users[i].user != u,
    ensures
        find_user(users, u) == -1,
{
    lemma_find_user(users, u);
    if find_user(users, u) >= 0 {
        assert(users[find_user(users, u)].user == u);
    }
}

/// What `insert_position` returns: the boundary between the ids ordered
/// before `u` and the rest.
pub proof fn lemma_insert_position(users: Seq<UserModel>, u: Seq<char>)
    ensures
        0 <= insert_position(users, u) <= users.len(),
        forall|i: int| 0 <= i < insert_position(users, u) ==> lex_lt(users[i].user, u),
        insert_position(users, u) < users.len() ==> !lex_lt(
            users[insert_position(users, u)].user,
            u,
        ),
    decreases users.len(),
{
    if users.len() == 0 {
    } else if lex_lt(users[0].user, u) {
        lemma_insert_position(users.skip(1), u);
        let p = insert_position(users, u);
        assert forall|i: int| 0 <= i < p implies lex_lt(users[i].user, u) by {
            if i > 0 {
                assert(users.skip(1)[i - 1] == users[i]);
            }
        }
        if p < users.len() {
            assert(users.skip(1)[p - 1] == users[p]);
        }
    } else {
    }
}

/// `insert_position` is exactly the boundary index `i`.
pub proof fn lemma_insert_position_at(users: Seq<UserModel>, u: Seq<char>, i: int)
    requires
        0 <= i <= users.len(),
        forall|j: int| 0 <= j < i ==> lex_lt(users[j].user, u),
        i < users.len() ==> !lex_lt(users[i].user, u),
    ensures
        insert_position(users, u) == i,
    decreases users.len(),
{
    if users.len() == 0 {
    } else if i == 0 {
    } else {
        assert(lex_lt(users[0].user, u));
        assert(forall|j: int| 0 <= j < users.len() - 1 ==> users.skip(1)[j] == users[j + 1]);
        lemma_insert_position_at(users.skip(1), u, i - 1);
    }
}

/// Inserting an unknown user at its position keeps the list sorted.
pub proof fn lemma_sorted_insert(users: Seq<UserModel>, u: Seq<char>, slot: UserModel)
    requires
        users_sorted(users),
        slot.user == u,
        forall|i: int| 0 <= i < users.len() ==> users[i].user != u,
    ensures
        users_sorted(users.insert(insert_position(users, u), slot)),
{
    lemma_insert_position(users, u);
    let p = insert_position(users, u);
    let r = users.insert(p, slot);
    assert forall|i: int, j: int| 0 <= i < j < r.len() implies lex_lt(r[i].user, r[j].user) by {
        if i < p && j < p {
        } else if i < p && j == p {
        } else if i < p && j > p {
        } else if i == p && j > p {
            // u is not ordered before users[p], and differs from it; so u is
            // ordered before users[p], and before everything after it.
            if !lex_lt(u, users[j - 1].user) {
                if !lex_lt(users[j - 1].user, u) {
                    lemma_lex_connected(u, users[j - 1].user);
                    assert(false);
                } else {
                    if j - 1 == p {
                        assert(false);
                    } else {
                        assert(lex_lt(users[p].user, users[j - 1].user));
                        lemma_lex_transitive(users[p].user, users[j - 1].user, u);
                        assert(lex_lt(users[p].user, u));
                        assert(false);
                    }
                }
            }
        } else {
        }
    }
}

/// Updating an entry without renaming it keeps the list sorted.
pub proof fn lemma_sorted_update(users: Seq<UserModel>, i: int, e: UserModel)
    requires
        users_sorted(users),
        0 <= i < users.len(),
        e.user == users[i].user,
    ensures
        users_sorted(users.update(i, e)),
{
}

/// What `active_idxs` holds: exactly the in-range indices of non-empty
/// queues, in ascending order.
pub proof fn lemma_active_idxs(users: Seq<UserModel>)
    ensures
        forall|k: int| 0 <= k < active_idxs(users).len() ==> (0 <= #[trigger] active_idxs(
            users,
        )[k] < users.len() && users[active_idxs(users)[k]].queue.len() > 0),
        forall|k1: int, k2: int|
            0 <= k1 < k2 < active_idxs(users).len() ==> active_idxs(users)[k1] < active_idxs(
                users,
            )[k2],
        forall|i: int|
            0 <= i < users.len() && users[i].queue.len() > 0 ==> active_idxs(users).contains(i),
    decreases users.len(),
{
    if users.len() == 0 {
    } else {
        lemma_active_idxs(users.drop_last());
        let pre = active_idxs(users.drop_last());
        assert(forall|i: int| 0 <= i < users.len() - 1 ==> users.drop_last()[i] == users[i]);
        assert forall|i: int|
            0 <= i < users.len() && users[i].queue.len() > 0 implies active_idxs(users).contains(
            i,
        ) by {
            if i < users.len() - 1 {
                assert(pre.contains(i));
                let k = choose|k: int| 0 <= k < pre.len() && pre[k] == i;
                assert(active_idxs(users)[k] == i);
            } else {
                assert(active_idxs(users).last() == i);
            }
        }
    }
}

/// Viewing an entry list with an insertion is inserting into the viewed list.
pub proof fn lemma_map_view_insert(s: Seq<UserEntry>, i: int, e: UserEntry)
    requires
        0 <= i <= s.len(),
    ensures
        s.insert(i, e).map_values(|x: UserEntry| x@) == s.map_values(|x: UserEntry| x@).insert(
            i,
            e@,
        ),
{
    assert(s.insert(i, e).map_values(|x: UserEntry| x@) =~= s.map_values(|x: UserEntry| x@).insert(
        i,
        e@,
    ));
}

/// Two user lists of the same shape (same ids, same queue emptiness) have
/// the same active index list.
pub proof fn lemma_active_idxs_same(a: Seq<UserModel>, b: Seq<UserModel>)
    requires
        a.len() == b.len(),
        forall|i: int| 0 <= i < a.len() ==> ((a[i].queue.len() > 0) == (b[i].queue.len() > 0)),
    ensures
        active_idxs(a) == active_idxs(b),
    decreases a.len(),
{
    if a.len() > 0 {
        lemma_active_idxs_same(a.drop_last(), b.drop_last());
        assert(forall|i: int| 0 <= i < a.len() - 1 ==> a.drop_last()[i] == a[i]);
        assert(forall|i: int| 0 <= i < b.len() - 1 ==> b.drop_last()[i] == b[i]);
        assert(a.last() == a[a.len() - 1]);
        assert(b.last() == b[b.len() - 1]);
    }
}

// ---------------------------------------------------------------------------
// Duplicate-free string lists (the block-lists and the address table keys)
// ---------------------------------------------------------------------------

/// Whether `s` occurs in `v`.
fn vec_contains_str(v: &Vec<String>, s: &str) -> (r: bool)
    ensures
        r == str_views(v@).contains(s@),
{
    let mut i: usize = 0;
    while i < v.len()
        invariant
            i <= v@.len(),
            forall|j: int| 0 <= j < i ==> v@[j]@ != s@,
        decreases v@.len() - i,
    {
        if str_eq(s, v[i].as_str()) {
            proof {
                assert(str_views(v@)[i as int] == s@);
            }
            return true;
        }
        i += 1;
    }
    proof {
        if str_views(v@).contains(s@) {
            let k = choose|k: int| 0 <= k < str_views(v@).len() && str_views(v@)[k] == s@;
            assert(v@[k]@ == s@);
        }
    }
    false
}

/// Adds `s` to a duplicate-free list unless it is already there.
fn insert_str(list: &mut Vec<String>, s: String)
    requires
        nodup_strs(str_views(old(list)@)),
    ensures
        nodup_strs(str_views(final(list)@)),
        str_views(old(list)@).contains(s@) ==> final(list)@ == old(list)@,
        !str_views(old(list)@).contains(s@) ==> final(list)@ == old(list)@.push(s),
        forall|u: Seq<char>|
            #[trigger] str_views(final(list)@).contains(u) <==> (str_views(old(list)@).contains(u)
                || u == s@),
{
    let present = vec_contains_str(list, s.as_str());
    if !present {
        list.push(s);
    }
    proof {
        let views0 = str_views(old(list)@);
        let views1 = str_views(list@);
        if !views0.contains(s@) {
            assert(list@ == old(list)@.push(s));
            assert(views1 =~= views0.push(s@));
            assert(views1.last() == s@);
            assert forall|u: Seq<char>| #[trigger] views1.contains(u) implies (views0.contains(u)
                || u == s@) by {
                let k = choose|k: int| 0 <= k < views1.len() && views1[k] == u;
                if k < views0.len() {
                    assert(views0[k] == u);
                }
            }
            assert forall|u: Seq<char>| (views0.contains(u) || u == s@) implies #[trigger] views1
                .contains(u) by {
                if views0.contains(u) {
                    let k = choose|k: int| 0 <= k < views0.len() && views0[k] == u;
                    assert(views1[k] == u);
                } else {
                    assert(views1[views1.len() - 1] == u);
                }
            }
            assert forall|i: int, j: int| 0 <= i < j < views1.len() implies views1[i] != views1[j]
                by {
                if j == views1.len() - 1 {
                    assert(views0[i] == views1[i]);
                    assert(views0.contains(views1[i]));
                }
            }
        }
    }
}

/// Removes `s` from a duplicate-free list if it is there.
fn remove_str(list: &mut Vec<String>, s: &str)
    requires
        nodup_strs(str_views(old(list)@)),
    ensures
        nodup_strs(str_views(final(list)@)),
        !str_views(old(list)@).contains(s@) ==> final(list)@ == old(list)@,
        str_views(old(list)@).contains(s@) ==> final(list)@.len() == old(list)@.len() - 1,
        forall|u: Seq<char>|
            #[trigger] str_views(final(list)@).contains(u) <==> (str_views(old(list)@).contains(u)
                && u != s@),
{
    let ghost views0 = str_views(old(list)@);
    let mut i: usize = 0;
    while i < list.len()
        invariant
            list@ == old(list)@,
            views0 == str_views(old(list)@),
            nodup_strs(views0),
            i <= list@.len(),
            forall|j: int| 0 <= j < i ==> list@[j]@ != s@,
        decreases list@.len() - i,
    {
        if str_eq(s, list[i].as_str()) {
            proof {
                assert(i < list@.len());
                assert(views0.len() == old(list)@.len());
                assert(views0[i as int] == old(list)@[i as int]@);
            }
            list.remove(i);
            proof {
                let views1 = str_views(list@);
                assert(list@ == old(list)@.remove(i as int));
                assert(list@.len() == old(list)@.len() - 1);
                assert(views0[i as int] == s@);
                assert forall|j: int| 0 <= j < views1.len() implies views1[j] == (if j < i {
                    views0[j]
                } else {
                    views0[j + 1]
                }) by {
                    assert(views1[j] == list@[j]@);
                    if j < i {
                        assert(list@[j] == old(list)@[j]);
                    } else {
                        assert(list@[j] == old(list)@[j + 1]);
                    }
                }
                assert(views0.contains(s@));
                assert forall|u: Seq<char>| #[trigger] views1.contains(u) implies (views0.contains(
                    u,
                ) && u != s@) by {
                    let k = choose|k: int| 0 <= k < views1.len() && views1[k] == u;
                    if k < i {
                        assert(views0[k] == u);
                        assert(views0.contains(u));
                        assert(views0[k] != views0[i as int]);
                    } else {
                        assert(views0[k + 1] == u);
                        assert(views0.contains(u));
                        assert(views0[i as int] != views0[k + 1]);
                    }
                }
                assert forall|u: Seq<char>| (views0.contains(u) && u != s@) implies
                    #[trigger] views1.contains(u) by {
                    let k = choose|k: int| 0 <= k < views0.len() && views0[k] == u;
                    if k < i {
                        assert(views1[k] == u);
                    } else {
                        assert(k != i);
                        assert(views1[k - 1] == u);
                    }
                }
                assert forall|a: int, b: int| 0 <= a < b < views1.len() implies views1[a]
                    != views1[b] by {
                    if b < i {
                    } else if a < i {
                        assert(views1[a] == views0[a]);
                        assert(views1[b] == views0[b + 1]);
                    } else {
                        assert(views1[a] == views0[a + 1]);
                        assert(views1[b] == views0[b + 1]);
                    }
                }
            }
            return ;
        }
        i += 1;
    }
    proof {
        if views0.contains(s@) {
            let k = choose|k: int| 0 <= k < views0.len() && views0[k] == s@;
            assert(old(list)@[k]@ == s@);
        }
    }
}

/// Membership in a pushed sequence.
pub proof fn lemma_contains_push(s: Seq<Seq<char>>, x: Seq<char>, u: Seq<char>)
    ensures
        s.push(x).contains(u) <==> (s.contains(u) || u == x),
{
    if s.push(x).contains(u) {
        let k = choose|k: int| 0 <= k < s.push(x).len() && s.push(x)[k] == u;
        if k < s.len() {
            assert(s[k] == u);
        }
    }
    if s.contains(u) {
        let k = choose|k: int| 0 <= k < s.len() && s[k] == u;
        assert(s.push(x)[k] == u);
    }
    if u == x {
        assert(s.push(x)[s.len() as int] == u);
    }
}

impl AppState {
    /// A fresh dispatcher state: no users, cursor at the start, wake flag
    /// down, and the two block-lists taken over (without duplicates) from
    /// what the persisted block file held.
    pub fn new(ollama_url: String, blocked_ips: Vec<String>, blocked_users: Vec<String>) -> (s:
        AppState)
        ensures
            s.wf(),
            s@.users == Seq::<UserModel>::empty(),
            s@.cursor == 0,
            s@.wake == false,
            s@.user_ips == Seq::<(Seq<char>, Seq<char>)>::empty(),
            s@.upstream == ollama_url@,
            forall|u: Seq<char>|
                #[trigger] s@.blocked_users.contains(u) <==> str_views(blocked_users@).contains(u),
            forall|u: Seq<char>|
                #[trigger] s@.blocked_ips.contains(u) <==> str_views(blocked_ips@).contains(u),
    {
        let bu = dedup_strs(blocked_users);
        let bi = dedup_strs(blocked_ips);
        let s = AppState {
            users: Vec::new(),
            cursor: 0,
            wake: false,
            blocked_users: bu,
            blocked_ips: bi,
            user_ips: Vec::new(),
            ollama_url,
        };
        proof {
            assert(s@.users =~= Seq::<UserModel>::empty());
            assert(s@.user_ips =~= Seq::<(Seq<char>, Seq<char>)>::empty());
            assert(ip_keys(s@.user_ips) =~= Seq::<Seq<char>>::empty());
        }
        s
    }

    /// The index of `user_id`'s entry, creating an empty one at its sorted
    /// position when the user is new.
    fn slot_for(&mut self, user_id: &str) -> (i: usize)
        requires
            old(self).wf(),
        ensures
            final(self).wf(),
            i < final(self)@.users.len(),
            final(self)@.users[i as int].user == user_id@,
            final(self)@.cursor == old(self)@.cursor,
            final(self)@.wake == old(self)@.wake,
            final(self)@.blocked_users == old(self)@.blocked_users,
            final(self)@.blocked_ips == old(self)@.blocked_ips,
            final(self)@.user_ips == old(self)@.user_ips,
            final(self)@.upstream == old(self)@.upstream,
            has_user(old(self)@.users, user_id@) ==> i as int == find_user(
                old(self)@.users,
                user_id@,
            ) && final(self)@.users == old(self)@.users,
            !has_user(old(self)@.users, user_id@) ==> i as int == insert_position(
                old(self)@.users,
                user_id@,
            ) && final(self)@.users == old(self)@.users.insert(
                i as int,
                UserModel { user: user_id@, queue: Seq::empty(), processed: 0, dropped: 0 },
            ),
    {
        let mut i: usize = 0;
        while i < self.users.len()
            invariant
                self@ == old(self)@,
                old(self).wf(),
                i <= self@.users.len(),
                forall|j: int| 0 <= j < i ==> lex_lt(self@.users[j].user, user_id@),
            decreases self@.users.len() - i,
        {
            let same = str_eq(user_id, self.users[i].user.as_str());
            if same {
                proof {
                    assert(self@.users[i as int].user == user_id@);
                    assert forall|j: int| 0 <= j < i implies self@.users[j].user != user_id@ by {
                        if self@.users[j].user == user_id@ {
                            lemma_lex_irreflexive(user_id@);
                        }
                    }
                    lemma_find_user_at(self@.users, user_id@, i as int);
                }
                return i;
            }
            let before = str_lt(user_id, self.users[i].user.as_str());
            if before {
                proof {
                    let mu = self@.users;
                    assert forall|j: int| 0 <= j < mu.len() implies mu[j].user != user_id@ by {
                        if j < i {
                            if mu[j].user == user_id@ {
                                lemma_lex_irreflexive(user_id@);
                            }
                        } else {
                            if j > i {
                                assert(lex_lt(mu[i as int].user, mu[j].user));
                                lemma_lex_transitive(user_id@, mu[i as int].user, mu[j].user);
                            }
                            if mu[j].user == user_id@ {
                                lemma_lex_irreflexive(user_id@);
                            }
                        }
                    }
                    lemma_find_user_absent(mu, user_id@);
                    lemma_lex_asymmetric(user_id@, mu[i as int].user);
                    lemma_insert_position_at(mu, user_id@, i as int);
                    lemma_sorted_insert(
                        mu,
                        user_id@,
                        UserModel { user: user_id@, queue: Seq::empty(), processed: 0, dropped: 0 },
                    );
                }
                let entry = UserEntry {
                    user: user_id.to_owned(),
                    queue: VecDeque::new(),
                    processed: 0,
                    dropped: 0,
                };
                proof {
                    assert(entry@ =~= UserModel {
                        user: user_id@,
                        queue: Seq::empty(),
                        processed: 0,
                        dropped: 0,
                    });
                }
                let ghost pre = self.users@;
                self.users.insert(i, entry);
                proof {
                    lemma_map_view_insert(pre, i as int, entry);
                }
                return i;
            }
            proof {
                if !lex_lt(self@.users[i as int].user, user_id@) {
                    lemma_lex_connected(self@.users[i as int].user, user_id@);
                }
            }
            i += 1;
        }
        proof {
            let mu = self@.users;
            assert forall|j: int| 0 <= j < mu.len() implies mu[j].user != user_id@ by {
                if mu[j].user == user_id@ {
                    lemma_lex_irreflexive(user_id@);
                }
            }
            lemma_find_user_absent(mu, user_id@);
            lemma_insert_position_at(mu, user_id@, mu.len() as int);
            lemma_sorted_insert(
                mu,
                user_id@,
                UserModel { user: user_id@, queue: Seq::empty(), processed: 0, dropped: 0 },
            );
        }
        let entry = UserEntry {
            user: user_id.to_owned(),
            queue: VecDeque::new(),
            processed: 0,
            dropped: 0,
        };
        proof {
            assert(entry@ =~= UserModel {
                user: user_id@,
                queue: Seq::empty(),
                processed: 0,
                dropped: 0,
            });
        }
        let ghost pre = self.users@;
        let i = self.users.len();
        self.users.push(entry);
        proof {
            assert(self.users@ =~= pre.insert(i as int, entry));
            lemma_map_view_insert(pre, i as int, entry);
        }
        i
    }

    /// Appends a task to `user_id`'s FIFO, creating the queue on first use,
    /// and raises the wake flag. Never fails.
    pub fn enqueue(&mut self, user_id: &str, task: Task)
        requires
            old(self).wf(),
        ensures
            final(self).wf(),
            final(self)@ == spec_enqueue(old(self)@, user_id@, task),
    {
        let ghost m0 = self@;
        let i = self.slot_for(user_id);
        let ghost m1 = self@;
        self.users[i].queue.push_back(task);
        self.wake = true;
        proof {
            lemma_find_user(m0.users, user_id@);
            assert(self@.users =~= m1.users.update(
                i as int,
                UserModel { queue: m1.users[i as int].queue.push(task), ..m1.users[i as int] },
            ));
            if has_user(m0.users, user_id@) {
                assert(self@ =~~= spec_enqueue(m0, user_id@, task));
            } else {
                lemma_insert_position(m0.users, user_id@);
                assert(m1.users == m0.users.insert(
                    i as int,
                    UserModel { user: user_id@, queue: Seq::empty(), processed: 0, dropped: 0 },
                ));
                assert(m1.users[i as int] == UserModel {
                    user: user_id@,
                    queue: Seq::empty(),
                    processed: 0,
                    dropped: 0,
                });
                assert(Seq::<Task>::empty().push(task) =~= seq![task]);
                assert(self@.users =~~= m0.users.insert(
                    i as int,
                    fresh_slot(user_id@, task),
                ));
                assert(self@ =~~= spec_enqueue(m0, user_id@, task));
            }
            lemma_sorted_update(
                m1.users,
                i as int,
                UserModel { queue: m1.users[i as int].queue.push(task), ..m1.users[i as int] },
            );
        }
    }
}

/// What `ip_key_index` returns: a valid first index of `u`, or -1.
pub proof fn lemma_ip_key_index(s: Seq<(Seq<char>, Seq<char>)>, u: Seq<char>)
    ensures
        -1 <= ip_key_index(s, u) < s.len(),
        ip_key_index(s, u) >= 0 ==> s[ip_key_index(s, u)].0 == u,
        ip_key_index(s, u) >= 0 ==> forall|i: int| 0 <= i < ip_key_index(s, u) ==> s[i].0 != u,
        ip_key_index(s, u) == -1 ==> forall|i: int| 0 <= i < s.len() ==> s[i].0 != u,
    decreases s.len(),
{
    if s.len() == 0 {
    } else if s[0].0 == u {
    } else {
        lemma_ip_key_index(s.skip(1), u);
        let f = ip_key_index(s, u);
        if f >= 0 {
            assert(s.skip(1)[f - 1] == s[f]);
            assert forall|i: int| 0 <= i < f implies s[i].0 != u by {
                if i > 0 {
                    assert(s.skip(1)[i - 1] == s[i]);
                }
            }
        } else {
            assert forall|i: int| 0 <= i < s.len() implies s[i].0 != u by {
                if i > 0 {
                    assert(s.skip(1)[i - 1] == s[i]);
                }
            }
        }
    }
}

/// `ip_key_index` returns the first matching index.
pub proof fn lemma_ip_key_index_at(s: Seq<(Seq<char>, Seq<char>)>, u: Seq<char>, i: int)
    requires
        0 <= i < s.len(),
        s[i].0 == u,
        forall|j: int| 0 <= j < i ==> s[j].0 != u,
    ensures
        ip_key_index(s, u) == i,
    decreases s.len(),
{
    if i == 0 {
    } else {
        assert(s[0].0 != u);
        lemma_ip_key_index_at(s.skip(1), u, i - 1);
        assert(forall|j: int| 0 <= j < s.len() - 1 ==> s.skip(1)[j] == s[j + 1]);
    }
}

/// Takes over a list of strings, dropping repeated entries.
fn dedup_strs(input: Vec<String>) -> (r: Vec<String>)
    ensures
        nodup_strs(str_views(r@)),
        forall|u: Seq<char>|
            #[trigger] str_views(r@).contains(u) <==> str_views(input@).contains(u),
{
    let mut out: Vec<String> = Vec::new();
    let mut i: usize = 0;
    while i < input.len()
        invariant
            i <= input@.len(),
            nodup_strs(str_views(out@)),
            forall|u: Seq<char>|
                #[trigger] str_views(out@).contains(u) <==> str_views(input@).take(
                    i as int,
                ).contains(u),
        decreases input@.len() - i,
    {
        let ghost out0 = out@;
        insert_str(&mut out, input[i].clone());
        proof {
            let sv = str_views(input@);
            assert(sv.take(i + 1 as int) =~= sv.take(i as int).push(sv[i as int]));
            assert(sv[i as int] == input@[i as int]@);
            assert forall|u: Seq<char>| #[trigger] str_views(out@).contains(u) <==> sv.take(
                i + 1 as int,
            ).contains(u) by {
                lemma_contains_push(sv.take(i as int), sv[i as int], u);
            }
        }
        i += 1;
    }
    proof {
        assert(str_views(input@).take(input@.len() as int) =~= str_views(input@));
    }
    out
}

impl AppState {
    /// One round-robin pick, atomic under the caller's lock: selects the
    /// next active user, pops the head of its FIFO, advances the cursor.
    /// Returns nothing exactly when no task waits anywhere.
    pub fn next_task(&mut self) -> (r: Option<(String, Task)>)
        requires
            old(self).wf(),
        ensures
            final(self).wf(),
            match r {
                None => spec_pick(old(self)@) is None && final(self)@ == old(self)@,
                Some(p) => {
                    &&& spec_pick(old(self)@) matches Some(pick)
                    &&& p.0@ == pick.0
                    &&& p.1 == pick.1
                    &&& final(self)@ == pick.2
                },
            },
    {
        let mut active: Vec<usize> = Vec::new();
        let mut i: usize = 0;
        while i < self.users.len()
            invariant
                self@ == old(self)@,
                old(self).wf(),
                i <= self@.users.len(),
                active@.map_values(|x: usize| x as int) == active_idxs(
                    self@.users.take(i as int),
                ),
            decreases self@.users.len() - i,
        {
            let ghost before = active@;
            proof {
                assert(self@.users.take(i + 1 as int).drop_last() =~= self@.users.take(i as int));
                assert(self@.users.take(i + 1 as int).last() == self@.users[i as int]);
            }
            if self.users[i].queue.len() > 0 {
                active.push(i);
                proof {
                    assert(active@.map_values(|x: usize| x as int) =~= before.map_values(
                        |x: usize| x as int,
                    ).push(i as int));
                }
            }
            i += 1;
        }
        proof {
            assert(self@.users.take(self@.users.len() as int) =~= self@.users);
            lemma_active_idxs(self@.users);
        }
        let ghost acts = active_idxs(self@.users);
        if active.len() == 0 {
            proof {
                assert(acts.len() == active@.map_values(|x: usize| x as int).len());
            }
            return None;
        }
        let c = if self.cursor < active.len() {
            self.cursor
        } else {
            0
        };
        let idx = active[c];
        proof {
            assert(active@.map_values(|x: usize| x as int)[c as int] == idx as int);
            assert(acts[c as int] == idx as int);
            assert(idx < self@.users.len());
            assert(self@.users[idx as int].queue.len() > 0);
        }
        let user = self.users[idx].user.clone();
        let popped = self.users[idx].queue.pop_front();
        let task = popped.unwrap();
        self.cursor = c + 1;
        proof {
            let m0 = old(self)@;
            let e = m0.users[idx as int];
            let e2 = UserModel { queue: e.queue.drop_first(), ..e };
            assert(e.queue.subrange(1, e.queue.len() as int) =~= e.queue.drop_first());
            assert(self@.users =~~= m0.users.update(idx as int, e2));
            assert(spec_pick(m0) matches Some(pick) && pick.0 == e.user && pick.1 == e.queue[0]
                && pick.2 =~~= self@);
            lemma_sorted_update(m0.users, idx as int, e2);
        }
        Some((user, task))
    }

    /// Bumps `user_id`'s processed or dropped counter, creating an entry
    /// with an empty queue for a user never seen before.
    fn record(&mut self, user_id: &str, success: bool)
        requires
            old(self).wf(),
            success ==> processed_of(old(self)@, user_id@) < usize::MAX,
            !success ==> dropped_of(old(self)@, user_id@) < usize::MAX,
        ensures
            final(self).wf(),
            final(self)@ == spec_record(old(self)@, user_id@, success),
    {
        let ghost m0 = self@;
        let i = self.slot_for(user_id);
        let ghost m1 = self@;
        proof {
            lemma_find_user(m0.users, user_id@);
            if !has_user(m0.users, user_id@) {
                lemma_insert_position(m0.users, user_id@);
            }
        }
        if success {
            let v = self.users[i].processed;
            self.users[i].processed = v + 1;
        } else {
            let v = self.users[i].dropped;
            self.users[i].dropped = v + 1;
        }
        proof {
            let e1 = m1.users[i as int];
            let e2 = if success {
                UserModel { processed: e1.processed + 1, ..e1 }
            } else {
                UserModel { dropped: e1.dropped + 1, ..e1 }
            };
            assert(self@.users =~~= m1.users.update(i as int, e2));
            if has_user(m0.users, user_id@) {
                assert(self@ =~~= spec_record(m0, user_id@, success));
            } else {
                assert(self@.users =~~= m0.users.insert(
                    i as int,
                    UserModel {
                        user: user_id@,
                        queue: Seq::empty(),
                        processed: if success {
                            1nat
                        } else {
                            0nat
                        },
                        dropped: if success {
                            0nat
                        } else {
                            1nat
                        },
                    },
                ));
                assert(self@ =~~= spec_record(m0, user_id@, success));
            }
            lemma_sorted_update(m1.users, i as int, e2);
        }
    }

    /// Counts one of `user_id`'s tasks as successfully streamed.
    pub fn record_processed(&mut self, user_id: &str)
        requires
            old(self).wf(),
            processed_of(old(self)@, user_id@) < usize::MAX,
        ensures
            final(self).wf(),
            final(self)@ == spec_record(old(self)@, user_id@, true),
    {
        self.record(user_id, true);
    }

    /// Counts one of `user_id`'s tasks as failed or abandoned.
    pub fn record_dropped(&mut self, user_id: &str)
        requires
            old(self).wf(),
            dropped_of(old(self)@, user_id@) < usize::MAX,
        ensures
            final(self).wf(),
            final(self)@ == spec_record(old(self)@, user_id@, false),
    {
        self.record(user_id, false);
    }

    /// Books one finished task under the counter its ending calls for:
    /// `processed` for a cleanly completed stream, `dropped` for the rest.
    pub fn finish(&mut self, user_id: &str, end: TaskEnd)
        requires
            old(self).wf(),
            counts_as_processed(end) ==> processed_of(old(self)@, user_id@) < usize::MAX,
            !counts_as_processed(end) ==> dropped_of(old(self)@, user_id@) < usize::MAX,
        ensures
            final(self).wf(),
            final(self)@ == spec_record(old(self)@, user_id@, counts_as_processed(end)),
    {
        let ok = match end {
            TaskEnd::Completed => true,
            _ => false,
        };
        self.record(user_id, ok);
    }

    /// The check the worker runs before dispatching a dequeued task: when
    /// the client already hung up (its receiver is gone), the task is booked
    /// as dropped right away and the worker moves on; otherwise nothing
    /// changes. Whether the responder is closed depends on the client, so
    /// both outcomes are pinned down.
    pub fn preflight(&mut self, user_id: &str, task: &Task) -> (gone: bool)
        requires
            old(self).wf(),
            dropped_of(old(self)@, user_id@) < usize::MAX,
        ensures
            final(self).wf(),
            gone ==> final(self)@ == spec_record(old(self)@, user_id@, false),
            !gone ==> final(self)@ == old(self)@,
    {
        let gone = responder_is_closed(&task.responder);
        if gone {
            self.record(user_id, false);
        }
        gone
    }

    /// Lowers and returns the wake flag: true when at least one enqueue
    /// happened since the last call.
    pub fn take_wake(&mut self) -> (r: bool)
        requires
            old(self).wf(),
        ensures
            final(self).wf(),
            r == old(self)@.wake,
            final(self)@ == (SchedModel { wake: false, ..old(self)@ }),
    {
        let w = self.wake;
        self.wake = false;
        proof {
            assert(self@ =~~= SchedModel { wake: false, ..old(self)@ });
        }
        w
    }
}

impl AppState {
    /// Adds `user_id` to the blocked-user set. Persisting the set is the
    /// caller's concern and cannot fail this mutation.
    pub fn block_user(&mut self, user_id: String)
        requires
            old(self).wf(),
        ensures
            final(self).wf(),
            forall|u: Seq<char>|
                #[trigger] final(self)@.blocked_users.contains(u) <==> (
                old(self)@.blocked_users.contains(u) || u == user_id@),
            final(self)@.users == old(self)@.users,
            final(self)@.cursor == old(self)@.cursor,
            final(self)@.wake == old(self)@.wake,
            final(self)@.blocked_ips == old(self)@.blocked_ips,
            final(self)@.user_ips == old(self)@.user_ips,
            final(self)@.upstream == old(self)@.upstream,
    {
        insert_str(&mut self.blocked_users, user_id);
    }

    /// Removes `user_id` from the blocked-user set.
    pub fn unblock_user(&mut self, user_id: &str)
        requires
            old(self).wf(),
        ensures
            final(self).wf(),
            forall|u: Seq<char>|
                #[trigger] final(self)@.blocked_users.contains(u) <==> (
                old(self)@.blocked_users.contains(u) && u != user_id@),
            final(self)@.users == old(self)@.users,
            final(self)@.cursor == old(self)@.cursor,
            final(self)@.wake == old(self)@.wake,
            final(self)@.blocked_ips == old(self)@.blocked_ips,
            final(self)@.user_ips == old(self)@.user_ips,
            final(self)@.upstream == old(self)@.upstream,
    {
        remove_str(&mut self.blocked_users, user_id);
    }

    /// Adds `ip` to the blocked-address set.
    pub fn block_ip(&mut self, ip: String)
        requires
            old(self).wf(),
        ensures
            final(self).wf(),
            forall|u: Seq<char>|
                #[trigger] final(self)@.blocked_ips.contains(u) <==> (
                old(self)@.blocked_ips.contains(u) || u == ip@),
            final(self)@.users == old(self)@.users,
            final(self)@.cursor == old(self)@.cursor,
            final(self)@.wake == old(self)@.wake,
            final(self)@.blocked_users == old(self)@.blocked_users,
            final(self)@.user_ips == old(self)@.user_ips,
            final(self)@.upstream == old(self)@.upstream,
    {
        insert_str(&mut self.blocked_ips, ip);
    }

    /// Removes `ip` from the blocked-address set.
    pub fn unblock_ip(&mut self, ip: &str)
        requires
            old(self).wf(),
        ensures
            final(self).wf(),
            forall|u: Seq<char>|
                #[trigger] final(self)@.blocked_ips.contains(u) <==> (
                old(self)@.blocked_ips.contains(u) && u != ip@),
            final(self)@.users == old(self)@.users,
            final(self)@.cursor == old(self)@.cursor,
            final(self)@.wake == old(self)@.wake,
            final(self)@.blocked_users == old(self)@.blocked_users,
            final(self)@.user_ips == old(self)@.user_ips,
            final(self)@.upstream == old(self)@.upstream,
    {
        remove_str(&mut self.blocked_ips, ip);
    }

    /// Whether `user_id` is blocked.
    pub fn is_user_blocked(&self, user_id: &str) -> (r: bool)
        ensures
            r == self@.blocked_users.contains(user_id@),
    {
        vec_contains_str(&self.blocked_users, user_id)
    }

    /// Whether address `ip` is blocked.
    pub fn is_ip_blocked(&self, ip: &str) -> (r: bool)
        ensures
            r == self@.blocked_ips.contains(ip@),
    {
        vec_contains_str(&self.blocked_ips, ip)
    }

    /// The ingress decision for a request: a blocked address is refused
    /// first, then a blocked user, then an oversized body; everything else
    /// is accepted.
    pub fn admission(&self, user_id: &str, remote_ip: &str, body_len: usize) -> (r: Admission)
        ensures
            (r is BlockedIp) == self@.blocked_ips.contains(remote_ip@),
            (r is BlockedUser) == (!self@.blocked_ips.contains(remote_ip@)
                && self@.blocked_users.contains(user_id@)),
            (r is BodyTooLarge) == (!self@.blocked_ips.contains(remote_ip@)
                && !self@.blocked_users.contains(user_id@) && body_len > MAX_BODY_BYTES),
            (r is Accepted) == (!self@.blocked_ips.contains(remote_ip@)
                && !self@.blocked_users.contains(user_id@) && body_len <= MAX_BODY_BYTES),
    {
        if self.is_ip_blocked(remote_ip) {
            Admission::BlockedIp
        } else if self.is_user_blocked(user_id) {
            Admission::BlockedUser
        } else if body_len > MAX_BODY_BYTES {
            Admission::BodyTooLarge
        } else {
            Admission::Accepted
        }
    }

    /// Records `ip` as the address last seen for `user_id`.
    pub fn note_user_ip(&mut self, user_id: &str, ip: &str)
        requires
            old(self).wf(),
        ensures
            final(self).wf(),
            final(self)@ == (SchedModel {
                user_ips: spec_note_ip(old(self)@.user_ips, user_id@, ip@),
                ..old(self)@
            }),
    {
        let ghost m0 = self@;
        let mut i: usize = 0;
        while i < self.user_ips.len()
            invariant
                self@ == old(self)@,
                old(self).wf(),
                i <= self@.user_ips.len(),
                forall|j: int| 0 <= j < i ==> self@.user_ips[j].0 != user_id@,
            decreases self@.user_ips.len() - i,
        {
            let same = str_eq(user_id, self.user_ips[i].0.as_str());
            if same {
                proof {
                    lemma_ip_key_index_at(self@.user_ips, user_id@, i as int);
                }
                let ghost pre = self.user_ips@;
                self.user_ips[i] = (user_id.to_owned(), ip.to_owned());
                proof {
                    assert(self@.user_ips =~= pre.map_values(
                        |p: (String, String)| (p.0@, p.1@),
                    ).update(i as int, (user_id@, ip@)));
                    assert(self@ =~~= (SchedModel {
                        user_ips: spec_note_ip(old(self)@.user_ips, user_id@, ip@),
                        ..old(self)@
                    }));
                    assert(ip_keys(self@.user_ips) =~= ip_keys(old(self)@.user_ips));
                }
                return ;
            }
            i += 1;
        }
        proof {
            lemma_ip_key_index(self@.user_ips, user_id@);
            if ip_key_index(self@.user_ips, user_id@) >= 0 {
                assert(false);
            }
        }
        let ghost pre = self.user_ips@;
        self.user_ips.push((user_id.to_owned(), ip.to_owned()));
        proof {
            assert(self@.user_ips =~= pre.map_values(|p: (String, String)| (p.0@, p.1@)).push(
                (user_id@, ip@),
            ));
            assert(self@ =~~= (SchedModel {
                user_ips: spec_note_ip(m0.user_ips, user_id@, ip@),
                ..m0
            }));
            let ks = ip_keys(self@.user_ips);
            assert forall|a: int, b: int| 0 <= a < b < ks.len() implies ks[a] != ks[b] by {
                if b == ks.len() - 1 {
                    assert(ks[a] == m0.user_ips[a].0);
                    assert(ks[b] == user_id@);
                } else {
                    assert(ks[a] == ip_keys(m0.user_ips)[a]);
                    assert(ks[b] == ip_keys(m0.user_ips)[b]);
                }
            }
        }
    }

    /// What the ingress handler does for an accepted request: remembers the
    /// caller's address, creates the responder channel, enqueues the task,
    /// and hands back the receiver that feeds the response body.
    pub fn submit(&mut self, user_id: &str, remote_ip: &str, path: String, body: bytes::Bytes)
        -> (rx: tokio::sync::mpsc::Receiver<ChunkMsg>)
        requires
            old(self).wf(),
        ensures
            final(self).wf(),
            exists|t: Task|
                {
                    &&& #[trigger] responder_bound(t.responder) == RESPONDER_CAPACITY as nat
                    &&& t.path == path
                    &&& t.body == body
                    &&& final(self)@ == spec_enqueue(
                        SchedModel {
                            user_ips: spec_note_ip(old(self)@.user_ips, user_id@, remote_ip@),
                            ..old(self)@
                        },
                        user_id@,
                        t,
                    )
                },
    {
        self.note_user_ip(user_id, remote_ip);
        let (tx, rx) = new_responder();
        let task = Task { path, body, responder: tx };
        let ghost gt = task;
        self.enqueue(user_id, task);
        proof {
            assert(responder_bound(gt.responder) == RESPONDER_CAPACITY as nat);
        }
        rx
    }

    /// The whole ingress decision for one buffered request: screen it, and
    /// only when it is accepted remember the address, enqueue a task and
    /// hand back the receiver that feeds the response body. A rejected
    /// request changes nothing and opens no channel.
    pub fn handle_request(
        &mut self,
        user_id: &str,
        remote_ip: &str,
        path: String,
        body: bytes::Bytes,
    ) -> (r: (Admission, Option<tokio::sync::mpsc::Receiver<ChunkMsg>>))
        requires
            old(self).wf(),
        ensures
            final(self).wf(),
            (r.0 is BlockedIp) == old(self)@.blocked_ips.contains(remote_ip@),
            (r.0 is BlockedUser) == (!old(self)@.blocked_ips.contains(remote_ip@)
                && old(self)@.blocked_users.contains(user_id@)),
            (r.0 is BodyTooLarge) == (!old(self)@.blocked_ips.contains(remote_ip@)
                && !old(self)@.blocked_users.contains(user_id@) && bytes_view(body).len()
                > MAX_BODY_BYTES as nat),
            (r.0 is Accepted) == (!old(self)@.blocked_ips.contains(remote_ip@)
                && !old(self)@.blocked_users.contains(user_id@) && bytes_view(body).len()
                <= MAX_BODY_BYTES as nat),
            !(r.0 is Accepted) ==> final(self)@ == old(self)@ && (r.1 is None),
            (r.0 is Accepted) ==> (r.1 is Some) && exists|t: Task|
                {
                    &&& #[trigger] responder_bound(t.responder) == RESPONDER_CAPACITY as nat
                    &&& t.path == path
                    &&& t.body == body
                    &&& final(self)@ == spec_enqueue(
                        SchedModel {
                            user_ips: spec_note_ip(old(self)@.user_ips, user_id@, remote_ip@),
                            ..old(self)@
                        },
                        user_id@,
                        t,
                    )
                },
    {
        let size = bytes_size(&body);
        let decision = self.admission(user_id, remote_ip, size);
        match decision {
            Admission::Accepted => {
                let rx = self.submit(user_id, remote_ip, path, body);
                (decision, Some(rx))
            },
            _ => (decision, None),
        }
    }

    /// The URL the worker calls for a task: the upstream base joined with
    /// the task's path.
    pub fn upstream_url(&self, path: &str) -> (r: String)
        ensures
            r@ == self@.upstream + path@,
    {
        self.ollama_url.clone().concat(path)
    }

    /// The first index holding `user_id`, if the user is known.
    fn find_slot(&self, user_id: &str) -> (r: Option<usize>)
        ensures
            match r {
                Some(i) => i as int == find_user(self@.users, user_id@),
                None => !has_user(self@.users, user_id@),
            },
    {
        let mut i: usize = 0;
        while i < self.users.len()
            invariant
                i <= self@.users.len(),
                forall|j: int| 0 <= j < i ==> self@.users[j].user != user_id@,
            decreases self@.users.len() - i,
        {
            if str_eq(user_id, self.users[i].user.as_str()) {
                proof {
                    lemma_find_user_at(self@.users, user_id@, i as int);
                }
                return Some(i);
            }
            i += 1;
        }
        proof {
            lemma_find_user_absent(self@.users, user_id@);
        }
        None
    }

    /// How many tasks wait in `user_id`'s queue.
    pub fn queue_len(&self, user_id: &str) -> (n: usize)
        ensures
            n as nat == queue_of(self@, user_id@).len(),
    {
        match self.find_slot(user_id) {
            Some(i) => {
                proof {
                    lemma_find_user(self@.users, user_id@);
                }
                self.users[i].queue.len()
            },
            None => 0,
        }
    }

    /// How many of `user_id`'s tasks completed successfully.
    pub fn processed_count(&self, user_id: &str) -> (n: usize)
        ensures
            n as nat == processed_of(self@, user_id@),
    {
        match self.find_slot(user_id) {
            Some(i) => {
                proof {
                    lemma_find_user(self@.users, user_id@);
                }
                self.users[i].processed
            },
            None => 0,
        }
    }

    /// How many of `user_id`'s tasks were dropped.
    pub fn dropped_count(&self, user_id: &str) -> (n: usize)
        ensures
            n as nat == dropped_of(self@, user_id@),
    {
        match self.find_slot(user_id) {
            Some(i) => {
                proof {
                    lemma_find_user(self@.users, user_id@);
                }
                self.users[i].dropped
            },
            None => 0,
        }
    }

    /// The read-only view the dashboard renders: per user the queue length
    /// and both counters, plus exact aggregate totals.
    pub fn snapshot(&self) -> (snap: Snapshot)
        ensures
            snap.users@.len() == self@.users.len(),
            forall|i: int|
                0 <= i < self@.users.len() ==> {
                    &&& (#[trigger] snap.users@[i]).user@ == self@.users[i].user
                    &&& snap.users@[i].queue_len as nat == self@.users[i].queue.len()
                    &&& snap.users@[i].processed as nat == self@.users[i].processed
                    &&& snap.users@[i].dropped as nat == self@.users[i].dropped
                },
            snap.user_count as nat == self@.users.len(),
            snap.total_queued as nat == sum_queued(self@.users),
            snap.total_processed as nat == sum_processed(self@.users),
            snap.total_dropped as nat == sum_dropped(self@.users),
    {
        let ghost mu = self@.users;
        let mut rows: Vec<UserStat> = Vec::new();
        let mut tq: u128 = 0;
        let mut tp: u128 = 0;
        let mut td: u128 = 0;
        let mut i: usize = 0;
        while i < self.users.len()
            invariant
                mu == self@.users,
                i <= mu.len(),
                rows@.len() == i,
                forall|j: int|
                    0 <= j < i ==> {
                        &&& (#[trigger] rows@[j]).user@ == mu[j].user
                        &&& rows@[j].queue_len as nat == mu[j].queue.len()
                        &&& rows@[j].processed as nat == mu[j].processed
                        &&& rows@[j].dropped as nat == mu[j].dropped
                    },
                tq as nat == sum_queued(mu.take(i as int)),
                tp as nat == sum_processed(mu.take(i as int)),
                td as nat == sum_dropped(mu.take(i as int)),
                tq as int <= i as int * (usize::MAX as int),
                tp as int <= i as int * (usize::MAX as int),
                td as int <= i as int * (usize::MAX as int),
            decreases mu.len() - i,
        {
            proof {
                assert(mu.take(i + 1 as int).drop_last() =~= mu.take(i as int));
                assert(mu.take(i + 1 as int).last() == mu[i as int]);
                assert((i as int + 1) * (usize::MAX as int) == i as int * (usize::MAX as int)
                    + usize::MAX as int) by (nonlinear_arith);
                assert(i as int * (usize::MAX as int) + usize::MAX as int <= (usize::MAX as int)
                    * (usize::MAX as int) + usize::MAX as int) by (nonlinear_arith)
                    requires
                        0 <= i as int <= usize::MAX as int,
                ;
            }
            let e_queue_len = self.users[i].queue.len();
            let e_processed = self.users[i].processed;
            let e_dropped = self.users[i].dropped;
            rows.push(
                UserStat {
                    user: self.users[i].user.clone(),
                    queue_len: e_queue_len,
                    processed: e_processed,
                    dropped: e_dropped,
                },
            );
            tq = tq + e_queue_len as u128;
            tp = tp + e_processed as u128;
            td = td + e_dropped as u128;
            i += 1;
        }
        proof {
            assert(mu.take(mu.len() as int) =~= mu);
        }
        let n = self.users.len();
        Snapshot { users: rows, user_count: n, total_queued: tq, total_processed: tp,
            total_dropped: td }
    }
}

/// The user a request belongs to: the identity header when one is given,
/// the anonymous identity otherwise.
pub fn resolve_user_id(header: Option<&str>) -> (r: String)
    ensures
        match header {
            Some(h) => r@ == h@,
            None => r@ == "anonymous"@,
        },
{
    match header {
        Some(h) => h.to_owned(),
        None => "anonymous".to_owned(),
    }
}

/// Whether the worker must treat an upstream response with this HTTP
/// status as a failure rather than stream its body.
pub fn upstream_status_fails(status: u16) -> (r: bool)
    ensures
        r == spec_upstream_status_fails(status),
{
    status >= 400
}

/// Whether `path` is one of the upstream-compatible routes the proxy
/// forwards.
pub fn is_supported_path(path: &str) -> (r: bool)
    ensures
        r == spec_supported_path(path@),
{
    str_eq(path, "/api/generate") || str_eq(path, "/api/chat") || str_eq(
        path,
        "/v1/chat/completions",
    ) || str_eq(path, "/v1/completions")
}

impl Admission {
    /// The HTTP status the decision maps to.
    pub fn status_code(&self) -> (c: u16)
        ensures
            self is Accepted ==> c == 200,
            self is BlockedIp ==> c == 403,
            self is BlockedUser ==> c == 403,
            self is BodyTooLarge ==> c == 413,
    {
        match self {
            Admission::Accepted => 200,
            Admission::BlockedIp => 403,
            Admission::BlockedUser => 403,
            Admission::BodyTooLarge => 413,
        }
    }

    /// The short textual reason a rejected request is answered with.
    pub fn reason(&self) -> (r: String)
        ensures
            self is Accepted ==> r@ == ""@,
            self is BlockedIp ==> r@ == "IP blocked"@,
            self is BlockedUser ==> r@ == "User blocked"@,
            self is BodyTooLarge ==> r@ == "Body too large"@,
    {
        match self {
            Admission::Accepted => "".to_owned(),
            Admission::BlockedIp => "IP blocked".to_owned(),
            Admission::BlockedUser => "User blocked".to_owned(),
            Admission::BodyTooLarge => "Body too large".to_owned(),
        }
    }
}

} // verus!
