use ollamamq::dispatcher::{upstream_status_fails, Admission, AppState, Task, TaskEnd, MAX_BODY_BYTES};
use ollamamq::responder::ChunkMsg;
use tokio::sync::mpsc::Receiver;

fn fresh() -> AppState {
    AppState::new("http://localhost:11434".to_string(), Vec::new(), Vec::new())
}

fn make_task(path: &str) -> (Task, Receiver<ChunkMsg>) {
    let (tx, rx) = tokio::sync::mpsc::channel(32);
    let task = Task {
        path: path.to_string(),
        body: bytes::Bytes::from_static(b"{\"prompt\":\"hi\"}"),
        responder: tx,
    };
    (task, rx)
}

#[test]
fn empty_state_has_nothing_to_pick() {
    let mut st = fresh();
    assert!(st.next_task().is_none());
    assert_eq!(st.queue_len("alice"), 0);
    assert_eq!(st.processed_count("alice"), 0);
    assert_eq!(st.dropped_count("alice"), 0);
}

#[test]
fn fifo_per_user() {
    let mut st = fresh();
    let mut receivers = Vec::new();
    for p in ["/api/generate", "/api/chat", "/v1/completions"].iter() {
        let (task, rx) = make_task(p);
        st.enqueue("carol", task);
        receivers.push(rx);
    }
    assert_eq!(st.queue_len("carol"), 3);
    let (u1, t1) = st.next_task().unwrap();
    let (u2, t2) = st.next_task().unwrap();
    let (u3, t3) = st.next_task().unwrap();
    assert_eq!(u1.as_str(), "carol");
    assert_eq!(u2.as_str(), "carol");
    assert_eq!(u3.as_str(), "carol");
    assert_eq!(t1.path.as_str(), "/api/generate");
    assert_eq!(t2.path.as_str(), "/api/chat");
    assert_eq!(t3.path.as_str(), "/v1/completions");
    assert!(st.next_task().is_none());
}

#[test]
fn two_user_alternation() {
    let mut st = fresh();
    let mut receivers = Vec::new();
    for _ in 0..4 {
        let (task, rx) = make_task("/api/generate");
        st.enqueue("alice", task);
        receivers.push(rx);
        let (task, rx) = make_task("/api/generate");
        st.enqueue("bob", task);
        receivers.push(rx);
    }
    let mut order = Vec::new();
    while let Some((user, task)) = st.next_task() {
        assert!(!st.preflight(&user, &task));
        st.finish(&user, TaskEnd::Completed);
        order.push(user);
    }
    let names: Vec<&str> = order.iter().map(|s| s.as_str()).collect();
    assert_eq!(
        names,
        vec!["alice", "bob", "alice", "bob", "alice", "bob", "alice", "bob"]
    );
    assert_eq!(st.processed_count("alice"), 4);
    assert_eq!(st.processed_count("bob"), 4);
    assert_eq!(st.dropped_count("alice"), 0);
    assert_eq!(st.dropped_count("bob"), 0);
}

#[test]
fn round_robin_three_users() {
    let mut st = fresh();
    let mut receivers = Vec::new();
    // enqueue in scrambled order; the schedule walks user ids in order
    for user in ["charlie", "alice", "bob", "charlie", "bob", "alice"].iter() {
        let (task, rx) = make_task("/api/chat");
        st.enqueue(user, task);
        receivers.push(rx);
    }
    let mut order = Vec::new();
    while let Some((user, _task)) = st.next_task() {
        st.finish(&user, TaskEnd::Completed);
        order.push(user);
    }
    let names: Vec<&str> = order.iter().map(|s| s.as_str()).collect();
    // while all three stay active, one full window serves each user once,
    // in id order; afterwards queues drain, the active list shrinks, and
    // the free-running cursor keeps rotating over what is left
    assert_eq!(&names[..3], &["alice", "bob", "charlie"]);
    assert_eq!(names.iter().filter(|n| **n == "alice").count(), 2);
    assert_eq!(names.iter().filter(|n| **n == "bob").count(), 2);
    assert_eq!(names.iter().filter(|n| **n == "charlie").count(), 2);
}

#[test]
fn starvation_resistance() {
    let mut st = fresh();
    let mut receivers = Vec::new();
    for _ in 0..100 {
        let (task, rx) = make_task("/api/generate");
        st.enqueue("zoe", task);
        receivers.push(rx);
    }
    // the worker has already served zoe twice when adam shows up
    for _ in 0..2 {
        let (user, _task) = st.next_task().unwrap();
        assert_eq!(user.as_str(), "zoe");
        st.finish(&user, TaskEnd::Completed);
    }
    let (task, rx) = make_task("/api/generate");
    st.enqueue("adam", task);
    receivers.push(rx);
    // adam's task is dispatched within at most two picks
    let mut picks_until_adam = 0;
    loop {
        let (user, _task) = st.next_task().unwrap();
        picks_until_adam += 1;
        st.finish(&user, TaskEnd::Completed);
        if user.as_str() == "adam" {
            break;
        }
    }
    assert!(picks_until_adam <= 2, "adam served after {} picks", picks_until_adam);
}

#[test]
fn client_disconnect_mid_queue() {
    let mut st = fresh();
    let rx1 = st.submit(
        "carol",
        "127.0.0.1",
        "/api/generate".to_string(),
        bytes::Bytes::from_static(b"one"),
    );
    let rx2 = st.submit(
        "carol",
        "127.0.0.1",
        "/api/generate".to_string(),
        bytes::Bytes::from_static(b"two"),
    );
    let rx3 = st.submit(
        "carol",
        "127.0.0.1",
        "/api/generate".to_string(),
        bytes::Bytes::from_static(b"three"),
    );
    // the client of the second task goes away while it still queues
    drop(rx2);

    let (user, task) = st.next_task().unwrap();
    assert!(!st.preflight(&user, &task));
    st.finish(&user, TaskEnd::Completed);

    let (user, task) = st.next_task().unwrap();
    assert!(st.preflight(&user, &task), "closed responder must be seen");

    let (user, task) = st.next_task().unwrap();
    assert!(!st.preflight(&user, &task));
    st.finish(&user, TaskEnd::Completed);

    assert!(st.next_task().is_none());
    assert_eq!(st.processed_count("carol"), 2);
    assert_eq!(st.dropped_count("carol"), 1);
    drop(rx1);
    drop(rx3);
}

#[test]
fn client_disconnect_mid_stream_is_a_drop() {
    let mut st = fresh();
    let rx = st.submit(
        "dan",
        "127.0.0.1",
        "/api/generate".to_string(),
        bytes::Bytes::from_static(b"x"),
    );
    let (user, task) = st.next_task().unwrap();
    assert!(!st.preflight(&user, &task));
    // the worker's send fails mid-stream once the client is gone
    drop(rx);
    assert!(task.responder.is_closed());
    st.finish(&user, TaskEnd::ClientGoneStreaming);
    assert_eq!(st.processed_count("dan"), 0);
    assert_eq!(st.dropped_count("dan"), 1);
    // later tasks proceed normally
    let rx = st.submit(
        "dan",
        "127.0.0.1",
        "/api/generate".to_string(),
        bytes::Bytes::from_static(b"y"),
    );
    let (user, task) = st.next_task().unwrap();
    assert!(!st.preflight(&user, &task));
    st.finish(&user, TaskEnd::Completed);
    assert_eq!(st.processed_count("dan"), 1);
    assert_eq!(st.dropped_count("dan"), 1);
    drop(rx);
    drop(task);
}

#[test]
fn upstream_failure_is_a_drop() {
    let mut st = fresh();
    let rx = st.submit(
        "eve",
        "127.0.0.1",
        "/api/generate".to_string(),
        bytes::Bytes::from_static(b"x"),
    );
    let (user, task) = st.next_task().unwrap();
    assert!(!st.preflight(&user, &task));
    // the upstream answers with an error before any body: the worker sends
    // the error marker and records a drop
    assert!(task.responder.try_send(ChunkMsg::UpstreamError).is_ok());
    st.finish(&user, TaskEnd::UpstreamFailed);
    assert_eq!(st.processed_count("eve"), 0);
    assert_eq!(st.dropped_count("eve"), 1);
    drop(rx);
}

#[test]
fn upstream_truncation_is_a_drop() {
    let mut st = fresh();
    let (task, _rx) = make_task("/api/chat");
    st.enqueue("erin", task);
    let (user, _task) = st.next_task().unwrap();
    st.finish(&user, TaskEnd::UpstreamTruncated);
    assert_eq!(st.processed_count("erin"), 0);
    assert_eq!(st.dropped_count("erin"), 1);
}

#[test]
fn client_gone_while_waiting_is_a_drop() {
    let mut st = fresh();
    let (task, rx) = make_task("/api/chat");
    st.enqueue("fay", task);
    let (user, _task) = st.next_task().unwrap();
    drop(rx);
    st.finish(&user, TaskEnd::ClientGoneWaiting);
    assert_eq!(st.processed_count("fay"), 0);
    assert_eq!(st.dropped_count("fay"), 1);
}

#[test]
fn blocklist_rejects_before_enqueue() {
    let mut st = fresh();
    st.block_user("frank".to_string());
    assert!(st.is_user_blocked("frank"));
    let a = st.admission("frank", "10.0.0.9", 4);
    assert_eq!(a, Admission::BlockedUser);
    assert_eq!(a.status_code(), 403);
    assert_eq!(a.reason().as_str(), "User blocked");
    // no enqueue happened, counters untouched
    assert_eq!(st.queue_len("frank"), 0);
    assert_eq!(st.processed_count("frank"), 0);
    assert_eq!(st.dropped_count("frank"), 0);
    assert!(st.next_task().is_none());
}

#[test]
fn blocked_address_wins_over_blocked_user() {
    let mut st = fresh();
    st.block_user("gina".to_string());
    st.block_ip("10.0.0.7".to_string());
    let a = st.admission("gina", "10.0.0.7", 4);
    assert_eq!(a, Admission::BlockedIp);
    assert_eq!(a.status_code(), 403);
    assert_eq!(a.reason().as_str(), "IP blocked");
}

#[test]
fn oversized_body_is_rejected() {
    let st = fresh();
    assert_eq!(st.admission("al", "127.0.0.1", MAX_BODY_BYTES), Admission::Accepted);
    let a = st.admission("al", "127.0.0.1", MAX_BODY_BYTES + 1);
    assert_eq!(a, Admission::BodyTooLarge);
    assert_eq!(a.status_code(), 413);
}

#[test]
fn unblock_restores_access() {
    let mut st = fresh();
    st.block_user("hal".to_string());
    st.block_user("hal".to_string());
    assert!(st.is_user_blocked("hal"));
    st.unblock_user("hal");
    assert!(!st.is_user_blocked("hal"));
    assert_eq!(st.admission("hal", "127.0.0.1", 1), Admission::Accepted);

    st.block_ip("10.1.1.1".to_string());
    assert!(st.is_ip_blocked("10.1.1.1"));
    st.unblock_ip("10.1.1.1");
    assert!(!st.is_ip_blocked("10.1.1.1"));
}

#[test]
fn blocklists_survive_construction() {
    let st = AppState::new(
        "http://localhost:11434".to_string(),
        vec!["10.0.0.1".to_string(), "10.0.0.1".to_string()],
        vec!["mallory".to_string()],
    );
    assert!(st.is_ip_blocked("10.0.0.1"));
    assert!(st.is_user_blocked("mallory"));
    assert!(!st.is_user_blocked("alice"));
}

#[test]
fn wake_flag_follows_enqueues() {
    let mut st = fresh();
    assert!(!st.take_wake());
    let (task, _rx) = make_task("/api/generate");
    st.enqueue("ivy", task);
    assert!(st.take_wake());
    assert!(!st.take_wake());
    // after the wake, a pick is owed
    assert!(st.next_task().is_some());
}

#[test]
fn responder_channel_buffers_thirty_two_chunks() {
    let mut st = fresh();
    let rx = st.submit(
        "jon",
        "127.0.0.1",
        "/api/generate".to_string(),
        bytes::Bytes::from_static(b"x"),
    );
    let (_user, task) = st.next_task().unwrap();
    for i in 0..32 {
        let sent = task.responder.try_send(ChunkMsg::Data(bytes::Bytes::from_static(b"c")));
        assert!(sent.is_ok(), "chunk {} must fit in the buffer", i);
    }
    let overflow = task.responder.try_send(ChunkMsg::Data(bytes::Bytes::from_static(b"c")));
    assert!(overflow.is_err(), "the thirty-third chunk must not fit");
    drop(rx);
}

#[test]
fn snapshot_reports_counts_and_totals() {
    let mut st = fresh();
    let mut receivers = Vec::new();
    for _ in 0..3 {
        let (task, rx) = make_task("/api/generate");
        st.enqueue("alice", task);
        receivers.push(rx);
    }
    let (task, rx) = make_task("/api/chat");
    st.enqueue("bob", task);
    receivers.push(rx);

    let (user, _task) = st.next_task().unwrap();
    assert_eq!(user.as_str(), "alice");
    st.finish(&user, TaskEnd::Completed);
    let (user, _task) = st.next_task().unwrap();
    assert_eq!(user.as_str(), "bob");
    st.finish(&user, TaskEnd::UpstreamFailed);

    let snap = st.snapshot();
    assert_eq!(snap.user_count, 2);
    assert_eq!(snap.users.len(), 2);
    assert_eq!(snap.users[0].user.as_str(), "alice");
    assert_eq!(snap.users[0].queue_len, 2);
    assert_eq!(snap.users[0].processed, 1);
    assert_eq!(snap.users[0].dropped, 0);
    assert_eq!(snap.users[1].user.as_str(), "bob");
    assert_eq!(snap.users[1].queue_len, 0);
    assert_eq!(snap.users[1].processed, 0);
    assert_eq!(snap.users[1].dropped, 1);
    assert_eq!(snap.total_queued, 2);
    assert_eq!(snap.total_processed, 1);
    assert_eq!(snap.total_dropped, 1);
}

#[test]
fn upstream_error_statuses() {
    assert!(!upstream_status_fails(200));
    assert!(!upstream_status_fails(204));
    assert!(!upstream_status_fails(399));
    assert!(upstream_status_fails(400));
    assert!(upstream_status_fails(403));
    assert!(upstream_status_fails(404));
    assert!(upstream_status_fails(500));
    assert!(upstream_status_fails(503));
}

#[test]
fn rejected_request_changes_nothing() {
    let mut st = fresh();
    st.block_user("frank".to_string());
    // a task already queued for someone else, so the state is not trivial
    let keep = st.submit(
        "alice",
        "127.0.0.1",
        "/api/generate".to_string(),
        bytes::Bytes::from_static(b"x"),
    );
    let before = st.snapshot();

    let (decision, rx) = st.handle_request(
        "frank",
        "10.0.0.9",
        "/api/generate".to_string(),
        bytes::Bytes::from_static(b"y"),
    );
    assert_eq!(decision, Admission::BlockedUser);
    assert!(rx.is_none(), "a rejected request opens no channel");

    let after = st.snapshot();
    assert_eq!(after.user_count, before.user_count);
    assert_eq!(after.total_queued, before.total_queued);
    assert_eq!(after.total_processed, before.total_processed);
    assert_eq!(after.total_dropped, before.total_dropped);
    assert_eq!(st.queue_len("frank"), 0);
    assert_eq!(st.processed_count("frank"), 0);
    assert_eq!(st.dropped_count("frank"), 0);
    drop(keep);
}

#[test]
fn oversized_request_changes_nothing() {
    let mut st = fresh();
    let before = st.snapshot();
    let big = bytes::Bytes::from(vec![0u8; MAX_BODY_BYTES + 1]);
    let (decision, rx) = st.handle_request("al", "127.0.0.1", "/api/chat".to_string(), big);
    assert_eq!(decision, Admission::BodyTooLarge);
    assert!(rx.is_none());
    let after = st.snapshot();
    assert_eq!(after.user_count, before.user_count);
    assert_eq!(after.total_queued, before.total_queued);
    assert!(st.next_task().is_none());
}

#[test]
fn accepted_request_is_enqueued() {
    let mut st = fresh();
    let (decision, rx) = st.handle_request(
        "alice",
        "127.0.0.1",
        "/api/generate".to_string(),
        bytes::Bytes::from_static(b"z"),
    );
    assert_eq!(decision, Admission::Accepted);
    assert!(rx.is_some());
    assert_eq!(st.queue_len("alice"), 1);
    let (user, task) = st.next_task().unwrap();
    assert_eq!(user.as_str(), "alice");
    assert_eq!(task.path.as_str(), "/api/generate");
    drop(rx);
}

#[test]
fn upstream_url_joins_base_and_path() {
    let st = fresh();
    assert_eq!(
        st.upstream_url("/api/generate").as_str(),
        "http://localhost:11434/api/generate"
    );
}
