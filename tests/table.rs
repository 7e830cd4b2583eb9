use rust_ws::lifecycle::advance;
use rust_ws::{
    ConnectionError, ConnectionEvent, ConnectionTable, Notice, Outcome, Phase, Progress, Received,
    Target, Written,
};

fn s(text: &str) -> String {
    text.to_string()
}

fn ready_table(now: u64) -> (ConnectionTable, String) {
    let mut t = ConnectionTable::new();
    let id = t.register(now).unwrap();
    assert!(t.tick(&id, Outcome::Handshake(Progress::Complete), now));
    assert!(t.tick(&id, Outcome::Handshake(Progress::Complete), now));
    assert_eq!(t.take_events(), vec![ConnectionEvent::Connect(id.clone())]);
    (t, id)
}

#[test]
fn ids_count_up_from_one() {
    let mut t = ConnectionTable::new();
    assert_eq!(t.register(0).unwrap(), "ws1");
    assert_eq!(t.register(0).unwrap(), "ws2");
    assert_eq!(t.ids(), vec![s("ws1"), s("ws2")]);
    assert_eq!(t.phase_of(&s("ws2")), Some(Phase::Connecting));
    assert_eq!(t.phase_of(&s("ws3")), None);
}

#[test]
fn ids_run_out_at_the_largest_number() {
    let mut t = ConnectionTable::new();
    t.next_number = u64::MAX;
    assert!(t.register(0).is_err());
    t.next_number = u64::MAX - 1;
    assert_eq!(t.register(0).unwrap(), format!("ws{}", u64::MAX - 1));
}

#[test]
fn handshakes_in_three_ticks_give_one_connected() {
    let mut t = ConnectionTable::new();
    let id = t.register(0).unwrap();
    let mut events = Vec::new();
    assert!(t.tick(&id, Outcome::Handshake(Progress::Incomplete), 1));
    assert_eq!(t.phase_of(&id), Some(Phase::TlsHandshaking));
    events.extend(t.take_events());
    assert!(t.tick(&id, Outcome::Handshake(Progress::Complete), 2));
    assert_eq!(t.phase_of(&id), Some(Phase::TlsReady));
    events.extend(t.take_events());
    assert!(t.tick(&id, Outcome::Handshake(Progress::Complete), 3));
    assert_eq!(t.phase_of(&id), Some(Phase::Ready));
    events.extend(t.take_events());
    assert_eq!(events, vec![ConnectionEvent::Connect(id)]);
}

#[test]
fn resumed_handshake_that_would_block_is_no_progress() {
    let mut t = ConnectionTable::new();
    let id = t.register(0).unwrap();
    assert!(t.tick(&id, Outcome::Handshake(Progress::Incomplete), 1));
    assert!(!t.tick(&id, Outcome::Handshake(Progress::Incomplete), 2));
    assert_eq!(t.phase_of(&id), Some(Phase::TlsHandshaking));
    assert_eq!(t.entries[0].last_activity, 1);
    assert!(t.tick(&id, Outcome::Handshake(Progress::Complete), 3));
    assert!(t.tick(&id, Outcome::Handshake(Progress::Incomplete), 4));
    assert_eq!(t.phase_of(&id), Some(Phase::WsHandshaking));
    assert!(t.take_events().is_empty());
}

#[test]
fn send_before_ready_is_dropped_with_an_error() {
    let mut t = ConnectionTable::new();
    let id = t.register(0).unwrap();
    assert!(t.tick(&id, Outcome::Handshake(Progress::Incomplete), 1));
    t.queue_send(vec![id.clone()], b"hello".to_vec());
    t.route_sends();
    assert_eq!(
        t.take_events(),
        vec![ConnectionEvent::ConnectionError(
            id.clone(),
            ConnectionError(s("connection not ready: ws1"))
        )]
    );
    assert_eq!(t.next_payload(&id), None);
    assert!(t.pending.is_empty());
}

#[test]
fn text_frame_gives_one_message() {
    let (mut t, id) = ready_table(0);
    assert!(t.tick(&id, Outcome::Read(Received::Payload(b"ping-test".to_vec())), 10));
    assert_eq!(t.take_events(), vec![ConnectionEvent::Message(id.clone(), b"ping-test".to_vec())]);
    assert_eq!(t.entries[0].last_activity, 10);
}

#[test]
fn unknown_id_fails_close_and_drops_send() {
    let mut t = ConnectionTable::new();
    assert_eq!(t.close(&s("ws9")), Err(ConnectionError(s("unknown connection: ws9"))));
    t.queue_send(vec![s("ws9")], b"x".to_vec());
    t.route_sends();
    assert_eq!(
        t.take_events(),
        vec![ConnectionEvent::ConnectionError(s("ws9"), ConnectionError(s("unknown connection: ws9")))]
    );
}

#[test]
fn close_twice_gives_one_close_event() {
    let (mut t, id) = ready_table(0);
    assert_eq!(t.close(&id), Ok(true));
    assert_eq!(t.close(&id), Ok(false));
    assert!(t.take_events().is_empty());
    assert_eq!(t.sweep(1), vec![id.clone()]);
    assert_eq!(t.take_events(), vec![ConnectionEvent::Close(id.clone())]);
    assert!(t.entries.is_empty());
    assert!(t.close(&id).is_err());
    assert!(t.sweep(2).is_empty());
    assert!(t.take_events().is_empty());
}

#[test]
fn idle_connection_times_out_without_error() {
    let (mut t, id) = ready_table(100);
    assert!(t.sweep(600).is_empty());
    assert!(t.take_events().is_empty());
    assert_eq!(t.sweep(601), vec![id.clone()]);
    assert_eq!(t.take_events(), vec![ConnectionEvent::Close(id)]);
    assert!(t.entries.is_empty());
}

#[test]
fn accepted_payload_is_written_once() {
    let (mut t, id) = ready_table(0);
    t.queue_send(vec![id.clone(), id.clone()], b"hello".to_vec());
    t.queue_send(vec![id.clone()], b"second".to_vec());
    t.route_sends();
    assert!(t.take_events().is_empty());
    assert_eq!(t.next_payload(&id), Some(b"hello".to_vec()));
    assert!(!t.tick(&id, Outcome::Sent(Written::WouldBlock), 1));
    assert_eq!(t.pending.len(), 3);
    assert!(!t.tick(&id, Outcome::Sent(Written::Accepted), 2));
    assert_eq!(t.pending.len(), 2);
    assert_eq!(t.next_payload(&id), Some(b"hello".to_vec()));
    assert!(!t.tick(&id, Outcome::Sent(Written::Accepted), 3));
    assert_eq!(t.next_payload(&id), Some(b"second".to_vec()));
    assert!(!t.tick(&id, Outcome::Sent(Written::Accepted), 4));
    assert_eq!(t.next_payload(&id), None);
}

#[test]
fn ping_is_due_past_the_threshold_in_steady_state() {
    let (mut t, id) = ready_table(1000);
    assert!(!t.ping_due(&id, 1200));
    assert!(t.ping_due(&id, 1201));
    assert!(!t.tick(&id, Outcome::Ping(Written::Accepted), 1201));
    assert!(t.ping_due(&id, 1300));
    assert!(t.tick(&id, Outcome::Read(Received::Control), 1300));
    assert!(!t.ping_due(&id, 1300));
    assert!(t.take_events().is_empty());
    let mut u = ConnectionTable::new();
    let other = u.register(0).unwrap();
    assert!(!u.ping_due(&other, 1000));
}

#[test]
fn error_comes_once_and_before_close() {
    let (mut t, id) = ready_table(0);
    let e = ConnectionError(s("broken pipe"));
    assert!(t.tick(&id, Outcome::Read(Received::Failed(e.clone())), 5));
    assert!(!t.tick(&id, Outcome::Read(Received::Failed(e.clone())), 6));
    t.sweep(7);
    assert_eq!(
        t.take_events(),
        vec![ConnectionEvent::ConnectionError(id.clone(), e), ConnectionEvent::Close(id)]
    );
}

#[test]
fn peer_close_gives_close_without_error() {
    let (mut t, id) = ready_table(0);
    assert!(t.tick(&id, Outcome::Read(Received::PeerClosed), 5));
    assert_eq!(t.sweep(6), vec![id.clone()]);
    assert_eq!(t.take_events(), vec![ConnectionEvent::Close(id)]);
}

#[test]
fn handshake_failure_closes_with_an_error() {
    let mut t = ConnectionTable::new();
    let id = t.register(0).unwrap();
    let e = ConnectionError(s("handshake failed"));
    assert!(t.tick(&id, Outcome::Handshake(Progress::Failed(e.clone())), 1));
    assert_eq!(t.phase_of(&id), Some(Phase::Closed));
    t.sweep(2);
    assert_eq!(
        t.take_events(),
        vec![ConnectionEvent::ConnectionError(id.clone(), e), ConnectionEvent::Close(id)]
    );
}

#[test]
fn reads_before_ready_change_nothing() {
    let mut t = ConnectionTable::new();
    let id = t.register(0).unwrap();
    assert!(!t.tick(&id, Outcome::Read(Received::Payload(b"early".to_vec())), 1));
    assert_eq!(t.phase_of(&id), Some(Phase::Connecting));
    assert!(t.take_events().is_empty());
    assert!(!t.tick(&s("ws7"), Outcome::Handshake(Progress::Complete), 1));
}

#[test]
fn advance_follows_the_phases() {
    let (p, n, w) = advance(Phase::WsHandshaking, Outcome::Handshake(Progress::Complete));
    assert_eq!(p, Phase::Ready);
    assert!(matches!(n, Some(Notice::Connected)));
    assert!(w);
    let (p, n, w) = advance(Phase::Closed, Outcome::Read(Received::Control));
    assert_eq!(p, Phase::Closed);
    assert!(n.is_none());
    assert!(!w);
    let (p, n, w) = advance(Phase::Ready, Outcome::Sent(Written::Failed(ConnectionError(s("x")))));
    assert_eq!(p, Phase::Closed);
    assert!(matches!(n, Some(Notice::Error(_))));
    assert!(w);
}

#[test]
fn target_of_wss_uri_with_port() {
    let t = Target::resolve("wss://host:443/path").unwrap();
    assert_eq!(t.host, "host");
    assert_eq!(t.port, 443);
    assert_eq!(t.host_port(), "host:443");
}

#[test]
fn target_port_defaults_by_scheme() {
    let t = Target::resolve("wss://127.0.0.1/").unwrap();
    assert_eq!(t.host_port(), "127.0.0.1:443");
    let t = Target::resolve("ws://example.com:2794/chat").unwrap();
    assert_eq!(t.host_port(), "example.com:2794");
}

#[test]
fn target_errors() {
    assert!(Target::resolve("not a uri").unwrap_err().message().starts_with("invalid uri: "));
    assert!(Target::resolve("not a uri").unwrap_err().message().len() > "invalid uri: ".len());
    assert_eq!(
        Target::resolve("unix:/run/foo.socket").unwrap_err(),
        ConnectionError(s("bad connect host"))
    );
    assert_eq!(
        Target::resolve("foo://example.com").unwrap_err(),
        ConnectionError(s("bad connect port"))
    );
    assert_eq!(
        Target::from_parts(Some(s("h")), None).unwrap_err(),
        ConnectionError(s("bad connect port"))
    );
    assert_eq!(Target::from_parts(Some(s("h")), Some(0)).unwrap().host_port(), "h:0");
}

#[test]
fn handshakes_have_no_timeout() {
    let mut t = ConnectionTable::new();
    let id = t.register(0).unwrap();
    assert!(t.tick(&id, Outcome::Handshake(Progress::Incomplete), 0));
    assert!(!t.tick(&id, Outcome::Handshake(Progress::Incomplete), 10_000));
    assert!(t.sweep(10_000).is_empty());
    assert_eq!(t.phase_of(&id), Some(Phase::TlsHandshaking));
    assert!(t.take_events().is_empty());
}

#[test]
fn finish_poll_counts_timeouts_as_work() {
    let (mut t, id) = ready_table(0);
    assert_eq!(t.finish_poll(false, 10), (false, vec![]));
    assert_eq!(t.close(&id), Ok(true));
    assert_eq!(t.finish_poll(false, 11), (false, vec![ConnectionEvent::Close(id.clone())]));
    assert!(t.entries.is_empty());
    assert_eq!(t.finish_poll(false, 12), (false, vec![]));
    let (mut u, other) = ready_table(0);
    assert_eq!(u.finish_poll(true, 501), (true, vec![ConnectionEvent::Close(other)]));
}

#[test]
fn finish_poll_keeps_the_order_of_events() {
    let (mut t, id) = ready_table(0);
    assert!(t.tick(&id, Outcome::Read(Received::Payload(b"a".to_vec())), 1));
    let e = ConnectionError(s("reset"));
    assert!(t.tick(&id, Outcome::Read(Received::Failed(e.clone())), 2));
    assert_eq!(
        t.finish_poll(true, 3),
        (
            true,
            vec![
                ConnectionEvent::Message(id.clone(), b"a".to_vec()),
                ConnectionEvent::ConnectionError(id.clone(), e),
                ConnectionEvent::Close(id)
            ]
        )
    );
}
