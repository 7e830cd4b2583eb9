use vstd::prelude::*;

use crate::connection_error::ConnectionError;

verus! {

/// Where a connection stands in its progression, in order.
#[derive(Debug, Clone, Copy, PartialEq, Eq, Structural)]
pub enum Phase {
    /// Holds the raw transport; the TLS handshake has not started.
    Connecting,
    /// The TLS handshake is under way and waits to be resumed.
    TlsHandshaking,
    /// TLS is established; the WebSocket handshake has not started.
    TlsReady,
    /// The WebSocket opening handshake is under way and waits to be resumed.
    WsHandshaking,
    /// Steady state: messages are exchanged.
    Ready,
    /// Terminal.
    Closed,
}

/// What one attempt at a handshake step gave.
pub enum Progress {
    /// It would block; the intermediate state is kept for the next tick.
    Incomplete,
    /// The handshake finished.
    Complete,
    /// The handshake failed.
    Failed(ConnectionError),
}

/// What one non-blocking read in steady state gave.
pub enum Received {
    /// Nothing to read yet.
    WouldBlock,
    /// One complete text or binary payload.
    Payload(Vec<u8>),
    /// A ping or pong frame.
    Control,
    /// The peer closed the protocol cleanly.
    PeerClosed,
    /// Any other read failure.
    Failed(ConnectionError),
}

/// What one non-blocking write in steady state gave.
pub enum Written {
    /// The transport accepted the frame.
    Accepted,
    /// The write would block; nothing was written.
    WouldBlock,
    /// The write failed.
    Failed(ConnectionError),
}

/// The outcome of one piece of socket work, reported by the driver.
pub enum Outcome {
    /// A TLS step (before `TlsReady`) or a WebSocket handshake step (from `TlsReady` on).
    Handshake(Progress),
    /// A read in steady state.
    Read(Received),
    /// The write of the connection's next queued payload.
    Sent(Written),
    /// The write of a keepalive ping.
    Ping(Written),
}

/// What a step of the lifecycle reports to the caller.
pub enum Notice {
    Connected,
    Message(Vec<u8>),
    Error(ConnectionError),
}

/// The phases before steady state.
pub open spec fn before_ready(p: Phase) -> bool {
    p is Connecting || p is TlsHandshaking || p is TlsReady || p is WsHandshaking
}

/// The phase after `o` was reported in phase `p`.
pub open spec fn next_phase(p: Phase, o: Outcome) -> Phase {
    match p {
        Phase::Connecting | Phase::TlsHandshaking => match o {
            Outcome::Handshake(Progress::Incomplete) => Phase::TlsHandshaking,
            Outcome::Handshake(Progress::Complete) => Phase::TlsReady,
            Outcome::Handshake(Progress::Failed(_)) => Phase::Closed,
            _ => p,
        },
        Phase::TlsReady | Phase::WsHandshaking => match o {
            Outcome::Handshake(Progress::Incomplete) => Phase::WsHandshaking,
            Outcome::Handshake(Progress::Complete) => Phase::Ready,
            Outcome::Handshake(Progress::Failed(_)) => Phase::Closed,
            _ => p,
        },
        Phase::Ready => match o {
            Outcome::Read(Received::PeerClosed) => Phase::Closed,
            Outcome::Read(Received::Failed(_)) => Phase::Closed,
            Outcome::Sent(Written::Failed(_)) => Phase::Closed,
            Outcome::Ping(Written::Failed(_)) => Phase::Closed,
            _ => Phase::Ready,
        },
        Phase::Closed => Phase::Closed,
    }
}

/// What is reported when `o` comes in phase `p`.
pub open spec fn notice_of(p: Phase, o: Outcome) -> Option<Notice> {
    match p {
        Phase::Connecting | Phase::TlsHandshaking => match o {
            Outcome::Handshake(Progress::Failed(e)) => Some(Notice::Error(e)),
            _ => None,
        },
        Phase::TlsReady | Phase::WsHandshaking => match o {
            Outcome::Handshake(Progress::Complete) => Some(Notice::Connected),
            Outcome::Handshake(Progress::Failed(e)) => Some(Notice::Error(e)),
            _ => None,
        },
        Phase::Ready => match o {
            Outcome::Read(Received::Payload(b)) => Some(Notice::Message(b)),
            Outcome::Read(Received::Failed(e)) => Some(Notice::Error(e)),
            Outcome::Sent(Written::Failed(e)) => Some(Notice::Error(e)),
            Outcome::Ping(Written::Failed(e)) => Some(Notice::Error(e)),
            _ => None,
        },
        Phase::Closed => None,
    }
}

/// Whether a frame was read: this counts as activity on the connection.
pub open spec fn frame_read(p: Phase, o: Outcome) -> bool {
    p is Ready && (o matches Outcome::Read(Received::Payload(_)) || o matches Outcome::Read(
        Received::Control,
    ))
}

/// Whether the step made progress: a change of phase or a frame read.
pub open spec fn made_progress(p: Phase, o: Outcome) -> bool {
    next_phase(p, o) != p || frame_read(p, o)
}

/// One step of a connection's lifecycle: the next phase, what to report, and
/// whether progress was made.
pub fn advance(p: Phase, o: Outcome) -> (r: (Phase, Option<Notice>, bool))
    ensures
        r.0 == next_phase(p, o),
        r.1 == notice_of(p, o),
        r.2 == made_progress(p, o),
{
    match p {
        Phase::Connecting | Phase::TlsHandshaking => match o {
            Outcome::Handshake(Progress::Incomplete) => (
                Phase::TlsHandshaking,
                None,
                p != Phase::TlsHandshaking,
            ),
            Outcome::Handshake(Progress::Complete) => (Phase::TlsReady, None, true),
            Outcome::Handshake(Progress::Failed(e)) => (Phase::Closed, Some(Notice::Error(e)), true),
            _ => (p, None, false),
        },
        Phase::TlsReady | Phase::WsHandshaking => match o {
            Outcome::Handshake(Progress::Incomplete) => (
                Phase::WsHandshaking,
                None,
                p != Phase::WsHandshaking,
            ),
            Outcome::Handshake(Progress::Complete) => (Phase::Ready, Some(Notice::Connected), true),
            Outcome::Handshake(Progress::Failed(e)) => (Phase::Closed, Some(Notice::Error(e)), true),
            _ => (p, None, false),
        },
        Phase::Ready => match o {
            Outcome::Read(Received::Payload(b)) => (Phase::Ready, Some(Notice::Message(b)), true),
            Outcome::Read(Received::Control) => (Phase::Ready, None, true),
            Outcome::Read(Received::PeerClosed) => (Phase::Closed, None, true),
            Outcome::Read(Received::Failed(e)) => (Phase::Closed, Some(Notice::Error(e)), true),
            Outcome::Sent(Written::Failed(e)) => (Phase::Closed, Some(Notice::Error(e)), true),
            Outcome::Ping(Written::Failed(e)) => (Phase::Closed, Some(Notice::Error(e)), true),
            _ => (Phase::Ready, None, false),
        },
        Phase::Closed => (Phase::Closed, None, false),
    }
}


/// A notice, if any, as a sequence of at most one element.
pub open spec fn notice_seq(n: Option<Notice>) -> Seq<Notice> {
    match n {
        Some(x) => seq![x],
        None => seq![],
    }
}

/// The phase after the outcomes `outs` were reported in turn, from phase `p`.
pub open spec fn phase_after(p: Phase, outs: Seq<Outcome>) -> Phase
    decreases outs.len(),
{
    if outs.len() == 0 {
        p
    } else {
        phase_after(next_phase(p, outs[0]), outs.drop_first())
    }
}

/// Everything reported while the outcomes `outs` are applied in turn, from phase `p`.
pub open spec fn notices(p: Phase, outs: Seq<Outcome>) -> Seq<Notice>
    decreases outs.len(),
{
    if outs.len() == 0 {
        seq![]
    } else {
        notice_seq(notice_of(p, outs[0])) + notices(next_phase(p, outs[0]), outs.drop_first())
    }
}

/// Whether the connection is in steady state at some point of the run.
pub open spec fn reaches_ready(p: Phase, outs: Seq<Outcome>) -> bool
    decreases outs.len(),
{
    p is Ready || (outs.len() > 0 && reaches_ready(next_phase(p, outs[0]), outs.drop_first()))
}

/// How many `Connected` notices `ns` holds.
pub open spec fn count_connected(ns: Seq<Notice>) -> nat
    decreases ns.len(),
{
    if ns.len() == 0 {
        0
    } else {
        (if ns[0] is Connected {
            1nat
        } else {
            0nat
        }) + count_connected(ns.drop_first())
    }
}

/// How many `Error` notices `ns` holds.
pub open spec fn count_errors(ns: Seq<Notice>) -> nat
    decreases ns.len(),
{
    if ns.len() == 0 {
        0
    } else {
        (if ns[0] is Error {
            1nat
        } else {
            0nat
        }) + count_errors(ns.drop_first())
    }
}

/// Every `Message` notice of `ns` comes after some `Connected` notice.
pub open spec fn messages_after_connected(ns: Seq<Notice>) -> bool {
    forall|i: int|
        0 <= i < ns.len() && #[trigger] ns[i] is Message ==> exists|j: int|
            0 <= j < i && #[trigger] ns[j] is Connected
}

proof fn lemma_counts_prepend(n: Option<Notice>, rest: Seq<Notice>)
    ensures
        count_connected(notice_seq(n) + rest) == count_connected(rest) + if n matches Some(
            Notice::Connected,
        ) {
            1nat
        } else {
            0nat
        },
        count_errors(notice_seq(n) + rest) == count_errors(rest) + if n matches Some(
            Notice::Error(_),
        ) {
            1nat
        } else {
            0nat
        },
{
    let all = notice_seq(n) + rest;
    if n is Some {
        assert(all.drop_first() =~= rest);
        assert(all[0] == n->0);
    } else {
        assert(all =~= rest);
    }
}

proof fn lemma_closed_stays(outs: Seq<Outcome>)
    ensures
        phase_after(Phase::Closed, outs) == Phase::Closed,
        notices(Phase::Closed, outs) == Seq::<Notice>::empty(),
        !reaches_ready(Phase::Closed, outs),
    decreases outs.len(),
{
    if outs.len() > 0 {
        lemma_closed_stays(outs.drop_first());
        assert(notices(Phase::Closed, outs) =~= Seq::<Notice>::empty());
    }
}

#[verifier::spinoff_prover]
proof fn lemma_connected_count(p: Phase, outs: Seq<Outcome>)
    ensures
        count_connected(notices(p, outs)) == if before_ready(p) && reaches_ready(p, outs) {
            1nat
        } else {
            0nat
        },
    decreases outs.len(),
{
    if outs.len() > 0 {
        let q = next_phase(p, outs[0]);
        let rest = outs.drop_first();
        lemma_connected_count(q, rest);
        if q is Closed {
            lemma_closed_stays(rest);
        }
        lemma_counts_prepend(notice_of(p, outs[0]), notices(q, rest));
    }
}

#[verifier::spinoff_prover]
proof fn lemma_connected_first(p: Phase, outs: Seq<Outcome>)
    requires
        !(p is Ready),
    ensures
        messages_after_connected(notices(p, outs)),
    decreases outs.len(),
{
    if outs.len() > 0 {
        let q = next_phase(p, outs[0]);
        let rest = outs.drop_first();
        let head = notice_seq(notice_of(p, outs[0]));
        let ns = notices(p, outs);
        let tail = notices(q, rest);
        assert(ns == head + tail);
        if q is Ready {
            assert(head == seq![Notice::Connected]);
            assert forall|i: int| 0 <= i < ns.len() && #[trigger] ns[i] is Message implies exists|
                j: int,
            |
                0 <= j < i && #[trigger] ns[j] is Connected by {
                assert(ns[0] is Connected);
            }
        } else {
            lemma_connected_first(q, rest);
            assert forall|i: int| 0 <= i < ns.len() && #[trigger] ns[i] is Message implies exists|
                j: int,
            |
                0 <= j < i && #[trigger] ns[j] is Connected by {
                let k = i - head.len();
                assert(head.len() == 0 || !(head[0] is Message));
                assert(0 <= k);
                assert(tail[k] == ns[i]);
                assert(tail[k] is Message);
                let j0 = choose|j: int| 0 <= j < k && #[trigger] tail[j] is Connected;
                assert(ns[j0 + head.len()] == tail[j0]);
            }
        }
    }
}

/// A connection reports `Connected` exactly once if it reaches steady state and
/// never otherwise, and no message is reported before it.
pub proof fn lemma_connected_once_before_messages(outs: Seq<Outcome>)
    ensures
        count_connected(notices(Phase::Connecting, outs)) == if reaches_ready(
            Phase::Connecting,
            outs,
        ) {
            1nat
        } else {
            0nat
        },
        messages_after_connected(notices(Phase::Connecting, outs)),
{
    lemma_connected_count(Phase::Connecting, outs);
    lemma_connected_first(Phase::Connecting, outs);
}

#[verifier::spinoff_prover]
proof fn lemma_error_count(p: Phase, outs: Seq<Outcome>)
    ensures
        p is Closed ==> count_errors(notices(p, outs)) == 0,
        count_errors(notices(p, outs)) <= 1,
        count_errors(notices(p, outs)) == 1 ==> phase_after(p, outs) is Closed,
    decreases outs.len(),
{
    if outs.len() > 0 {
        let q = next_phase(p, outs[0]);
        let rest = outs.drop_first();
        lemma_error_count(q, rest);
        if q is Closed {
            lemma_closed_stays(rest);
        }
        lemma_counts_prepend(notice_of(p, outs[0]), notices(q, rest));
    }
}

/// A connection reports at most one error, and once it has, it is closed: the
/// close that follows is reported after the error.
pub proof fn lemma_error_at_most_once(p: Phase, outs: Seq<Outcome>)
    ensures
        count_errors(notices(p, outs)) <= 1,
        count_errors(notices(p, outs)) == 1 ==> phase_after(p, outs) is Closed,
{
    lemma_error_count(p, outs);
}

} // verus!
