use vstd::prelude::*;

use crate::connection::{ConnectionEvent, EventView};
use crate::connection_error::ConnectionError;
use crate::ids::{id_for, id_text, lemma_id_text_injective};
use crate::lifecycle::{advance, notice_of, next_phase, made_progress, Notice, Outcome, Phase, Written};

verus! {

/// Idle time, in milliseconds, after which a connection in steady state is pinged.
pub const PING_AFTER_MS: u64 = 200;

/// Idle time, in milliseconds, after which a connection is closed.
pub const TIMEOUT_MS: u64 = 500;

/// One live connection of the table.
pub struct ConnectionInfo {
    /// The identifier handed to the caller.
    pub id: String,
    /// The number the identifier was made from.
    pub number: u64,
    /// Where the connection stands.
    pub phase: Phase,
    /// When, in milliseconds, it last made progress.
    pub last_activity: u64,
}

/// A payload waiting to be written to one connection.
pub struct PendingSend {
    pub target: String,
    pub payload: Vec<u8>,
}

/// The connections, the payloads waiting to be written and the events not yet
/// handed to the caller.
pub struct ConnectionTable {
    pub entries: Vec<ConnectionInfo>,
    pub pending: Vec<PendingSend>,
    pub events: Vec<ConnectionEvent>,
    /// The number the next connection's identifier is made from.
    pub next_number: u64,
}

/// Milliseconds from `last` to `now`; none if the clock reads earlier.
pub open spec fn idle(now: u64, last: u64) -> int {
    if now >= last {
        now - last
    } else {
        0
    }
}

/// The event that reports notice `n` of connection `id`, if any.
pub open spec fn notice_events(id: Seq<char>, n: Option<Notice>) -> Seq<EventView> {
    match n {
        None => seq![],
        Some(Notice::Connected) => seq![EventView::Connect(id)],
        Some(Notice::Message(b)) => seq![EventView::Message(id, b@)],
        Some(Notice::Error(e)) => seq![EventView::Error(id, e.0@)],
    }
}

/// The reason given for an identifier that names no connection.
pub open spec fn unknown_text(id: Seq<char>) -> Seq<char> {
    "unknown connection: "@ + id
}

/// The reason given for a payload dropped because its connection is not in steady state.
pub open spec fn not_ready_text(id: Seq<char>) -> Seq<char> {
    "connection not ready: "@ + id
}

/// Whether a connection is closed at the end of a tick at time `now`: closed
/// already, or in steady state and idle past the timeout. Handshakes have no
/// timeout.
pub open spec fn ends(e: ConnectionInfo, now: u64) -> bool {
    e.phase is Closed || (e.phase is Ready && idle(now, e.last_activity) > TIMEOUT_MS)
}

/// Whether a connection in steady state is idle past the timeout at `now`.
pub open spec fn times_out(e: ConnectionInfo, now: u64) -> bool {
    e.phase is Ready && idle(now, e.last_activity) > TIMEOUT_MS
}

/// The connections that stay after the sweep at time `now`.
pub open spec fn kept(s: Seq<ConnectionInfo>, now: u64) -> Seq<ConnectionInfo>
    decreases s.len(),
{
    if s.len() == 0 {
        seq![]
    } else {
        kept(s.drop_last(), now) + if ends(s.last(), now) {
            seq![]
        } else {
            seq![s.last()]
        }
    }
}

/// The `Close` events of the sweep at time `now`, in table order.
pub open spec fn closes(s: Seq<ConnectionInfo>, now: u64) -> Seq<EventView>
    decreases s.len(),
{
    if s.len() == 0 {
        seq![]
    } else {
        closes(s.drop_last(), now) + if ends(s.last(), now) {
            seq![EventView::Close(s.last().id@)]
        } else {
            seq![]
        }
    }
}

/// The identifiers of the connections removed by the sweep at time `now`.
pub open spec fn removed(s: Seq<ConnectionInfo>, now: u64) -> Seq<Seq<char>>
    decreases s.len(),
{
    if s.len() == 0 {
        seq![]
    } else {
        removed(s.drop_last(), now) + if ends(s.last(), now) {
            seq![s.last().id@]
        } else {
            seq![]
        }
    }
}

/// Whether `id` names a connection of `s`.
pub open spec fn known(s: Seq<ConnectionInfo>, id: Seq<char>) -> bool {
    exists|i: int| 0 <= i < s.len() && #[trigger] s[i].id@ == id
}

/// Whether `id` names a connection of `s` that is in steady state.
pub open spec fn ready(s: Seq<ConnectionInfo>, id: Seq<char>) -> bool {
    exists|i: int| 0 <= i < s.len() && #[trigger] s[i].id@ == id && s[i].phase is Ready
}

/// The queued payloads as (target, bytes).
pub open spec fn pending_view(p: Seq<PendingSend>) -> Seq<(Seq<char>, Seq<u8>)> {
    p.map_values(|q: PendingSend| (q.target@, q.payload@))
}

/// The queued payloads that may still be delivered.
pub open spec fn deliverable(s: Seq<ConnectionInfo>, p: Seq<(Seq<char>, Seq<u8>)>) -> Seq<
    (Seq<char>, Seq<u8>),
>
    decreases p.len(),
{
    if p.len() == 0 {
        seq![]
    } else {
        deliverable(s, p.drop_last()) + if ready(s, p.last().0) {
            seq![p.last()]
        } else {
            seq![]
        }
    }
}

/// The errors that report the payloads dropped from `p`.
pub open spec fn drop_errors(s: Seq<ConnectionInfo>, p: Seq<(Seq<char>, Seq<u8>)>) -> Seq<
    EventView,
>
    decreases p.len(),
{
    if p.len() == 0 {
        seq![]
    } else {
        drop_errors(s, p.drop_last()) + if ready(s, p.last().0) {
            seq![]
        } else if known(s, p.last().0) {
            seq![EventView::Error(p.last().0, not_ready_text(p.last().0))]
        } else {
            seq![EventView::Error(p.last().0, unknown_text(p.last().0))]
        }
    }
}

/// `k` is the first position of `p` whose payload goes to `id`.
pub open spec fn first_for(p: Seq<(Seq<char>, Seq<u8>)>, id: Seq<char>, k: int) -> bool {
    &&& 0 <= k < p.len()
    &&& p[k].0 == id
    &&& forall|j: int| 0 <= j < k ==> (#[trigger] p[j]).0 != id
}

/// No payload of `p` goes to `id`.
pub open spec fn none_for(p: Seq<(Seq<char>, Seq<u8>)>, id: Seq<char>) -> bool {
    forall|j: int| 0 <= j < p.len() ==> (#[trigger] p[j]).0 != id
}

/// `s1` is `s0` with the connection at position `i` marked closed.
pub open spec fn closed_at(s0: Seq<ConnectionInfo>, s1: Seq<ConnectionInfo>, i: int) -> bool {
    s1 == s0.update(i, ConnectionInfo { phase: Phase::Closed, ..s0[i] })
}

/// How many `Close` events of connection `id` `evs` holds.
pub open spec fn count_close(evs: Seq<EventView>, id: Seq<char>) -> nat
    decreases evs.len(),
{
    if evs.len() == 0 {
        0
    } else {
        count_close(evs.drop_last(), id) + if evs.last() == EventView::Close(id) {
            1nat
        } else {
            0nat
        }
    }
}

/// The identifiers of `s` are distinct.
pub open spec fn unique_ids(s: Seq<ConnectionInfo>) -> bool {
    forall|i: int, j: int|
        0 <= i < s.len() && 0 <= j < s.len() && i != j ==> #[trigger] s[i].id@ != #[trigger] s[j].id@
}

proof fn lemma_count_close_append(a: Seq<EventView>, b: Seq<EventView>, id: Seq<char>)
    requires
        b.len() <= 1,
    ensures
        count_close(a + b, id) == count_close(a, id) + if b.len() == 1 && b[0] == EventView::Close(
            id,
        ) {
            1nat
        } else {
            0nat
        },
{
    if b.len() == 0 {
        assert(a + b =~= a);
    } else {
        assert((a + b).drop_last() =~= a);
    }
}

/// The sweep reports each connection that ends exactly once, reports nothing
/// else of the others, and keeps none of the connections that end.
#[verifier::spinoff_prover]
pub proof fn lemma_sweep_closes_once(s: Seq<ConnectionInfo>, now: u64, id: Seq<char>)
    requires
        unique_ids(s),
    ensures
        count_close(closes(s, now), id) == if exists|i: int|
            0 <= i < s.len() && #[trigger] s[i].id@ == id && ends(s[i], now) {
            1nat
        } else {
            0nat
        },
        forall|k: int| 0 <= k < closes(s, now).len() ==> #[trigger] closes(s, now)[k] is Close,
        forall|k: int|
            0 <= k < kept(s, now).len() ==> exists|j: int|
                0 <= j < s.len() && #[trigger] kept(s, now)[k] == s[j] && !ends(s[j], now),
    decreases s.len(),
{
    if s.len() > 0 {
        let t = s.drop_last();
        let x = s.last();
        assert forall|a: int, b: int|
            0 <= a < t.len() && 0 <= b < t.len() && a != b implies #[trigger] t[a].id@
            != #[trigger] t[b].id@ by {
            assert(t[a] == s[a] && t[b] == s[b]);
        }
        lemma_sweep_closes_once(t, now, id);
        let tail = if ends(x, now) {
            seq![EventView::Close(x.id@)]
        } else {
            seq![]
        };
        lemma_count_close_append(closes(t, now), tail, id);
        if x.id@ == id {
            assert forall|i: int| 0 <= i < t.len() implies #[trigger] t[i].id@ != id by {
                assert(s[i] == t[i]);
                assert(s[s.len() - 1] == x);
            }
            if ends(x, now) {
                assert(s[s.len() - 1].id@ == id);
            } else {
                assert forall|i: int| 0 <= i < s.len() && #[trigger] s[i].id@ == id implies !ends(
                    s[i],
                    now,
                ) by {
                    if i < t.len() {
                        assert(s[i] == t[i]);
                    }
                }
            }
        } else {
            if exists|i: int| 0 <= i < s.len() && #[trigger] s[i].id@ == id && ends(s[i], now) {
                let i = choose|i: int| 0 <= i < s.len() && #[trigger] s[i].id@ == id && ends(s[i], now);
                assert(i < t.len());
                assert(t[i] == s[i]);
            }
            if exists|i: int| 0 <= i < t.len() && #[trigger] t[i].id@ == id && ends(t[i], now) {
                let i = choose|i: int| 0 <= i < t.len() && #[trigger] t[i].id@ == id && ends(t[i], now);
                assert(t[i] == s[i]);
            }
        }
        assert forall|k: int| 0 <= k < closes(s, now).len() implies #[trigger] closes(s, now)[k] is Close by {
            if k < closes(t, now).len() {
                assert(closes(s, now)[k] == closes(t, now)[k]);
            }
        }
        assert forall|k: int| 0 <= k < kept(s, now).len() implies exists|j: int|
            0 <= j < s.len() && #[trigger] kept(s, now)[k] == s[j] && !ends(s[j], now) by {
            if k < kept(t, now).len() {
                assert(kept(s, now)[k] == kept(t, now)[k]);
                let j = choose|j: int|
                    0 <= j < t.len() && #[trigger] kept(t, now)[k] == t[j] && !ends(t[j], now);
                assert(s[j] == t[j]);
            } else {
                assert(kept(s, now)[k] == s[s.len() - 1]);
            }
        }
    }
}

/// What `tick` does to the table when `id` is its connection at position `i`.
pub open spec fn tick_post(
    t0: ConnectionTable,
    t1: ConnectionTable,
    i: int,
    id: Seq<char>,
    o: Outcome,
    now: u64,
    r: bool,
) -> bool {
    let e = t0.entries@[i];
    let progress = made_progress(e.phase, o);
    &&& r == progress
    &&& t1.entries@ == t0.entries@.update(
        i,
        ConnectionInfo {
            phase: next_phase(e.phase, o),
            last_activity: if progress {
                now
            } else {
                e.last_activity
            },
            ..e
        },
    )
    &&& t1.events_view() == t0.events_view() + notice_events(id, notice_of(e.phase, o))
    &&& if e.phase is Ready && o matches Outcome::Sent(Written::Accepted) {
        (exists|k: int|
            first_for(pending_view(t0.pending@), id, k) && pending_view(t1.pending@) == pending_view(
                t0.pending@,
            ).remove(k)) || (none_for(pending_view(t0.pending@), id) && t1.pending == t0.pending)
    } else {
        t1.pending == t0.pending
    }
}

fn copy_bytes(b: &Vec<u8>) -> (r: Vec<u8>)
    ensures
        r@ == b@,
{
    let r = b.clone();
    assert(r@ =~= b@);
    r
}

proof fn lemma_count_close_concat(a: Seq<EventView>, b: Seq<EventView>, id: Seq<char>)
    ensures
        count_close(a + b, id) == count_close(a, id) + count_close(b, id),
    decreases b.len(),
{
    if b.len() > 0 {
        lemma_count_close_concat(a, b.drop_last(), id);
        assert((a + b).drop_last() =~= a + b.drop_last());
    }
}

proof fn lemma_ends_not_kept(s: Seq<ConnectionInfo>, now: u64, i: int)
    requires
        unique_ids(s),
        0 <= i < s.len(),
        ends(s[i], now),
    ensures
        count_close(closes(s, now), s[i].id@) == 1,
        !known(kept(s, now), s[i].id@),
{
    let id = s[i].id@;
    lemma_sweep_closes_once(s, now, id);
    assert(exists|j: int| 0 <= j < s.len() && #[trigger] s[j].id@ == id && ends(s[j], now));
    if known(kept(s, now), id) {
        let k = choose|k: int| 0 <= k < kept(s, now).len() && #[trigger] kept(s, now)[k].id@ == id;
        let j = choose|j: int| 0 <= j < s.len() && #[trigger] kept(s, now)[k] == s[j] && !ends(s[j], now);
        assert(s[j].id@ == s[i].id@);
    }
}

/// Closing a connection twice before the sweep reports it closed exactly once,
/// with no other event, and removes it, so that a later close fails.
pub proof fn lemma_close_twice_closes_once(
    t0: ConnectionTable,
    t1: ConnectionTable,
    t2: ConnectionTable,
    t3: ConnectionTable,
    id: Seq<char>,
    now: u64,
)
    requires
        t0.wf(),
        exists|i: int|
            0 <= i < t0.entries@.len() && #[trigger] t0.entries@[i].id@ == id && closed_at(
                t0.entries@,
                t1.entries@,
                i,
            ),
        t1.events == t0.events,
        exists|i: int|
            0 <= i < t1.entries@.len() && #[trigger] t1.entries@[i].id@ == id && closed_at(
                t1.entries@,
                t2.entries@,
                i,
            ),
        t2.events == t1.events,
        t3.entries@ == kept(t2.entries@, now),
        t3.events_view() == t2.events_view() + closes(t2.entries@, now),
    ensures
        count_close(t3.events_view(), id) == count_close(t0.events_view(), id) + 1,
        !known(t3.entries@, id),
{
    t0.lemma_ids_unique();
    let i = choose|i: int|
        0 <= i < t0.entries@.len() && #[trigger] t0.entries@[i].id@ == id && closed_at(
            t0.entries@,
            t1.entries@,
            i,
        );
    let j = choose|j: int|
        0 <= j < t1.entries@.len() && #[trigger] t1.entries@[j].id@ == id && closed_at(
            t1.entries@,
            t2.entries@,
            j,
        );
    assert forall|a: int| 0 <= a < t2.entries@.len() implies #[trigger] t2.entries@[a].id@
        == t0.entries@[a].id@ by {
        assert(t1.entries@[a].id@ == t0.entries@[a].id@);
    }
    assert(unique_ids(t2.entries@));
    assert(j == i);
    assert(t2.entries@[i].phase is Closed);
    lemma_ends_not_kept(t2.entries@, now, i);
    lemma_count_close_concat(t2.events_view(), closes(t2.entries@, now), id);
}

/// A connection in steady state idle past the timeout is reported closed
/// exactly once by the sweep and removed, whatever its peer did, and the sweep reports no error.
pub proof fn lemma_idle_connection_times_out(
    t0: ConnectionTable,
    t1: ConnectionTable,
    i: int,
    now: u64,
)
    requires
        t0.wf(),
        0 <= i < t0.entries@.len(),
        t0.entries@[i].phase is Ready,
        idle(now, t0.entries@[i].last_activity) > TIMEOUT_MS,
        t1.entries@ == kept(t0.entries@, now),
        t1.events_view() == t0.events_view() + closes(t0.entries@, now),
    ensures
        count_close(t1.events_view(), t0.entries@[i].id@) == count_close(
            t0.events_view(),
            t0.entries@[i].id@,
        ) + 1,
        !known(t1.entries@, t0.entries@[i].id@),
        forall|k: int|
            t0.events_view().len() <= k < t1.events_view().len() ==> #[trigger] t1.events_view()[k] is Close,
{
    let id = t0.entries@[i].id@;
    t0.lemma_ids_unique();
    lemma_ends_not_kept(t0.entries@, now, i);
    lemma_sweep_closes_once(t0.entries@, now, id);
    lemma_count_close_concat(t0.events_view(), closes(t0.entries@, now), id);
    assert forall|k: int|
        t0.events_view().len() <= k < t1.events_view().len() implies #[trigger] t1.events_view()[k] is Close by {
        assert(t1.events_view()[k] == closes(t0.entries@, now)[k - t0.events_view().len()]);
    }
}

/// The payload handed out for a connection in steady state is the first one
/// queued for it, byte for byte; once the transport accepts it, exactly that
/// payload leaves the queue and the others stay in order, so it is written once.
pub proof fn lemma_accepted_payload_leaves_once(
    t0: ConnectionTable,
    t1: ConnectionTable,
    i: int,
    id: Seq<char>,
    b: Seq<u8>,
    now: u64,
    r: bool,
)
    requires
        t0.wf(),
        0 <= i < t0.entries@.len(),
        t0.entries@[i].id@ == id,
        t0.entries@[i].phase is Ready,
        exists|k: int|
            first_for(pending_view(t0.pending@), id, k) && b == (#[trigger] pending_view(
                t0.pending@,
            )[k]).1,
        tick_post(t0, t1, i, id, Outcome::Sent(Written::Accepted), now, r),
    ensures
        exists|k: int|
            first_for(pending_view(t0.pending@), id, k) && b == (#[trigger] pending_view(
                t0.pending@,
            )[k]).1 && pending_view(t1.pending@) == pending_view(t0.pending@).take(k)
                + pending_view(t0.pending@).skip(k + 1),
{
    let pv = pending_view(t0.pending@);
    let k = choose|k: int| first_for(pv, id, k) && b == (#[trigger] pv[k]).1;
    assert(!none_for(pv, id));
    let k2 = choose|k2: int|
        first_for(pv, id, k2) && pending_view(t1.pending@) == pv.remove(k2);
    if k2 < k {
        assert(pv[k2].0 != id);
    }
    if k < k2 {
        assert(pv[k].0 != id);
    }
    assert(pv.remove(k) =~= pv.take(k) + pv.skip(k + 1));
}

proof fn lemma_count_close_found(evs: Seq<EventView>, id: Seq<char>)
    requires
        count_close(evs, id) > 0,
    ensures
        exists|k: int| 0 <= k < evs.len() && #[trigger] evs[k] == EventView::Close(id),
    decreases evs.len(),
{
    if evs.last() != EventView::Close(id) {
        lemma_count_close_found(evs.drop_last(), id);
        let k = choose|k: int|
            0 <= k < evs.drop_last().len() && #[trigger] evs.drop_last()[k] == EventView::Close(id);
        assert(evs[k] == evs.drop_last()[k]);
    } else {
        assert(evs[evs.len() - 1] == EventView::Close(id));
    }
}

/// A connection closed during a poll, with an error already queued for it, is
/// reported closed exactly once by the end of that poll, after the error.
pub proof fn lemma_error_then_close_in_same_poll(
    t1: ConnectionTable,
    i: int,
    a: int,
    now: u64,
    evs: Seq<EventView>,
)
    requires
        t1.wf(),
        0 <= i < t1.entries@.len(),
        t1.entries@[i].phase is Closed,
        0 <= a < t1.events_view().len(),
        t1.events_view()[a] matches EventView::Error(x, _) && x == t1.entries@[i].id@,
        evs == t1.events_view() + closes(t1.entries@, now),
    ensures
        count_close(evs, t1.entries@[i].id@) == count_close(t1.events_view(), t1.entries@[i].id@)
            + 1,
        exists|b: int| a < b < evs.len() && #[trigger] evs[b] == EventView::Close(t1.entries@[i].id@),
{
    let id = t1.entries@[i].id@;
    t1.lemma_ids_unique();
    lemma_ends_not_kept(t1.entries@, now, i);
    lemma_count_close_concat(t1.events_view(), closes(t1.entries@, now), id);
    lemma_count_close_found(closes(t1.entries@, now), id);
    let k = choose|k: int|
        0 <= k < closes(t1.entries@, now).len() && #[trigger] closes(t1.entries@, now)[k]
            == EventView::Close(id);
    assert(evs[t1.events_view().len() + k] == closes(t1.entries@, now)[k]);
}

impl ConnectionTable {
    /// The identifiers match their numbers, the numbers increase along the
    /// table, and all are below the next number.
    pub open spec fn wf(&self) -> bool {
        &&& 1 <= self.next_number
        &&& forall|i: int|
            0 <= i < self.entries@.len() ==> (#[trigger] self.entries@[i]).id@ == id_text(
                self.entries@[i].number as nat,
            ) && self.entries@[i].number < self.next_number
        &&& forall|i: int, j: int|
            0 <= i < j < self.entries@.len() ==> (#[trigger] self.entries@[i]).number
                < (#[trigger] self.entries@[j]).number
    }

    /// The queued events, viewed.
    pub open spec fn events_view(&self) -> Seq<EventView> {
        self.events@.map_values(|e: ConnectionEvent| e@)
    }

    /// Distinct connections of the table have distinct identifiers.
    pub proof fn lemma_ids_unique(&self)
        requires
            self.wf(),
        ensures
            forall|i: int, j: int|
                0 <= i < self.entries@.len() && 0 <= j < self.entries@.len() && i != j
                    ==> #[trigger] self.entries@[i].id@ != #[trigger] self.entries@[j].id@,
    {
        assert forall|i: int, j: int|
            0 <= i < self.entries@.len() && 0 <= j < self.entries@.len() && i
                != j implies #[trigger] self.entries@[i].id@ != #[trigger] self.entries@[j].id@ by {
            let (a, b) = if i < j {
                (i, j)
            } else {
                (j, i)
            };
            assert(self.entries@[a].number < self.entries@[b].number);
            lemma_id_text_injective(
                self.entries@[i].number as nat,
                self.entries@[j].number as nat,
            );
        }
    }

    /// An empty table whose first identifier is `ws1`.
    pub fn new() -> (r: Self)
        ensures
            r.wf(),
            r.entries@.len() == 0,
            r.pending@.len() == 0,
            r.events@.len() == 0,
            r.next_number == 1,
    {
        ConnectionTable { entries: Vec::new(), pending: Vec::new(), events: Vec::new(), next_number: 1 }
    }

    /// The position of the connection named `id`.
    pub fn find(&self, id: &String) -> (r: Option<usize>)
        ensures
            r matches Some(i) ==> i < self.entries@.len() && self.entries@[i as int].id@ == id@,
            r is None ==> !known(self.entries@, id@),
    {
        let mut i: usize = 0;
        while i < self.entries.len()
            invariant
                i <= self.entries@.len(),
                forall|k: int| 0 <= k < i ==> self.entries@[k].id@ != id@,
            decreases self.entries@.len() - i,
        {
            if self.entries[i].id == *id {
                return Some(i);
            }
            i = i + 1;
        }
        None
    }

    /// Adds a connection in phase `Connecting`, active at `now`, under a fresh
    /// identifier, and returns the identifier. Fails only when the numbers are
    /// used up.
    pub fn register(&mut self, now: u64) -> (r: Result<String, ConnectionError>)
        requires
            old(self).wf(),
        ensures
            final(self).wf(),
            final(self).pending == old(self).pending,
            final(self).events == old(self).events,
            r is Err <==> old(self).next_number == u64::MAX,
            r is Err ==> final(self).entries@ == old(self).entries@ && final(self).next_number
                == old(self).next_number,
            r matches Ok(id) ==> {
                &&& id@ == id_text(old(self).next_number as nat)
                &&& !known(old(self).entries@, id@)
                &&& final(self).next_number == old(self).next_number + 1
                &&& final(self).entries@.len() == old(self).entries@.len() + 1
                &&& final(self).entries@.drop_last() == old(self).entries@
                &&& final(self).entries@.last().id@ == id@
                &&& final(self).entries@.last().phase == Phase::Connecting
                &&& final(self).entries@.last().last_activity == now
            },
    {
        if self.next_number == u64::MAX {
            return Err(ConnectionError(String::from_str("connection identifiers exhausted")));
        }
        let n = self.next_number;
        let id = id_for(n);
        proof {
            assert forall|i: int| 0 <= i < self.entries@.len() implies #[trigger] self.entries@[i].id@
                != id@ by {
                lemma_id_text_injective(self.entries@[i].number as nat, n as nat);
            }
        }
        self.entries.push(
            ConnectionInfo { id: id.clone(), number: n, phase: Phase::Connecting, last_activity: now },
        );
        self.next_number = n + 1;
        assert(self.entries@.drop_last() =~= old(self).entries@);
        Ok(id)
    }

    /// Marks the connection named `id` closed; it is removed, with its `Close`
    /// event, at the next sweep. Returns whether it was in steady state, where a
    /// close frame is owed. Fails on an unknown identifier.
    pub fn close(&mut self, id: &String) -> (r: Result<bool, ConnectionError>)
        requires
            old(self).wf(),
        ensures
            final(self).wf(),
            final(self).pending == old(self).pending,
            final(self).events == old(self).events,
            final(self).next_number == old(self).next_number,
            r is Err <==> !known(old(self).entries@, id@),
            r matches Err(e) ==> e.0@ == unknown_text(id@) && final(self).entries@ == old(
                self,
            ).entries@,
            r is Ok ==> exists|i: int|
                0 <= i < old(self).entries@.len() && #[trigger] old(self).entries@[i].id@ == id@
                    && closed_at(old(self).entries@, final(self).entries@, i) && r == Ok::<
                    bool,
                    ConnectionError,
                >(old(self).entries@[i].phase is Ready),
    {
        match self.find(id) {
            None => {
                proof {
                    reveal_strlit("unknown connection: ");
                }
                let mut text = String::from_str("unknown connection: ");
                text.append(id.as_str());
                Err(ConnectionError(text))
            },
            Some(i) => {
                let was_ready = self.entries[i].phase == Phase::Ready;
                let e = ConnectionInfo {
                    id: self.entries[i].id.clone(),
                    number: self.entries[i].number,
                    phase: Phase::Closed,
                    last_activity: self.entries[i].last_activity,
                };
                self.entries.set(i, e);
                Ok(was_ready)
            },
        }
    }

    /// Queues `payload` once for each identifier of `id_list`, in order. Nothing
    /// is checked here: delivery decides.
    pub fn queue_send(&mut self, id_list: Vec<String>, payload: Vec<u8>)
        requires
            old(self).wf(),
        ensures
            final(self).wf(),
            final(self).entries == old(self).entries,
            final(self).events == old(self).events,
            final(self).next_number == old(self).next_number,
            pending_view(final(self).pending@) == pending_view(old(self).pending@)
                + id_list@.map_values(|id: String| (id@, payload@)),
    {
        let mut i: usize = 0;
        while i < id_list.len()
            invariant
                i <= id_list@.len(),
                self.wf(),
                self.entries == old(self).entries,
                self.events == old(self).events,
                self.next_number == old(self).next_number,
                pending_view(self.pending@) == pending_view(old(self).pending@) + id_list@.take(
                    i as int,
                ).map_values(|id: String| (id@, payload@)),
            decreases id_list@.len() - i,
        {
            let q = PendingSend { target: id_list[i].clone(), payload: copy_bytes(&payload) };
            let ghost before = self.pending@;
            self.pending.push(q);
            assert(pending_view(self.pending@) =~= pending_view(before).push((q.target@, q.payload@)));
            assert(id_list@.take(i + 1) =~= id_list@.take(i as int).push(id_list@[i as int]));
            assert(id_list@.take(i + 1).map_values(|id: String| (id@, payload@)) =~= id_list@.take(
                i as int,
            ).map_values(|id: String| (id@, payload@)).push((id_list@[i as int]@, payload@)));
            i = i + 1;
        }
        assert(id_list@.take(id_list@.len() as int) =~= id_list@);
    }

    /// Whether `id` names a connection in steady state.
    fn is_ready(&self, id: &String) -> (r: bool)
        requires
            self.wf(),
        ensures
            r == ready(self.entries@, id@),
    {
        proof {
            self.lemma_ids_unique();
        }
        match self.find(id) {
            None => false,
            Some(i) => {
                proof {
                    assert(known(self.entries@, id@));
                }
                self.entries[i].phase == Phase::Ready
            },
        }
    }

    /// Drops every queued payload whose connection is unknown or not in steady
    /// state, reporting each with an error event on its target.
    pub fn route_sends(&mut self)
        requires
            old(self).wf(),
        ensures
            final(self).wf(),
            final(self).entries == old(self).entries,
            final(self).next_number == old(self).next_number,
            pending_view(final(self).pending@) == deliverable(
                old(self).entries@,
                pending_view(old(self).pending@),
            ),
            final(self).events_view() == old(self).events_view() + drop_errors(
                old(self).entries@,
                pending_view(old(self).pending@),
            ),
    {
        let mut all: Vec<PendingSend> = Vec::new();
        std::mem::swap(&mut all, &mut self.pending);
        let ghost pv = pending_view(all@);
        let ghost ents = self.entries@;
        let mut i: usize = 0;
        assert(pending_view(self.pending@) =~= deliverable(ents, pv.take(0)));
        assert(self.events_view() =~= old(self).events_view() + drop_errors(ents, pv.take(0)));
        while i < all.len()
            invariant
                i <= all@.len(),
                pv == pending_view(all@),
                ents == self.entries@,
                self.wf(),
                self.entries == old(self).entries,
                self.next_number == old(self).next_number,
                pending_view(self.pending@) == deliverable(ents, pv.take(i as int)),
                self.events_view() == old(self).events_view() + drop_errors(ents, pv.take(i as int)),
            decreases all@.len() - i,
        {
            let target = &all[i].target;
            let ghost item = pv[i as int];
            assert(pv.take(i + 1).drop_last() =~= pv.take(i as int));
            assert(pv.take(i + 1).last() == item);
            let ghost ev_before = self.events_view();
            let ghost pd_before = self.pending@;
            if self.is_ready(target) {
                let q = PendingSend { target: target.clone(), payload: copy_bytes(&all[i].payload) };
                self.pending.push(q);
                assert(pending_view(self.pending@) =~= pending_view(pd_before).push(item));
                assert(drop_errors(ents, pv.take(i + 1)) =~= drop_errors(ents, pv.take(i as int)));
            } else {
                let text = match self.find(target) {
                    Some(_) => {
                        proof {
                            reveal_strlit("connection not ready: ");
                        }
                        let mut t = String::from_str("connection not ready: ");
                        t.append(target.as_str());
                        t
                    },
                    None => {
                        proof {
                            reveal_strlit("unknown connection: ");
                        }
                        let mut t = String::from_str("unknown connection: ");
                        t.append(target.as_str());
                        t
                    },
                };
                let ghost tv = text@;
                self.events.push(ConnectionEvent::ConnectionError(target.clone(), ConnectionError(text)));
                assert(self.events_view() =~= ev_before.push(EventView::Error(item.0, tv)));
                assert(drop_errors(ents, pv.take(i + 1)) =~= drop_errors(ents, pv.take(i as int)).push(
                    EventView::Error(item.0, tv),
                ));
                assert(pending_view(self.pending@) =~= deliverable(ents, pv.take(i + 1)));
            }
            i = i + 1;
        }
        assert(pv.take(all@.len() as int) =~= pv);
    }

    fn first_pending(&self, id: &String) -> (r: Option<usize>)
        ensures
            r matches Some(k) ==> first_for(pending_view(self.pending@), id@, k as int),
            r is None ==> none_for(pending_view(self.pending@), id@),
    {
        let ghost pv = pending_view(self.pending@);
        let mut k: usize = 0;
        while k < self.pending.len()
            invariant
                k <= self.pending@.len(),
                pv == pending_view(self.pending@),
                forall|j: int| 0 <= j < k ==> (#[trigger] pv[j]).0 != id@,
            decreases self.pending@.len() - k,
        {
            if self.pending[k].target == *id {
                return Some(k);
            }
            k = k + 1;
        }
        None
    }

    /// The next payload to write to connection `id`: the first one queued for it.
    pub fn next_payload(&self, id: &String) -> (r: Option<Vec<u8>>)
        ensures
            r is None <==> none_for(pending_view(self.pending@), id@),
            r matches Some(b) ==> exists|k: int|
                first_for(pending_view(self.pending@), id@, k) && b@ == (#[trigger] pending_view(
                    self.pending@,
                )[k]).1,
    {
        match self.first_pending(id) {
            None => None,
            Some(k) => {
                let b = copy_bytes(&self.pending[k].payload);
                assert(pending_view(self.pending@)[k as int].1 == b@);
                Some(b)
            },
        }
    }


    /// Applies the outcome of one piece of socket work on connection `id` at
    /// time `now`: the phase advances, what the step reports is queued as an
    /// event, the activity time is renewed on progress, and a payload the
    /// transport accepted leaves the queue. Returns whether progress was made.
    /// An unknown identifier changes nothing.
    pub fn tick(&mut self, id: &String, outcome: Outcome, now: u64) -> (r: bool)
        requires
            old(self).wf(),
        ensures
            final(self).wf(),
            final(self).next_number == old(self).next_number,
            !known(old(self).entries@, id@) ==> !r && final(self).entries == old(self).entries
                && final(self).events == old(self).events && final(self).pending == old(
                self,
            ).pending,
            known(old(self).entries@, id@) ==> exists|i: int|
                0 <= i < old(self).entries@.len() && #[trigger] old(self).entries@[i].id@ == id@
                    && tick_post(*old(self), *final(self), i, id@, outcome, now, r),
    {
        match self.find(id) {
            None => false,
            Some(i) => {
                let ghost o = outcome;
                let old_phase = self.entries[i].phase;
                let accepted = old_phase == Phase::Ready && match &outcome {
                    Outcome::Sent(Written::Accepted) => true,
                    _ => false,
                };
                let (p, n, progress) = advance(old_phase, outcome);
                let last = if progress {
                    now
                } else {
                    self.entries[i].last_activity
                };
                let e = ConnectionInfo {
                    id: self.entries[i].id.clone(),
                    number: self.entries[i].number,
                    phase: p,
                    last_activity: last,
                };
                self.entries.set(i, e);
                let ghost ev_before = self.events_view();
                match n {
                    None => {},
                    Some(Notice::Connected) => {
                        self.events.push(ConnectionEvent::Connect(id.clone()));
                    },
                    Some(Notice::Message(b)) => {
                        self.events.push(ConnectionEvent::Message(id.clone(), b));
                    },
                    Some(Notice::Error(e)) => {
                        self.events.push(ConnectionEvent::ConnectionError(id.clone(), e));
                    },
                }
                assert(self.events_view() =~= ev_before + notice_events(id@, notice_of(old_phase, o)));
                if accepted {
                    match self.first_pending(id) {
                        None => {},
                        Some(k) => {
                            let ghost before = self.pending@;
                            self.pending.remove(k);
                            assert(pending_view(self.pending@) =~= pending_view(before).remove(
                                k as int,
                            ));
                        },
                    }
                }
                progress
            },
        }
    }

    /// Whether connection `id` is in steady state and idle past the ping threshold at `now`.
    pub fn ping_due(&self, id: &String, now: u64) -> (r: bool)
        requires
            self.wf(),
        ensures
            r == exists|i: int|
                0 <= i < self.entries@.len() && #[trigger] self.entries@[i].id@ == id@
                    && self.entries@[i].phase is Ready && idle(now, self.entries@[i].last_activity)
                    > PING_AFTER_MS,
    {
        proof {
            self.lemma_ids_unique();
        }
        match self.find(id) {
            None => false,
            Some(i) => {
                let e = &self.entries[i];
                let idle_ms = if now >= e.last_activity {
                    now - e.last_activity
                } else {
                    0
                };
                e.phase == Phase::Ready && idle_ms > PING_AFTER_MS
            },
        }
    }

    /// Ends the tick at time `now`: every connection that is closed, or in
    /// steady state and idle past the timeout, is reported with one `Close` event and removed; the
    /// others stay in order. A timeout reports no error. Returns the removed
    /// identifiers.
    pub fn sweep(&mut self, now: u64) -> (r: Vec<String>)
        requires
            old(self).wf(),
        ensures
            final(self).wf(),
            final(self).next_number == old(self).next_number,
            final(self).pending == old(self).pending,
            final(self).entries@ == kept(old(self).entries@, now),
            final(self).events_view() == old(self).events_view() + closes(old(self).entries@, now),
            r@.map_values(|s: String| s@) == removed(old(self).entries@, now),
    {
        let mut all: Vec<ConnectionInfo> = Vec::new();
        std::mem::swap(&mut all, &mut self.entries);
        let ghost ents = all@;
        let mut out: Vec<String> = Vec::new();
        let mut i: usize = 0;
        assert(self.entries@ =~= kept(ents.take(0), now));
        assert(self.events_view() =~= old(self).events_view() + closes(ents.take(0), now));
        assert(out@.map_values(|s: String| s@) =~= removed(ents.take(0), now));
        while i < all.len()
            invariant
                i <= all@.len(),
                ents == all@,
                ents == old(self).entries@,
                self.next_number == old(self).next_number,
                self.pending == old(self).pending,
                old(self).wf(),
                self.entries@ == kept(ents.take(i as int), now),
                self.events_view() == old(self).events_view() + closes(ents.take(i as int), now),
                out@.map_values(|s: String| s@) == removed(ents.take(i as int), now),
                forall|k: int|
                    0 <= k < self.entries@.len() ==> (#[trigger] self.entries@[k]).id@ == id_text(
                        self.entries@[k].number as nat,
                    ) && self.entries@[k].number < self.next_number,
                forall|k: int, j: int|
                    0 <= k < self.entries@.len() && i <= j < ents.len() ==> (#[trigger] self.entries@[k]).number
                        < (#[trigger] ents[j]).number,
                forall|k: int, j: int|
                    0 <= k < j < self.entries@.len() ==> (#[trigger] self.entries@[k]).number
                        < (#[trigger] self.entries@[j]).number,
            decreases all@.len() - i,
        {
            let e = &all[i];
            let ghost item = ents[i as int];
            assert(ents.take(i + 1).drop_last() =~= ents.take(i as int));
            assert(ents.take(i + 1).last() == item);
            let idle_ms = if now >= e.last_activity {
                now - e.last_activity
            } else {
                0
            };
            let ghost ev_before = self.events_view();
            let ghost out_before = out@;
            let ghost en_before = self.entries@;
            if e.phase == Phase::Closed || (e.phase == Phase::Ready && idle_ms > TIMEOUT_MS) {
                self.events.push(ConnectionEvent::Close(e.id.clone()));
                out.push(e.id.clone());
                assert(self.events_view() =~= ev_before.push(EventView::Close(item.id@)));
                assert(out@.map_values(|s: String| s@) =~= out_before.map_values(|s: String| s@).push(
                    item.id@,
                ));
                assert(self.entries@ =~= kept(ents.take(i + 1), now));
            } else {
                let c = ConnectionInfo {
                    id: e.id.clone(),
                    number: e.number,
                    phase: e.phase,
                    last_activity: e.last_activity,
                };
                self.entries.push(c);
                assert(self.entries@ =~= en_before.push(item));
                assert(self.events_view() =~= old(self).events_view() + closes(ents.take(i + 1), now));
                assert(out@.map_values(|s: String| s@) =~= removed(ents.take(i + 1), now));
            }
            i = i + 1;
        }
        assert(ents.take(all@.len() as int) =~= ents);
        out
    }

    /// Whether some connection in steady state is idle past the timeout at `now`.
    fn any_timed_out(&self, now: u64) -> (r: bool)
        ensures
            r == exists|i: int|
                0 <= i < self.entries@.len() && times_out(#[trigger] self.entries@[i], now),
    {
        let mut i: usize = 0;
        while i < self.entries.len()
            invariant
                i <= self.entries@.len(),
                forall|k: int| 0 <= k < i ==> !times_out(#[trigger] self.entries@[k], now),
            decreases self.entries@.len() - i,
        {
            let e = &self.entries[i];
            let idle_ms = if now >= e.last_activity {
                now - e.last_activity
            } else {
                0
            };
            if e.phase == Phase::Ready && idle_ms > TIMEOUT_MS {
                assert(times_out(self.entries@[i as int], now));
                return true;
            }
            i = i + 1;
        }
        false
    }

    /// Ends a poll at time `now`: sweeps the table and hands over every queued
    /// event, oldest first. The poll did work when one of its ticks made
    /// progress (`ticked`: a change of phase, closing included, or a frame
    /// read) or the sweep closed a connection on timeout. Removing a
    /// connection that was closed before is no work.
    pub fn finish_poll(&mut self, ticked: bool, now: u64) -> (r: (bool, Vec<ConnectionEvent>))
        requires
            old(self).wf(),
        ensures
            final(self).wf(),
            final(self).next_number == old(self).next_number,
            final(self).pending == old(self).pending,
            final(self).entries@ == kept(old(self).entries@, now),
            final(self).events@.len() == 0,
            r.1@.map_values(|e: ConnectionEvent| e@) == old(self).events_view() + closes(
                old(self).entries@,
                now,
            ),
            r.0 == (ticked || exists|i: int|
                0 <= i < old(self).entries@.len() && times_out(#[trigger] old(self).entries@[i], now)),
    {
        let timed_out = self.any_timed_out(now);
        let _gone = self.sweep(now);
        let events = self.take_events();
        (ticked || timed_out, events)
    }

    /// Hands over the queued events, oldest first, and empties the queue.
    pub fn take_events(&mut self) -> (r: Vec<ConnectionEvent>)
        requires
            old(self).wf(),
        ensures
            final(self).wf(),
            r@ == old(self).events@,
            final(self).events@.len() == 0,
            final(self).entries == old(self).entries,
            final(self).pending == old(self).pending,
            final(self).next_number == old(self).next_number,
    {
        let mut r: Vec<ConnectionEvent> = Vec::new();
        std::mem::swap(&mut r, &mut self.events);
        r
    }

    /// The identifiers of the connections, in table order.
    pub fn ids(&self) -> (r: Vec<String>)
        ensures
            r@.map_values(|s: String| s@) == self.entries@.map_values(|e: ConnectionInfo| e.id@),
    {
        let mut r: Vec<String> = Vec::new();
        let mut i: usize = 0;
        while i < self.entries.len()
            invariant
                i <= self.entries@.len(),
                r@.map_values(|s: String| s@) == self.entries@.take(i as int).map_values(
                    |e: ConnectionInfo| e.id@,
                ),
            decreases self.entries@.len() - i,
        {
            let ghost before = r@;
            r.push(self.entries[i].id.clone());
            assert(r@.map_values(|s: String| s@) =~= before.map_values(|s: String| s@).push(
                self.entries@[i as int].id@,
            ));
            assert(self.entries@.take(i + 1) =~= self.entries@.take(i as int).push(
                self.entries@[i as int],
            ));
            assert(r@.map_values(|s: String| s@) =~= self.entries@.take(i + 1).map_values(
                |e: ConnectionInfo| e.id@,
            ));
            i = i + 1;
        }
        assert(self.entries@.take(i as int) =~= self.entries@);
        r
    }

    /// The phase of connection `id`, if it is in the table.
    pub fn phase_of(&self, id: &String) -> (r: Option<Phase>)
        requires
            self.wf(),
        ensures
            r is None <==> !known(self.entries@, id@),
            r matches Some(p) ==> exists|i: int|
                0 <= i < self.entries@.len() && #[trigger] self.entries@[i].id@ == id@
                    && self.entries@[i].phase == p,
    {
        match self.find(id) {
            None => None,
            Some(i) => Some(self.entries[i].phase),
        }
    }
}

} // verus!
