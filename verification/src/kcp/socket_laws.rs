//! What holds of the driver's tables as a whole.
use vstd::prelude::*;

use super::driver;
use super::driver::Port;
use super::model;
use super::session::KcpSession;
use super::socket;
use super::socket::{
    Admission, Route, SessionKey, Table, MAX_SESSIONS, MAX_SESSIONS_PER_IP,
    MAX_SESSION_CREATES_PER_IP_PER_WINDOW, MAX_SESSION_CREATES_PER_WINDOW,
    SESSION_CREATE_WINDOW_MS, UNACCEPTED_SESSION_TIMEOUT_MS,
};
use crate::addr::{IpAddr, SocketAddr};

verus! {

/// A session gets datagrams of its own peer alone, and a datagram opens a
/// session only where it names a conversation that its sender does not have.
pub proof fn law_routing_stays_with_the_peer(t: Table, d: Seq<u8>, src: SocketAddr)
    ensures
        socket::routed(t, d, src) matches Route::Deliver(k) ==> t.sessions.contains_key(k) && k.peer
            == src,
        socket::routed(t, d, src) matches Route::NewPeer(k) ==> !t.sessions.contains_key(k)
            && k.peer == src && k.conv != 0 && k.conv == socket::named_conv(d),
{
}

/// A datagram that names a session goes to that session.
pub proof fn law_named_session_is_reached(t: Table, d: Seq<u8>, src: SocketAddr)
    requires
        t.sessions.contains_key(SessionKey { conv: socket::named_conv(d), peer: src }),
    ensures
        socket::routed(t, d, src) == Route::Deliver(
            SessionKey { conv: socket::named_conv(d), peer: src },
        ),
{
}

/// Ages are right across the wrap of the clock: what was noted `d` ms ago lies
/// outside the window just where `d` exceeds it.
pub proof fn law_rate_window_survives_the_wrap(t: u32, d: int)
    requires
        0 <= d < 0x1_0000_0000,
    ensures
        socket::is_old(t, model::plus(t, d)) <==> d > SESSION_CREATE_WINDOW_MS,
{
}

/// What holds of the tables at all times: no address has more sessions counted
/// than allowed, and no log is longer than its limit.
pub open spec fn within_limits(t: Table) -> bool {
    &&& forall|ip: IpAddr| #[trigger] t.counts.contains_key(ip) ==> t.counts[ip] <= MAX_SESSIONS_PER_IP
    &&& t.log.len() <= MAX_SESSION_CREATES_PER_WINDOW
    &&& forall|ip: IpAddr| #[trigger]
        t.logs.contains_key(ip) ==> t.logs[ip].len() <= MAX_SESSION_CREATES_PER_IP_PER_WINDOW
}

proof fn lemma_recent_shorter(log: Seq<u32>, now: u32)
    ensures
        socket::recent(log, now).len() <= log.len(),
    decreases log.len(),
{
    if log.len() > 0 && socket::is_old(log[0], now) {
        lemma_recent_shorter(log.drop_first(), now);
    }
}

/// Judging a new peer keeps the limits, and lets it in only where there is
/// room.
pub proof fn law_judging_keeps_the_limits(t: Table, key: SessionKey, len: nat, now: u32)
    requires
        within_limits(t),
    ensures
        within_limits(socket::judged(t, key, len, now).0),
        socket::judged(t, key, len, now).0.sessions == t.sessions,
        socket::judged(t, key, len, now).1 == Admission::Admitted ==> socket::has_room(
            socket::judged(t, key, len, now).0,
            key,
        ),
{
    lemma_recent_shorter(t.log, now);
    lemma_recent_shorter(socket::log_of(t, key.peer.ip), now);
}

/// Letting a new peer in where there is room keeps every limit, the one on all
/// sessions with them.
pub proof fn law_admission_keeps_the_limits(t: Table, key: SessionKey, s: KcpSession, now: u32)
    requires
        within_limits(t),
        t.sessions.dom().finite(),
        socket::has_room(t, key),
    ensures
        within_limits(socket::admitted(t, key, s, now)),
        socket::admitted(t, key, s, now).sessions.dom().len() <= MAX_SESSIONS,
{
    assert(t.sessions.insert(key, s).dom() =~= t.sessions.dom().insert(key));
}

/// Removing a session keeps the limits, and leaves no trace of it; all other
/// sessions stay as they are.
pub proof fn law_removal_leaves_no_trace(t: Table, key: SessionKey)
    requires
        within_limits(t),
    ensures
        within_limits(socket::removed(t, key)),
        !socket::removed(t, key).sessions.contains_key(key),
        !socket::removed(t, key).created.contains_key(key),
        !socket::removed(t, key).peer_of.contains_key(key.conv),
        forall|k: SessionKey|
            k != key ==> (#[trigger] socket::removed(t, key).sessions.contains_key(k)
                <==> t.sessions.contains_key(k)) && (t.sessions.contains_key(k) ==> socket::removed(
                t,
                key,
            ).sessions[k] == t.sessions[k]),
{
}

/// Trimming the logs keeps the limits, and leaves no empty log behind.
pub proof fn law_trimming_keeps_the_limits(t: Table, now: u32)
    requires
        within_limits(t),
    ensures
        within_limits(Table { logs: socket::logs_trimmed(t.logs, now), ..t }),
        forall|ip: IpAddr| #[trigger]
            socket::logs_trimmed(t.logs, now).contains_key(ip) ==> socket::logs_trimmed(
                t.logs,
                now,
            )[ip].len() > 0,
{
    assert forall|ip: IpAddr| #[trigger] socket::logs_trimmed(t.logs, now).contains_key(ip) implies {
        &&& socket::logs_trimmed(t.logs, now)[ip].len() > 0
        &&& socket::logs_trimmed(t.logs, now)[ip].len() <= MAX_SESSION_CREATES_PER_IP_PER_WINDOW
    } by {
        lemma_recent_shorter(t.logs[ip], now);
        assert(t.logs.contains_key(ip));
    }
}

/// A session that the listener accepted does not expire; one that it did not
/// accept expires once more than the timeout has passed, the wrap of the clock
/// notwithstanding.
pub proof fn law_only_unaccepted_sessions_expire(t: Table, key: SessionKey, now: u32, d: int)
    ensures
        !socket::is_expired(Table { created: t.created.remove(key), ..t }, key, now),
        t.created.contains_key(key) && 0 <= d < 0x1_0000_0000 && now == model::plus(
            t.created[key],
            d,
        ) ==> (socket::is_expired(t, key, now) <==> d > UNACCEPTED_SESSION_TIMEOUT_MS),
{
}

proof fn lemma_all_removed(t: Table, keys: Seq<SessionKey>)
    ensures
        within_limits(t) ==> within_limits(socket::all_removed(t, keys)),
        forall|k: SessionKey| #[trigger]
            socket::all_removed(t, keys).sessions.contains_key(k) <==> t.sessions.contains_key(k)
                && !keys.contains(k),
        forall|k: SessionKey|
            socket::all_removed(t, keys).sessions.contains_key(k) ==> #[trigger] socket::all_removed(
                t,
                keys,
            ).sessions[k] == t.sessions[k],
        forall|k: SessionKey| #[trigger]
            socket::all_removed(t, keys).created.contains_key(k) <==> t.created.contains_key(k)
                && !keys.contains(k),
    decreases keys.len(),
{
    if keys.len() > 0 {
        let head = keys.drop_last();
        lemma_all_removed(t, head);
        if within_limits(t) {
            law_removal_leaves_no_trace(socket::all_removed(t, head), keys.last());
        }
        assert forall|k: SessionKey| #[trigger] keys.contains(k) <==> head.contains(k) || k
            == keys.last() by {
            if keys.contains(k) {
                let i = choose|i: int| 0 <= i < keys.len() && keys[i] == k;
                if i < head.len() {
                    assert(head[i] == k);
                }
            }
            if head.contains(k) {
                let i = choose|i: int| 0 <= i < head.len() && head[i] == k;
                assert(keys[i] == k);
            }
        }
    }
}

/// A tick keeps the limits.
pub proof fn law_ticks_keep_the_limits(
    t: Table,
    order: Seq<SessionKey>,
    ports: Seq<Port>,
    now: u32,
    mid: Table,
    gone: Seq<SessionKey>,
    expired: Seq<SessionKey>,
)
    requires
        within_limits(t),
        driver::all_driven(t, order, ports, now, mid),
    ensures
        within_limits(driver::tidied(mid, gone, expired, now)),
{
    lemma_all_removed(mid, gone);
    lemma_all_removed(socket::all_removed(mid, gone), expired);
    law_trimming_keeps_the_limits(
        socket::all_removed(socket::all_removed(mid, gone), expired),
        now,
    );
}

/// A tick drives every session, and removes just those that could not hand
/// over, whose link is dead, or that nobody accepted in time.
pub proof fn law_ticks_lose_no_session(
    t: Table,
    order: Seq<SessionKey>,
    ports: Seq<Port>,
    now: u32,
    mid: Table,
    gone: Seq<SessionKey>,
    expired: Seq<SessionKey>,
    i: int,
)
    requires
        forall|k: SessionKey| #[trigger] t.sessions.contains_key(k) <==> order.contains(k),
        driver::all_driven(t, order, ports, now, mid),
        driver::are_leaving(t, order, ports, now, gone),
        driver::are_expired(socket::all_removed(mid, gone), now, expired),
        0 <= i < order.len(),
    ensures
        ({
            let after = driver::tidied(mid, gone, expired, now);
            let ticked = driver::tick_at(t, order, ports, now, i);
            &&& after.sessions.contains_key(order[i]) <==> ticked.stays && !socket::is_expired(
                t,
                order[i],
                now,
            )
            &&& after.sessions.contains_key(order[i]) ==> after.sessions[order[i]]@
                == ticked.session && after.sessions[order[i]].same_setup(&t.sessions[order[i]])
            &&& forall|k: SessionKey| #[trigger]
                after.sessions.contains_key(k) ==> t.sessions.contains_key(k)
        }),
{
    let k = order[i];
    assert(order.contains(k));
    lemma_all_removed(mid, gone);
    lemma_all_removed(socket::all_removed(mid, gone), expired);
    lemma_created_kept(mid, gone, k);
    assert(mid.created == t.created);
}

/// Removing other sessions keeps when a session was created.
proof fn lemma_created_kept(t: Table, keys: Seq<SessionKey>, k: SessionKey)
    ensures
        !keys.contains(k) && t.created.contains_key(k) ==> socket::all_removed(
            t,
            keys,
        ).created[k] == t.created[k],
    decreases keys.len(),
{
    if keys.len() > 0 {
        let head = keys.drop_last();
        lemma_created_kept(t, head, k);
        lemma_all_removed(t, head);
        if !keys.contains(k) {
            assert(keys[keys.len() - 1] != k);
            assert forall|j: int| 0 <= j < head.len() implies head[j] != k by {
                assert(keys[j] == head[j]);
            }
        }
    }
}

// ── sessions and counts ─────────────────────────────────────────────────

/// The sessions with an address.
pub open spec fn sessions_with(t: Table, ip: IpAddr) -> Set<SessionKey> {
    t.sessions.dom().filter(|k: SessionKey| k.peer.ip == ip)
}

/// Whether every session is counted: no address has more sessions than are
/// counted for it. With it stands that only sessions that are there wait to be
/// accepted.
pub open spec fn all_counted(t: Table) -> bool {
    &&& t.sessions.dom().finite()
    &&& forall|k: SessionKey| #[trigger] t.created.contains_key(k) ==> t.sessions.contains_key(k)
    &&& forall|ip: IpAddr| #[trigger] sessions_with(t, ip).len() <= socket::count_of(t, ip)
}

/// What happens to the tables of a driver that listens.
pub enum Event {
    /// A new peer's first packet of `len` bytes is judged.
    Judge { key: SessionKey, len: nat, now: u32 },
    /// The listener takes the session of a peer that was let in.
    Admit { key: SessionKey, s: KcpSession, now: u32 },
    /// The listener's queue is full: it does not take the session.
    Refuse { key: SessionKey, s: KcpSession },
    /// The listener's user accepts a session.
    Accept { key: SessionKey },
    /// A session takes in a datagram or data to send.
    Drive { key: SessionKey, s: KcpSession },
    /// A session is removed.
    Remove { key: SessionKey },
    /// All sessions are driven, and those removed that leave or expire.
    Tick {
        order: Seq<SessionKey>,
        ports: Seq<Port>,
        now: u32,
        mid: Table,
        gone: Seq<SessionKey>,
        expired: Seq<SessionKey>,
    },
}

/// Whether an event can happen: a session is let in where there is room, and
/// driven or removed while it is there.
pub open spec fn can_happen(t: Table, e: Event) -> bool {
    match e {
        Event::Judge { .. } => true,
        Event::Admit { key, .. } => socket::has_room(t, key),
        Event::Refuse { key, .. } => socket::has_room(t, key),
        Event::Accept { .. } => true,
        Event::Drive { key, .. } => t.sessions.contains_key(key),
        Event::Remove { key } => t.sessions.contains_key(key),
        Event::Tick { order, ports, now, mid, gone, expired } => {
            &&& forall|k: SessionKey| #[trigger] t.sessions.contains_key(k) <==> order.contains(k)
            &&& driver::all_driven(t, order, ports, now, mid)
            &&& driver::are_leaving(t, order, ports, now, gone)
            &&& driver::are_expired(socket::all_removed(mid, gone), now, expired)
        },
    }
}

/// The tables after an event.
pub open spec fn table_after(t: Table, e: Event) -> Table {
    match e {
        Event::Judge { key, len, now } => socket::judged(t, key, len, now).0,
        Event::Admit { key, s, now } => socket::admitted(t, key, s, now),
        Event::Refuse { .. } => t,
        Event::Accept { key } => Table { created: t.created.remove(key), ..t },
        Event::Drive { key, s } => Table { sessions: t.sessions.insert(key, s), ..t },
        Event::Remove { key } => socket::removed(t, key),
        Event::Tick { mid, gone, expired, now, .. } => driver::tidied(mid, gone, expired, now),
    }
}

/// The tables after events, one after the other.
pub open spec fn table_after_all(t: Table, events: Seq<Event>) -> Table
    decreases events.len(),
{
    if events.len() == 0 {
        t
    } else {
        table_after(table_after_all(t, events.drop_last()), events.last())
    }
}

/// Whether events can happen, one after the other.
pub open spec fn can_all_happen(t: Table, events: Seq<Event>) -> bool
    decreases events.len(),
{
    events.len() > 0 ==> {
        &&& can_all_happen(t, events.drop_last())
        &&& can_happen(table_after_all(t, events.drop_last()), events.last())
    }
}

proof fn lemma_same_sessions(t: Table, u: Table)
    requires
        u.sessions.dom() == t.sessions.dom(),
    ensures
        forall|ip: IpAddr| #[trigger] sessions_with(u, ip) == sessions_with(t, ip),
{
    assert forall|ip: IpAddr| #[trigger] sessions_with(u, ip) == sessions_with(t, ip) by {
        assert(sessions_with(u, ip) =~= sessions_with(t, ip));
    }
}

proof fn lemma_admission_counts(t: Table, key: SessionKey, s: KcpSession, now: u32)
    requires
        all_counted(t),
        socket::has_room(t, key),
    ensures
        all_counted(socket::admitted(t, key, s, now)),
{
    let u = socket::admitted(t, key, s, now);
    assert(u.sessions.dom() =~= t.sessions.dom().insert(key));
    assert forall|ip: IpAddr| #[trigger] sessions_with(u, ip).len() <= socket::count_of(u, ip) by {
        let before = sessions_with(t, ip);
        assert(before.len() <= socket::count_of(t, ip));
        if ip == key.peer.ip {
            assert(sessions_with(u, ip) =~= before.insert(key));
        } else {
            assert(sessions_with(u, ip) =~= before);
        }
    }
}

proof fn lemma_removal_counts(t: Table, key: SessionKey)
    requires
        all_counted(t),
        t.sessions.contains_key(key),
    ensures
        all_counted(socket::removed(t, key)),
{
    let u = socket::removed(t, key);
    assert(u.sessions.dom() =~= t.sessions.dom().remove(key));
    assert forall|ip: IpAddr| #[trigger] sessions_with(u, ip).len() <= socket::count_of(u, ip) by {
        let before = sessions_with(t, ip);
        assert(before.len() <= socket::count_of(t, ip));
        if ip == key.peer.ip {
            assert(before.contains(key));
            assert(sessions_with(u, ip) =~= before.remove(key));
        } else {
            assert(sessions_with(u, ip) =~= before);
        }
    }
}

proof fn lemma_removals_count(t: Table, keys: Seq<SessionKey>)
    requires
        all_counted(t),
        keys.no_duplicates(),
        forall|k: SessionKey| #[trigger] keys.contains(k) ==> t.sessions.contains_key(k),
    ensures
        all_counted(socket::all_removed(t, keys)),
    decreases keys.len(),
{
    if keys.len() > 0 {
        let head = keys.drop_last();
        assert forall|k: SessionKey| #[trigger] head.contains(k) implies t.sessions.contains_key(
            k,
        ) by {
            let i = choose|i: int| 0 <= i < head.len() && head[i] == k;
            assert(keys[i] == k);
            assert(keys.contains(k));
        }
        lemma_removals_count(t, head);
        lemma_all_removed(t, head);
        assert(keys.contains(keys.last()));
        assert(!head.contains(keys.last())) by {
            if head.contains(keys.last()) {
                let i = choose|i: int| 0 <= i < head.len() && head[i] == keys.last();
                assert(keys[i] == keys[keys.len() - 1]);
            }
        }
        lemma_removal_counts(socket::all_removed(t, head), keys.last());
    }
}

proof fn lemma_tick_counts(
    t: Table,
    order: Seq<SessionKey>,
    ports: Seq<Port>,
    now: u32,
    mid: Table,
    gone: Seq<SessionKey>,
    expired: Seq<SessionKey>,
)
    requires
        all_counted(t),
        can_happen(t, Event::Tick { order, ports, now, mid, gone, expired }),
    ensures
        all_counted(driver::tidied(mid, gone, expired, now)),
{
    lemma_same_sessions(t, mid);
    assert forall|k: SessionKey| #[trigger] mid.created.contains_key(k) implies
        mid.sessions.contains_key(k) by {
        assert(t.created.contains_key(k));
        assert(t.sessions.contains_key(k));
    }
    assert(all_counted(mid));
    assert forall|k: SessionKey| #[trigger] gone.contains(k) implies mid.sessions.contains_key(
        k,
    ) by {
        assert(order.contains(k));
        assert(t.sessions.contains_key(k));
    }
    lemma_removals_count(mid, gone);
    let left = socket::all_removed(mid, gone);
    assert forall|k: SessionKey| #[trigger] expired.contains(k) implies left.sessions.contains_key(
        k,
    ) by {
        assert(socket::is_expired(left, k, now));
    }
    lemma_removals_count(left, expired);
    lemma_same_sessions(
        socket::all_removed(left, expired),
        driver::tidied(mid, gone, expired, now),
    );
}

/// Every event keeps the limits, and keeps every session counted.
pub proof fn law_events_keep_the_counts(t: Table, e: Event)
    requires
        within_limits(t),
        all_counted(t),
        can_happen(t, e),
    ensures
        within_limits(table_after(t, e)),
        all_counted(table_after(t, e)),
{
    let u = table_after(t, e);
    match e {
        Event::Judge { key, len, now } => {
            law_judging_keeps_the_limits(t, key, len, now);
            lemma_same_sessions(t, u);
        },
        Event::Admit { key, s, now } => {
            law_admission_keeps_the_limits(t, key, s, now);
            lemma_admission_counts(t, key, s, now);
        },
        Event::Refuse { .. } => {},
        Event::Accept { key } => {
            lemma_same_sessions(t, u);
        },
        Event::Drive { key, s } => {
            assert(u.sessions.dom() =~= t.sessions.dom());
            lemma_same_sessions(t, u);
        },
        Event::Remove { key } => {
            law_removal_leaves_no_trace(t, key);
            lemma_removal_counts(t, key);
        },
        Event::Tick { order, ports, now, mid, gone, expired } => {
            law_ticks_keep_the_limits(t, order, ports, now, mid, gone, expired);
            lemma_tick_counts(t, order, ports, now, mid, gone, expired);
        },
    }
}

/// Whatever happens to a driver that listens, an address never has more
/// sessions than are counted for it, and so never more than the limit.
pub proof fn law_no_address_exceeds_its_limit(events: Seq<Event>, ip: IpAddr)
    requires
        can_all_happen(socket::no_sessions(), events),
    ensures
        within_limits(table_after_all(socket::no_sessions(), events)),
        all_counted(table_after_all(socket::no_sessions(), events)),
        sessions_with(table_after_all(socket::no_sessions(), events), ip).len() <= MAX_SESSIONS_PER_IP,
    decreases events.len(),
{
    let t = table_after_all(socket::no_sessions(), events);
    if events.len() > 0 {
        law_no_address_exceeds_its_limit(events.drop_last(), ip);
        law_events_keep_the_counts(
            table_after_all(socket::no_sessions(), events.drop_last()),
            events.last(),
        );
    } else {
        assert forall|a: IpAddr| #[trigger] sessions_with(t, a).len() <= socket::count_of(t, a) by {
            assert(sessions_with(t, a) =~= Set::<SessionKey>::empty());
        }
    }
    assert(sessions_with(t, ip).len() <= socket::count_of(t, ip));
}

} // verus!
