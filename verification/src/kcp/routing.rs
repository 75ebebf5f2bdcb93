//! Where datagrams go: which conversation they name, which session they reach,
//! who is let in, and what is forgotten of a session that leaves.
use vstd::prelude::*;

use super::answers;
use super::config::KcpConfig;
use super::laws;
use super::model;
use super::model::{Segment, State};
use super::session;
use super::session::{Channel, KcpSession, Session};
use super::shards;
use super::shards::Code;
use super::socket;
use super::socket::{Admission, Route, SessionKey, Table};
use crate::addr::{IpAddr, SocketAddr};
use crate::bytes;

verus! {

/// A shard is a datagram with a shard's type behind its four-byte id.
pub open spec fn is_data_shard(d: Seq<u8>) -> bool {
    d.len() >= 6 && d[4] == 0xf1 && d[5] == 0
}

pub open spec fn is_parity_shard(d: Seq<u8>) -> bool {
    d.len() >= 6 && d[4] == 0xf2 && d[5] == 0
}

/// A shard that names no session of its sender goes to the session that is
/// known of the sender.
pub proof fn law_shards_reach_the_known_session(t: Table, d: Seq<u8>, src: SocketAddr)
    requires
        is_data_shard(d) || is_parity_shard(d),
        t.conv_of.contains_key(src),
        t.sessions.contains_key(SessionKey { conv: t.conv_of[src], peer: src }),
        !t.sessions.contains_key(SessionKey { conv: socket::named_conv(d), peer: src }),
    ensures
        socket::routed(t, d, src) == Route::Deliver(
            SessionKey { conv: t.conv_of[src], peer: src },
        ),
{
}

/// Once a peer's session is entered, every parity shard of the peer reaches it.
pub proof fn law_parity_reaches_the_admitted_session(
    t: Table,
    key: SessionKey,
    s: KcpSession,
    now: u32,
    d: Seq<u8>,
)
    requires
        is_parity_shard(d),
        key.conv == 0 || !t.sessions.contains_key(SessionKey { conv: 0, peer: key.peer }),
    ensures
        socket::routed(socket::admitted(t, key, s, now), d, key.peer) == Route::Deliver(key),
        socket::routed(socket::registered(t, key, s), d, key.peer) == Route::Deliver(key),
{
}

/// A parity shard names no conversation: from a peer without a session it opens
/// none.
pub proof fn law_parity_opens_no_session(t: Table, d: Seq<u8>, src: SocketAddr)
    requires
        is_parity_shard(d),
        forall|k: SessionKey| #[trigger] t.sessions.contains_key(k) ==> k.peer != src,
    ensures
        socket::routed(t, d, src) == Route::Drop,
{
}

/// A datagram of segments names the conversation of its first segment, and a
/// data shard that of the packet that it carries.
pub proof fn law_datagrams_name_their_conversation(
    g: Segment,
    rest: Seq<u8>,
    seqid: u32,
)
    requires
        g.data.len() <= u32::MAX,
        81 <= g.cmd <= 84,
    ensures
        socket::named_conv(model::encoded(g) + rest) == g.conv,
        socket::named_conv(
            shards::framed(seqid, 0xf1, shards::rs_payload(model::encoded(g) + rest)),
        ) == g.conv,
        is_data_shard(shards::framed(seqid, 0xf1, shards::rs_payload(model::encoded(g) + rest))),
{
    answers::law_header_layout(g);
    let e = model::encoded(g);
    let d = e + rest;
    lemma_same4(d, 0, e, 0);
    assert(d[4] == e[4] && d[5] == e[5]);
    assert(bytes::le32_at(e, 0) == answers::number4(e, 0));
    let p = shards::rs_payload(d);
    let f = shards::framed(seqid, 0xf1, p);
    assert(f.len() == 8 + d.len());
    assert(f[4] == 0xf1 && f[5] == 0);
    assert(forall|i: int| 0 <= i < d.len() ==> #[trigger] f[i + 8] == d[i]);
    lemma_same4(f, 8, d, 0);
}

proof fn lemma_same4(x: Seq<u8>, i: int, y: Seq<u8>, j: int)
    requires
        x[i] == y[j] && x[i + 1] == y[j + 1] && x[i + 2] == y[j + 2] && x[i + 3] == y[j + 3],
    ensures
        bytes::le32_at(x, i) == bytes::le32_at(y, j),
{
}

/// A peer whose session is entered is reached both ways: what names its
/// conversation is delivered to it, and what is written to the conversation
/// goes to it. The sessions of others are reached as before.
pub proof fn law_admitted_sessions_are_reached(
    t: Table,
    key: SessionKey,
    s: KcpSession,
    now: u32,
    d: Seq<u8>,
    src: SocketAddr,
)
    ensures
        ({
            let u = socket::admitted(t, key, s, now);
            &&& u.sessions.contains_key(key) && u.sessions[key] == s
            &&& socket::written_to(u, key.conv) == Some(key)
            &&& src == key.peer && socket::named_conv(d) == key.conv ==> socket::routed(u, d, src)
                == Route::Deliver(key)
            &&& src != key.peer ==> socket::routed(u, d, src) == socket::routed(t, d, src)
            &&& forall|k: SessionKey| #[trigger]
                t.sessions.contains_key(k) && k != key ==> u.sessions.contains_key(k)
                    && u.sessions[k] == t.sessions[k]
        }),
{
    let u = socket::admitted(t, key, s, now);
    if src != key.peer {
        let a = SessionKey { conv: socket::named_conv(d), peer: src };
        assert(a != key);
        if t.conv_of.contains_key(src) {
            assert(SessionKey { conv: t.conv_of[src], peer: src } != key);
        }
    }
}

/// A session that leaves is forgotten: what was entered with it is as it was
/// before, and a datagram that names it may open it anew.
pub proof fn law_removal_undoes_admission(
    t: Table,
    key: SessionKey,
    s: KcpSession,
    now: u32,
    d: Seq<u8>,
)
    requires
        forall|k: SessionKey| #[trigger] t.sessions.contains_key(k) ==> k.peer != key.peer && k.conv
            != key.conv,
        !t.peer_of.contains_key(key.conv),
        !t.conv_of.contains_key(key.peer),
        !t.created.contains_key(key),
        t.counts.contains_key(key.peer.ip) ==> 0 < t.counts[key.peer.ip] < usize::MAX,
    ensures
        ({
            let u = socket::removed(socket::admitted(t, key, s, now), key);
            &&& u.sessions == t.sessions
            &&& u.peer_of == t.peer_of
            &&& u.conv_of == t.conv_of
            &&& u.created == t.created
            &&& u.counts == t.counts
            &&& socket::named_conv(d) == key.conv && key.conv != 0 ==> socket::routed(
                u,
                d,
                key.peer,
            ) == Route::NewPeer(key)
            &&& socket::written_to(u, key.conv) is None
        }),
{
    let a = socket::admitted(t, key, s, now);
    let u = socket::removed(a, key);
    assert(a.sessions.remove(key) =~= t.sessions);
    assert(!socket::talks_to(t.sessions, key.peer));
    assert(u.peer_of =~= t.peer_of);
    assert(u.conv_of =~= t.conv_of);
    assert(u.created =~= t.created);
    assert(u.counts =~= t.counts);
}

/// A peer with two sessions keeps the way to the one that stays.
pub proof fn law_other_session_stays_reachable(
    t: Table,
    gone: SessionKey,
    key: SessionKey,
    d: Seq<u8>,
)
    requires
        gone.peer == key.peer,
        gone != key,
        t.sessions.contains_key(key),
        t.conv_of.contains_key(key.peer),
        t.conv_of[key.peer] == key.conv,
        is_parity_shard(d),
        key.conv == 0 || !t.sessions.contains_key(SessionKey { conv: 0, peer: key.peer }),
    ensures
        socket::routed(socket::removed(t, gone), d, key.peer) == Route::Deliver(key),
{
    let u = socket::removed(t, gone);
    assert(u.sessions.contains_key(key));
}

// ── who is let in ───────────────────────────────────────────────────────

/// Whether times are in the order in which they passed, seen from `now`.
pub open spec fn in_order(log: Seq<u32>, now: u32) -> bool {
    forall|i: int, j: int|
        0 <= i < j < log.len() ==> model::ahead(now, #[trigger] log[i]) >= model::ahead(
            now,
            #[trigger] log[j],
        )
}

/// How many of the times lie within the last `window` milliseconds.
pub open spec fn within_last(log: Seq<u32>, now: u32, window: int) -> nat
    decreases log.len(),
{
    if log.len() == 0 {
        0
    } else {
        within_last(log.drop_first(), now, window) + (if model::ahead(now, log[0]) <= window {
            1nat
        } else {
            0nat
        })
    }
}

proof fn lemma_recent_counts(log: Seq<u32>, now: u32)
    requires
        in_order(log, now),
    ensures
        socket::recent(log, now).len() == within_last(log, now, 10_000),
        forall|i: int|
            0 <= i < socket::recent(log, now).len() ==> model::ahead(
                now,
                #[trigger] socket::recent(log, now)[i],
            ) <= 10_000,
    decreases log.len(),
{
    if log.len() > 0 {
        let rest = log.drop_first();
        assert forall|i: int, j: int| 0 <= i < j < rest.len() implies model::ahead(
            now,
            #[trigger] rest[i],
        ) >= model::ahead(now, #[trigger] rest[j]) by {
            assert(rest[i] == log[i + 1] && rest[j] == log[j + 1]);
        }
        lemma_recent_counts(rest, now);
        if model::ahead(now, log[0]) <= 10_000 {
            lemma_all_within(log, now);
        }
    }
}

proof fn lemma_all_within(log: Seq<u32>, now: u32)
    requires
        log.len() > 0 ==> model::ahead(now, log[0]) <= 10_000,
        in_order(log, now),
    ensures
        within_last(log, now, 10_000) == log.len(),
        forall|i: int| 0 <= i < log.len() ==> model::ahead(now, #[trigger] log[i]) <= 10_000,
    decreases log.len(),
{
    if log.len() > 0 {
        let rest = log.drop_first();
        assert forall|i: int, j: int| 0 <= i < j < rest.len() implies model::ahead(
            now,
            #[trigger] rest[i],
        ) >= model::ahead(now, #[trigger] rest[j]) by {
            assert(rest[i] == log[i + 1] && rest[j] == log[j + 1]);
        }
        if rest.len() > 0 {
            assert(rest[0] == log[1]);
            assert(model::ahead(now, log[0]) >= model::ahead(now, log[1]));
        }
        lemma_all_within(rest, now);
        assert forall|i: int| 0 <= i < log.len() implies model::ahead(now, #[trigger] log[i])
            <= 10_000 by {
            if i > 0 {
                assert(rest[i - 1] == log[i]);
            }
        }
    }
}

/// A new peer is let in if and only if its packet holds a header, there are
/// fewer than 1024 sessions and fewer than 64 from its address, and in the last
/// ten seconds fewer than 256 were created, fewer than 32 of them from its
/// address.
pub proof fn law_admission_is_fair(t: Table, key: SessionKey, len: nat, now: u32)
    requires
        in_order(t.log, now),
        in_order(socket::log_of(t, key.peer.ip), now),
    ensures
        socket::judged(t, key, len, now).1 == Admission::Admitted <==> {
            &&& len >= 24
            &&& t.sessions.dom().len() < 1024
            &&& socket::count_of(t, key.peer.ip) < 64
            &&& within_last(t.log, now, 10_000) < 256
            &&& within_last(socket::log_of(t, key.peer.ip), now, 10_000) < 32
        },
{
    lemma_recent_counts(t.log, now);
    lemma_recent_counts(socket::log_of(t, key.peer.ip), now);
}

/// Who is refused is told the first reason that holds: a packet too short, too
/// many sessions, too many from the address, too many created lately, too many
/// created lately from the address.
pub proof fn law_refusals_give_the_first_reason(t: Table, key: SessionKey, len: nat, now: u32)
    requires
        in_order(t.log, now),
        in_order(socket::log_of(t, key.peer.ip), now),
    ensures
        ({
            let why = socket::judged(t, key, len, now).1;
            &&& len < 24 <==> why == Admission::TooShort
            &&& why == Admission::SessionLimit ==> t.sessions.dom().len() >= 1024
            &&& why == Admission::PeerSessionLimit ==> socket::count_of(t, key.peer.ip) >= 64
                && t.sessions.dom().len() < 1024
            &&& why == Admission::RateLimit ==> within_last(t.log, now, 10_000) >= 256
                && socket::count_of(t, key.peer.ip) < 64
            &&& why == Admission::PeerRateLimit ==> within_last(
                socket::log_of(t, key.peer.ip),
                now,
                10_000,
            ) >= 32 && within_last(t.log, now, 10_000) < 256
        }),
{
    lemma_recent_counts(t.log, now);
    lemma_recent_counts(socket::log_of(t, key.peer.ip), now);
}

/// Each admission is charged once to its address and to the log, and to no
/// other address; a refusal is charged to nobody.
pub proof fn law_admission_is_charged_once(
    t: Table,
    key: SessionKey,
    s: KcpSession,
    now: u32,
    len: nat,
    ip: IpAddr,
)
    requires
        socket::has_room(t, key),
    ensures
        ({
            let u = socket::admitted(t, key, s, now);
            &&& socket::count_of(u, ip) == socket::count_of(t, ip) + (if ip == key.peer.ip {
                1int
            } else {
                0
            })
            &&& u.log.len() == t.log.len() + 1 && u.log.last() == now
            &&& socket::log_of(u, ip).len() == socket::log_of(t, ip).len() + (if ip
                == key.peer.ip {
                1int
            } else {
                0
            })
            &&& ip == key.peer.ip ==> socket::log_of(u, ip).last() == now
        }),
        socket::count_of(socket::judged(t, key, len, now).0, ip) == socket::count_of(t, ip),
{
}

/// A session that nobody accepts expires after thirty seconds, and one that was
/// accepted does not.
pub proof fn law_unaccepted_sessions_expire(
    t: Table,
    key: SessionKey,
    s: KcpSession,
    now: u32,
    passed: int,
)
    requires
        0 <= passed < 0x1_0000_0000,
    ensures
        ({
            let u = socket::admitted(t, key, s, now);
            let later = model::plus(now, passed);
            &&& socket::is_expired(u, key, later) <==> passed > 30_000
            &&& !socket::is_expired(Table { created: u.created.remove(key), ..u }, key, later)
        }),
{
}

/// Judging forgets nothing recent: the logs count as many creations in the last
/// ten seconds after it as before.
pub proof fn law_judging_forgets_nothing_recent(
    t: Table,
    key: SessionKey,
    len: nat,
    now: u32,
    ip: IpAddr,
)
    requires
        in_order(t.log, now),
        in_order(socket::log_of(t, key.peer.ip), now),
    ensures
        ({
            let u = socket::judged(t, key, len, now).0;
            &&& within_last(u.log, now, 10_000) == within_last(t.log, now, 10_000)
            &&& within_last(socket::log_of(u, ip), now, 10_000) == within_last(
                socket::log_of(t, ip),
                now,
                10_000,
            )
            &&& u == (Table { log: u.log, logs: u.logs, ..t })
        }),
{
    lemma_recent_same(t.log, now);
    lemma_recent_same(socket::log_of(t, key.peer.ip), now);
}

proof fn lemma_recent_same(log: Seq<u32>, now: u32)
    requires
        in_order(log, now),
    ensures
        within_last(socket::recent(log, now), now, 10_000) == within_last(log, now, 10_000),
    decreases log.len(),
{
    if log.len() > 0 && model::ahead(now, log[0]) > 10_000 {
        let rest = log.drop_first();
        assert forall|i: int, j: int| 0 <= i < j < rest.len() implies model::ahead(
            now,
            #[trigger] rest[i],
        ) >= model::ahead(now, #[trigger] rest[j]) by {
            assert(rest[i] == log[i + 1] && rest[j] == log[j + 1]);
        }
        lemma_recent_same(rest, now);
    }
}

/// Trimming forgets nothing recent either, and drops the logs that hold nothing
/// recent.
pub proof fn law_trimming_forgets_nothing_recent(t: Table, now: u32, ip: IpAddr)
    requires
        t.logs.contains_key(ip),
        in_order(t.logs[ip], now),
    ensures
        ({
            let logs = socket::logs_trimmed(t.logs, now);
            let n = within_last(t.logs[ip], now, 10_000);
            &&& logs.contains_key(ip) <==> n > 0
            &&& n > 0 ==> logs[ip].len() == n && within_last(logs[ip], now, 10_000) == n
        }),
{
    lemma_recent_counts(t.logs[ip], now);
    lemma_recent_same(t.logs[ip], now);
}

// ── from the wire to the stream ─────────────────────────────────────────

/// A first packet with the first segment opens a session that holds what the
/// segment carries, where there is no code.
pub proof fn law_first_segment_opens_a_session(
    config: KcpConfig,
    key: SessionKey,
    g: Segment,
    made: Option<KcpSession>,
)
    requires
        !config.has_fec(),
        50 <= config.mtu <= u32::MAX,
        g.conv == key.conv,
        g.cmd == 81,
        g.sn == 0,
        g.data.len() <= config.mtu - 24,
        socket::opened(config, key, model::encoded(g), made),
    ensures
        made matches Some(s) && {
            &&& s@.kcp.rcv_queue.len() == 1
            &&& s@.kcp.rcv_queue[0].data == g.data
            &&& s@.kcp.rcv_nxt == 1
            &&& s@.kcp.acklist == seq![(0u32, g.ts)]
            &&& s.code() is None
        },
{
    let new = session::fresh(key.conv, config);
    let d = model::encoded(g);
    assert(model::valid(new.kcp));
    laws::law_next_segment_is_delivered(new.kcp, g);
    assert(new.kcp.acklist.push((g.sn, g.ts)) =~= seq![(0u32, g.ts)]);
    let (code, packets) = choose|code: Option<Code>, packets: Seq<Option<Seq<u8>>>|
        #![trigger session::taken_in(new, code, d, packets)]
        {
            let (t, e) = session::taken_in(new, code, d, packets);
            &&& session::code_fits(code, config)
            &&& made is Some <==> e is Ok
            &&& made matches Some(s) ==> s@ == t && s.code() == code
        };
    assert(code is None);
    assert(shards::pruned(new.groups, new.clock) =~= new.groups);
    assert(session::without_stale(new) =~= new);
    let (t, e) = session::taken_in(new, code, d, packets);
    assert((t, e) == session::raw_input(new, d));
}

/// A datagram with the next segment of a session reaches its stream: the payload
/// is the next frame, where the stream has room and there is no code.
pub proof fn law_next_segment_reaches_the_stream(
    s: Session,
    ch: Channel,
    g: Segment,
    t: Session,
    after: Channel,
    stays: bool,
)
    requires
        model::valid(s.kcp),
        s.kcp.rcv_queue.len() == 0,
        s.kcp.rcv_buf.len() == 0,
        s.groups.len() == 0,
        s.pending is None,
        !ch.closed,
        ch.frames.len() < ch.capacity,
        g.conv == s.kcp.conv,
        g.cmd == 81,
        g.frg == 0,
        g.sn == s.kcp.rcv_nxt,
        0 < g.data.len() <= s.kcp.mss,
        g.data.len() <= u32::MAX,
        socket::delivered(s, None, ch, model::encoded(g), t, after, stays),
    ensures
        stays,
        after.frames == ch.frames.push(g.data),
        t.pending is None,
        t.kcp.rcv_queue.len() == 0,
{
    let d = model::encoded(g);
    lemma_taken_in_next(s, g);
    let packets = choose|packets: Seq<Option<Seq<u8>>>|
        {
            let (u, e) = #[trigger] session::taken_in(s, None, d, packets);
            let (v, to, f) = session::handed_over(u, ch);
            &&& e is Err ==> t == u && after == ch && stays
            &&& e is Ok ==> t == v && after == to && stays == (f is Ok)
        };
    let (u, e) = session::taken_in(s, None, d, packets);
    assert(e is Ok);
    lemma_one_frame(u, ch, g.data);
}

proof fn lemma_taken_in_next(s: Session, g: Segment)
    requires
        model::valid(s.kcp),
        s.kcp.rcv_queue.len() == 0,
        s.kcp.rcv_buf.len() == 0,
        s.groups.len() == 0,
        s.pending is None,
        g.conv == s.kcp.conv,
        g.cmd == 81,
        g.sn == s.kcp.rcv_nxt,
        g.data.len() <= s.kcp.mss,
        g.data.len() <= u32::MAX,
    ensures
        forall|packets: Seq<Option<Seq<u8>>>| {
            let (u, e) = #[trigger] session::taken_in(s, None, model::encoded(g), packets);
            &&& e is Ok
            &&& u.pending is None
            &&& u.kcp.rcv_queue.len() == 1
            &&& u.kcp.rcv_queue[0].frg == g.frg
            &&& u.kcp.rcv_queue[0].data == g.data
            &&& u.kcp.rcv_buf.len() == 0
        },
{
    laws::law_next_segment_is_delivered(s.kcp, g);
    assert(shards::pruned(s.groups, s.clock) =~= s.groups);
    assert(session::without_stale(s) =~= s);
}

proof fn lemma_one_frame(u: Session, ch: Channel, data: Seq<u8>)
    requires
        u.pending is None,
        !ch.closed,
        ch.frames.len() < ch.capacity,
        u.kcp.rcv_queue.len() == 1,
        u.kcp.rcv_queue[0].frg == 0,
        u.kcp.rcv_queue[0].data == data,
        u.kcp.rcv_buf.len() == 0,
        0 < data.len() <= u32::MAX,
    ensures
        ({
            let (v, to, f) = session::handed_over(u, ch);
            &&& f is Ok
            &&& to.frames == ch.frames.push(data)
            &&& v.pending is None
            &&& v.kcp.rcv_queue.len() == 0
        }),
{
    let q = u.kcp.rcv_queue;
    assert(model::message_end(q) == 1);
    assert(q.take(1) =~= q);
    assert(model::message(q) =~= data) by {
        assert(q.drop_last() =~= Seq::empty());
        assert(model::flattened(q.drop_last()) =~= Seq::<u8>::empty());
        assert(model::flattened(q) =~= data);
    }
    let w = Session { kcp: model::received(u.kcp), ..u };
    assert(w.kcp.rcv_queue.len() == 0) by {
        let m = State { rcv_queue: q.skip(1), ..u.kcp };
        assert(!model::first_is_ready(m));
    }
    let c = Channel { frames: ch.frames.push(data), ..ch };
    assert(model::receive_error(q) is None);
    assert(session::drained(w, c) == (w, c, Ok::<(), session::SessionError>(())));
    assert(session::drained(u, ch) == session::drained(w, c));
}

} // verus!
