//! KCP socket driver: what is decided for the UDP event loop that all sessions
//! share. The loop itself (sockets, channels, timers) stays outside.
use std::collections::{HashMap, VecDeque};
use vstd::prelude::*;

use super::config::{KcpConfig, MAX_KCP_MTU};
use super::model;
use super::session;
use super::session::{Channel, KcpSession, ReadChannel, Session};
use super::shards;
use super::shards::{Code, TYPE_DATA, TYPE_PARITY};
use crate::addr::{IpAddr, SocketAddr};
use crate::bytes;
use crate::dict::{Dict, Key};
use crate::kcp_compat::matrix;

verus! {

broadcast use vstd::std_specs::hash::group_hash_axioms;

/// Max unprocessed write requests before writers are held back. Less than the
/// capacity of the write channel, so that writers wait before it is full.
pub const KCP_WRITE_BACKLOG_THRESHOLD: usize = 200;

/// Hard limit on total KCP sessions.
pub const MAX_SESSIONS: usize = 1024;

/// Per-IP session limit.
pub const MAX_SESSIONS_PER_IP: usize = 64;

/// Maximum time (ms) a session can exist without being accepted by the
/// listener.
pub const UNACCEPTED_SESSION_TIMEOUT_MS: u32 = 30_000;

/// Session-creation rate window (ms). Ages are taken modulo 2^32, so that the
/// clock's wrap does no harm.
pub const SESSION_CREATE_WINDOW_MS: u32 = 10_000;

/// Max new sessions per window across all peers.
pub const MAX_SESSION_CREATES_PER_WINDOW: usize = 256;

/// Max new sessions per IP per window.
pub const MAX_SESSION_CREATES_PER_IP_PER_WINDOW: usize = 32;

/// A new peer's first packet has at least a KCP header.
pub const MIN_KCP_PACKET: usize = 24;

/// Packets kept for the next tick when the send buffer is full.
pub const MAX_PENDING_UDP: usize = 2048;

/// A conversation with a peer.
#[derive(Debug, Clone, Copy, PartialEq, Eq, Structural)]
pub struct SessionKey {
    pub conv: u32,
    pub peer: SocketAddr,
}

impl Key for SessionKey {
    fn same(&self, other: &Self) -> (r: bool) {
        *self == *other
    }
}

/// Packets for a peer.
pub struct Outgoing {
    pub peer: SocketAddr,
    pub packets: Vec<Vec<u8>>,
}

/// What becomes of a datagram.
#[derive(Debug, Clone, Copy, PartialEq, Eq, Structural)]
pub enum Route {
    /// It goes to this session.
    Deliver(SessionKey),
    /// It may open this session.
    NewPeer(SessionKey),
    /// It is dropped.
    Drop,
}

/// Whether a new peer is let in.
#[derive(Debug, Clone, Copy, PartialEq, Eq, Structural)]
pub enum Admission {
    Admitted,
    /// The packet is too short to open a session.
    TooShort,
    /// There are too many sessions.
    SessionLimit,
    /// There are too many sessions from its address.
    PeerSessionLimit,
    /// Too many sessions were created lately.
    RateLimit,
    /// Too many sessions were created lately from its address.
    PeerRateLimit,
}

// ── the driver's tables as mathematics ──────────────────────────────────

/// The driver's tables.
#[verifier::ext_equal]
pub struct Table {
    pub sessions: Map<SessionKey, KcpSession>,
    /// The peer of a conversation, for the write path.
    pub peer_of: Map<u32, SocketAddr>,
    /// The conversation of a peer, for shards that do not name one.
    pub conv_of: Map<SocketAddr, u32>,
    /// Sessions per address.
    pub counts: Map<IpAddr, usize>,
    /// When sessions that are not yet accepted were created.
    pub created: Map<SessionKey, u32>,
    /// When sessions were created lately.
    pub log: Seq<u32>,
    /// The same, by address.
    pub logs: Map<IpAddr, Seq<u32>>,
}

/// The tables of a new driver.
pub open spec fn no_sessions() -> Table {
    Table {
        sessions: Map::empty(),
        peer_of: Map::empty(),
        conv_of: Map::empty(),
        counts: Map::empty(),
        created: Map::empty(),
        log: Seq::empty(),
        logs: Map::empty(),
    }
}

/// Whether a datagram is framed as a shard.
pub open spec fn is_fec(d: Seq<u8>) -> bool {
    d.len() >= 6 && (bytes::le16_at(d, 4) == TYPE_DATA || bytes::le16_at(d, 4) == TYPE_PARITY)
}

/// The conversation that a datagram names: that of the KCP header, which in a
/// data shard stands behind the shard's own; 0 where there is none.
pub open spec fn named_conv(d: Seq<u8>) -> u32 {
    if is_fec(d) {
        if bytes::le16_at(d, 4) == TYPE_DATA && d.len() >= 12 {
            bytes::le32_at(d, 8)
        } else {
            0
        }
    } else if d.len() >= 4 {
        bytes::le32_at(d, 0)
    } else {
        0
    }
}

/// Where a datagram from `src` goes: to the session it names; a shard else to
/// the conversation known of its sender; else it may open a session.
pub open spec fn routed(t: Table, d: Seq<u8>, src: SocketAddr) -> Route {
    let key = SessionKey { conv: named_conv(d), peer: src };
    if t.sessions.contains_key(key) {
        Route::Deliver(key)
    } else if is_fec(d) && t.conv_of.contains_key(src) {
        let other = SessionKey { conv: t.conv_of[src], peer: src };
        if t.sessions.contains_key(other) {
            Route::Deliver(other)
        } else {
            Route::Drop
        }
    } else if key.conv != 0 {
        Route::NewPeer(key)
    } else {
        Route::Drop
    }
}

/// Whether `t` lies outside the window that ends at `now`.
pub open spec fn is_old(t: u32, now: u32) -> bool {
    model::ahead(now, t) > SESSION_CREATE_WINDOW_MS
}

/// A log without the entries at its front that are outside the window.
pub open spec fn recent(log: Seq<u32>, now: u32) -> Seq<u32>
    decreases log.len(),
{
    if log.len() > 0 && is_old(log[0], now) {
        recent(log.drop_first(), now)
    } else {
        log
    }
}

/// Sessions counted for an address.
pub open spec fn count_of(t: Table, ip: IpAddr) -> usize {
    if t.counts.contains_key(ip) {
        t.counts[ip]
    } else {
        0
    }
}

/// The log of an address.
pub open spec fn log_of(t: Table, ip: IpAddr) -> Seq<u32> {
    if t.logs.contains_key(ip) {
        t.logs[ip]
    } else {
        Seq::empty()
    }
}

/// Whether a new peer with a first packet of `len` bytes is let in at `now`,
/// and the tables with the logs trimmed that were looked at.
pub open spec fn judged(t: Table, key: SessionKey, len: nat, now: u32) -> (Table, Admission) {
    let ip = key.peer.ip;
    let trimmed = Table { log: recent(t.log, now), ..t };
    let both = Table { logs: t.logs.insert(ip, recent(log_of(t, ip), now)), ..trimmed };
    if len < MIN_KCP_PACKET {
        (t, Admission::TooShort)
    } else if t.sessions.dom().len() >= MAX_SESSIONS {
        (t, Admission::SessionLimit)
    } else if count_of(t, ip) >= MAX_SESSIONS_PER_IP {
        (t, Admission::PeerSessionLimit)
    } else if trimmed.log.len() >= MAX_SESSION_CREATES_PER_WINDOW {
        (trimmed, Admission::RateLimit)
    } else if both.logs[ip].len() >= MAX_SESSION_CREATES_PER_IP_PER_WINDOW {
        (both, Admission::PeerRateLimit)
    } else {
        (both, Admission::Admitted)
    }
}

/// Whether there is room for a session of `key`.
pub open spec fn has_room(t: Table, key: SessionKey) -> bool {
    &&& t.sessions.dom().len() < MAX_SESSIONS
    &&& count_of(t, key.peer.ip) < MAX_SESSIONS_PER_IP
    &&& t.log.len() < MAX_SESSION_CREATES_PER_WINDOW
    &&& log_of(t, key.peer.ip).len() < MAX_SESSION_CREATES_PER_IP_PER_WINDOW
}

/// A session entered under its conversation and its peer.
pub open spec fn registered(t: Table, key: SessionKey, s: KcpSession) -> Table {
    Table {
        sessions: t.sessions.insert(key, s),
        peer_of: t.peer_of.insert(key.conv, key.peer),
        conv_of: t.conv_of.insert(key.peer, key.conv),
        ..t
    }
}

/// A new peer's session entered, counted and logged.
pub open spec fn admitted(t: Table, key: SessionKey, s: KcpSession, now: u32) -> Table {
    let ip = key.peer.ip;
    Table {
        counts: t.counts.insert(ip, (count_of(t, ip) + 1) as usize),
        created: t.created.insert(key, now),
        log: t.log.push(now),
        logs: t.logs.insert(ip, log_of(t, ip).push(now)),
        ..registered(t, key, s)
    }
}

/// One session less counted for an address.
pub open spec fn counted_down(counts: Map<IpAddr, usize>, ip: IpAddr) -> Map<IpAddr, usize> {
    if counts.contains_key(ip) {
        if counts[ip] <= 1 {
            counts.remove(ip)
        } else {
            counts.insert(ip, (counts[ip] - 1) as usize)
        }
    } else {
        counts
    }
}

/// Whether a session with the peer `a` is there.
pub open spec fn talks_to(sessions: Map<SessionKey, KcpSession>, a: SocketAddr) -> bool {
    exists|k: SessionKey| #[trigger] sessions.contains_key(k) && k.peer == a
}

/// A session removed with what was noted of it. The peer's conversation stays
/// known while another session with the peer is there.
pub open spec fn removed(t: Table, key: SessionKey) -> Table {
    let sessions = t.sessions.remove(key);
    Table {
        sessions,
        peer_of: t.peer_of.remove(key.conv),
        conv_of: if t.conv_of.contains_key(key.peer) && t.conv_of[key.peer] == key.conv && !talks_to(
            sessions,
            key.peer,
        ) {
            t.conv_of.remove(key.peer)
        } else {
            t.conv_of
        },
        counts: counted_down(t.counts, key.peer.ip),
        created: t.created.remove(key),
        ..t
    }
}

/// Sessions removed one after the other.
pub open spec fn all_removed(t: Table, keys: Seq<SessionKey>) -> Table
    decreases keys.len(),
{
    if keys.len() == 0 {
        t
    } else {
        removed(all_removed(t, keys.drop_last()), keys.last())
    }
}

/// Whether a session has waited too long to be accepted.
pub open spec fn is_expired(t: Table, key: SessionKey, now: u32) -> bool {
    t.created.contains_key(key) && model::ahead(now, t.created[key])
        > UNACCEPTED_SESSION_TIMEOUT_MS
}

/// The logs of all addresses trimmed, those that are empty dropped.
pub open spec fn logs_trimmed(logs: Map<IpAddr, Seq<u32>>, now: u32) -> Map<IpAddr, Seq<u32>> {
    logs.restrict(logs.dom().filter(|ip: IpAddr| recent(logs[ip], now).len() > 0)).map_values(
        |log: Seq<u32>| recent(log, now),
    )
}

// ── one session ─────────────────────────────────────────────────────────

/// A tick of one session: its output, and whether it stays. It goes when it
/// can no longer hand over what it received, or when its link is dead.
pub fn tick_session(s: &mut KcpSession, now_ms: u32, channel: &mut ReadChannel) -> (r: (
    Vec<Vec<u8>>,
    bool,
))
    requires
        old(s).wf(),
    ensures
        final(s).wf(),
        final(s).same_setup(old(s)),
        ({
            let (t, packets) = session::ticked(old(s)@, old(s).code(), now_ms);
            let (u, ch, e) = session::handed_over(t, old(channel)@);
            &&& matrix::rows(r.0@) == packets
            &&& final(s)@ == u
            &&& final(channel)@ == ch
            &&& r.1 == (e is Ok && !u.kcp.dead)
        }),
{
    match s.update(now_ms) {
        Ok(packets) => {
            let pushed = s.recv_and_push(channel);
            (packets, pushed.is_ok() && !s.is_dead_link())
        },
        Err(_) => (Vec::new(), false),
    }
}

/// Whether a datagram `d` takes a session from `s` to `t` and its channel from
/// `ch` to `after`, and whether the session stays. What it held back or just
/// received is handed over, unless it refuses the datagram.
pub open spec fn delivered(
    s: Session,
    code: Option<Code>,
    ch: Channel,
    d: Seq<u8>,
    t: Session,
    after: Channel,
    stays: bool,
) -> bool {
    exists|packets: Seq<Option<Seq<u8>>>|
        {
            let (u, e) = #[trigger] session::taken_in(s, code, d, packets);
            let (v, to, f) = session::handed_over(u, ch);
            &&& code is Some && session::needs_recovery(
                session::without_stale(s),
                code->0,
                d,
            ) ==> shards::recovery(
                code->0,
                session::completed(session::without_stale(s), code->0, d).shards,
                packets,
            )
            &&& e is Err ==> t == u && after == ch && stays
            &&& e is Ok ==> t == v && after == to && stays == (f is Ok)
        }
}

/// Whether `made` is what a first packet `d` of a new peer makes: a session that
/// took the packet, or none where it refused.
pub open spec fn opened(
    config: KcpConfig,
    key: SessionKey,
    d: Seq<u8>,
    made: Option<KcpSession>,
) -> bool {
    exists|code: Option<Code>, packets: Seq<Option<Seq<u8>>>|
        #![trigger session::taken_in(session::fresh(key.conv, config), code, d, packets)]
        {
            let new = session::fresh(key.conv, config);
            let (t, e) = session::taken_in(new, code, d, packets);
            &&& session::code_fits(code, config)
            &&& code is Some && session::needs_recovery(
                session::without_stale(new),
                code->0,
                d,
            ) ==> shards::recovery(
                code->0,
                session::completed(session::without_stale(new), code->0, d).shards,
                packets,
            )
            &&& made is Some <==> e is Ok
            &&& made matches Some(s) ==> s@ == t && s.code() == code
        }
}

/// A datagram for one session; whether the session stays. It goes when it can
/// no longer hand over what it received; a datagram that it refuses does no
/// harm.
pub fn deliver_to(s: &mut KcpSession, data: &[u8], channel: &mut ReadChannel) -> (r: bool)
    requires
        old(s).wf(),
    ensures
        final(s).wf(),
        final(s).same_setup(old(s)),
        delivered(old(s)@, old(s).code(), old(channel)@, data@, final(s)@, final(channel)@, r),
{
    let ghost s0 = *s;
    let taken = s.input(data);
    let ghost packets = choose|packets: Seq<Option<Seq<u8>>>|
        {
            &&& s0.code() is Some && session::needs_recovery(
                session::without_stale(s0@),
                s0.code()->0,
                data@,
            ) ==> shards::recovery(
                s0.code()->0,
                session::completed(session::without_stale(s0@), s0.code()->0, data@).shards,
                packets,
            )
            &&& (s@, taken) == #[trigger] session::taken_in(s0@, s0.code(), data@, packets)
        };
    match taken {
        Ok(_) => {
            let r = s.recv_and_push(channel).is_ok();
            assert(session::taken_in(s0@, s0.code(), data@, packets).1 is Ok);
            r
        },
        Err(_) => {
            assert(session::taken_in(s0@, s0.code(), data@, packets).1 is Err);
            true
        },
    }
}

// ── the driver ──────────────────────────────────────────────────────────

/// Whether a driver is done: no session can be registered with it any more, and
/// no stream is left.
pub fn driver_may_exit(register_closed: bool, alive_streams: usize) -> (r: bool)
    ensures
        r == (register_closed && alive_streams == 0),
{
    register_closed && alive_streams == 0
}

/// The tables of the driver.
pub struct KcpSocket {
    config: KcpConfig,
    sessions: Dict<SessionKey, KcpSession>,
    /// conv to peer address, for the write path.
    conv_index: HashMap<u32, SocketAddr>,
    /// Per-IP session count for admission control: the source port cannot
    /// bypass the per-IP limit.
    peer_session_counts: Dict<IpAddr, usize>,
    /// Creation times of sessions not yet accepted by the listener.
    session_created_at: Dict<SessionKey, u32>,
    /// Rolling log of session-creation times (ms) for global rate limiting.
    session_create_log: VecDeque<u32>,
    /// Per-IP rolling creation logs (ms).
    ip_session_create_log: Dict<IpAddr, VecDeque<u32>>,
    /// Peer address to conv, for shards that name no conversation.
    peer_addr_index: Dict<SocketAddr, u32>,
}

/// The contents of the logs.
pub open spec fn log_views(logs: Map<IpAddr, VecDeque<u32>>) -> Map<IpAddr, Seq<u32>> {
    logs.map_values(|log: VecDeque<u32>| log@)
}

impl View for KcpSocket {
    type V = Table;

    closed spec fn view(&self) -> Table {
        Table {
            sessions: self.sessions@,
            peer_of: self.conv_index@,
            conv_of: self.peer_addr_index@,
            counts: self.peer_session_counts@,
            created: self.session_created_at@,
            log: self.session_create_log@,
            logs: log_views(self.ip_session_create_log@),
        }
    }
}

/// Drops the entries at the front that are outside the window.
fn trim_log(log: &mut VecDeque<u32>, now_ms: u32)
    ensures
        final(log)@ == recent(old(log)@, now_ms),
{
    while log.len() > 0 && now_ms.wrapping_sub(log[0]) > SESSION_CREATE_WINDOW_MS
        invariant
            recent(log@, now_ms) == recent(old(log)@, now_ms),
        decreases log@.len(),
    {
        let ghost before = log@;
        let _ = log.pop_front();
        assert(log@ =~= before.drop_first());
    }
}

proof fn lemma_recent_len(log: Seq<u32>, now: u32)
    ensures
        recent(log, now).len() <= log.len(),
    decreases log.len(),
{
    if log.len() > 0 && is_old(log[0], now) {
        lemma_recent_len(log.drop_first(), now);
    }
}

impl KcpSocket {
    pub closed spec fn settings(&self) -> KcpConfig {
        self.config
    }

    pub closed spec fn wf(&self) -> bool {
        &&& self.config.usable()
        &&& self.sessions.wf()
        &&& self.peer_session_counts.wf()
        &&& self.session_created_at.wf()
        &&& self.ip_session_create_log.wf()
        &&& self.peer_addr_index.wf()
        &&& forall|k: SessionKey| #[trigger]
            self.sessions@.contains_key(k) ==> self.sessions@[k].wf()
    }

    /// Tables without sessions. The MTU of the configuration is clamped.
    pub fn new(config: KcpConfig) -> (r: KcpSocket)
        requires
            config.usable(),
        ensures
            r.wf(),
            r.settings() == (KcpConfig {
                mtu: if config.mtu > MAX_KCP_MTU {
                    MAX_KCP_MTU
                } else {
                    config.mtu
                },
                ..config
            }),
            r@ == no_sessions(),
    {
        let r = KcpSocket {
            config: config.clamped(),
            sessions: Dict::new(),
            conv_index: HashMap::new(),
            peer_session_counts: Dict::new(),
            session_created_at: Dict::new(),
            session_create_log: VecDeque::new(),
            ip_session_create_log: Dict::new(),
            peer_addr_index: Dict::new(),
        };
        assert(r@.logs =~= Map::empty());
        assert(r@.log =~= Seq::empty());
        r
    }

    /// The configuration that new sessions are made from.
    pub fn config(&self) -> (r: KcpConfig)
        ensures
            r == self.settings(),
    {
        self.config
    }

    /// The conversation that a raw UDP packet belongs to.
    /// Plain KCP: conv is the first 4 bytes (little-endian u32).
    /// FEC data shard: conv at offset 8 (behind the 6B header and the 2B SIZE).
    /// FEC parity shard: no conv available, 0.
    pub fn resolve_key(data: &[u8], src: SocketAddr) -> (r: SessionKey)
        ensures
            r == (SessionKey { conv: named_conv(data@), peer: src }),
    {
        if data.len() >= 6 {
            let flag = bytes::read_le16(data, 4);
            if flag == TYPE_DATA || flag == TYPE_PARITY {
                if flag == TYPE_DATA && data.len() >= 12 {
                    return SessionKey { conv: bytes::read_le32(data, 8), peer: src };
                }
                return SessionKey { conv: 0, peer: src };
            }
        }
        if data.len() >= 4 {
            return SessionKey { conv: bytes::read_le32(data, 0), peer: src };
        }
        SessionKey { conv: 0, peer: src }
    }

    /// Where a datagram goes.
    pub fn route(&self, data: &[u8], src: SocketAddr) -> (r: Route)
        requires
            self.wf(),
        ensures
            r == routed(self@, data@, src),
    {
        let key = KcpSocket::resolve_key(data, src);
        if self.sessions.contains(&key) {
            return Route::Deliver(key);
        }
        let is_fec = data.len() >= 6 && {
            let flag = bytes::read_le16(data, 4);
            flag == TYPE_DATA || flag == TYPE_PARITY
        };
        if is_fec {
            match self.peer_addr_index.get(&src) {
                Some(conv) => {
                    let other = SessionKey { conv: *conv, peer: src };
                    return if self.sessions.contains(&other) {
                        Route::Deliver(other)
                    } else {
                        Route::Drop
                    };
                },
                None => {},
            }
        }
        if key.conv != 0 {
            Route::NewPeer(key)
        } else {
            Route::Drop
        }
    }

    /// Admission control for a new peer: steady-state caps, then the rate of
    /// session creation. The logs are charged only when the session is entered.
    pub fn judge(&mut self, key: SessionKey, len: usize, now_ms: u32) -> (r: Admission)
        requires
            old(self).wf(),
        ensures
            final(self).wf(),
            final(self).settings() == old(self).settings(),
            final(self)@ == judged(old(self)@, key, len as nat, now_ms).0,
            r == judged(old(self)@, key, len as nat, now_ms).1,
            r == Admission::Admitted ==> has_room(final(self)@, key),
    {
        let ghost t0 = self@;
        if len < MIN_KCP_PACKET {
            return Admission::TooShort;
        }
        let ip = key.peer.ip;
        if self.sessions.len() >= MAX_SESSIONS {
            return Admission::SessionLimit;
        }
        let ip_count: usize = match self.peer_session_counts.get(&ip) {
            Some(n) => *n,
            None => 0,
        };
        if ip_count >= MAX_SESSIONS_PER_IP {
            return Admission::PeerSessionLimit;
        }
        trim_log(&mut self.session_create_log, now_ms);
        assert(self@ =~= (Table { log: recent(t0.log, now_ms), ..t0 }));
        if self.session_create_log.len() >= MAX_SESSION_CREATES_PER_WINDOW {
            return Admission::RateLimit;
        }
        let mut log: VecDeque<u32> = VecDeque::new();
        match self.ip_session_create_log.remove(&ip) {
            Some(l) => {
                log = l;
            },
            None => {},
        }
        assert(log@ =~= log_of(t0, ip));
        trim_log(&mut log, now_ms);
        let n = log.len();
        let ghost l = log@;
        self.ip_session_create_log.insert(ip, log);
        assert(self@.logs =~= t0.logs.insert(ip, l));
        if n >= MAX_SESSION_CREATES_PER_IP_PER_WINDOW {
            return Admission::PeerRateLimit;
        }
        Admission::Admitted
    }

    /// The session of a new peer, made of its first packet. A packet that the
    /// session refuses is garbage, and makes none.
    pub fn open_session(&self, key: SessionKey, data: &[u8]) -> (r: Option<KcpSession>)
        requires
            self.wf(),
        ensures
            r matches Some(s) ==> s.wf() && s.settings() == self.settings() && s.conversation()
                == key.conv,
            opened(self.settings(), key, data@, r),
    {
        let mut s = KcpSession::new(key.conv, self.config);
        let ghost new = s;
        let taken = s.input(data);
        let ghost packets = choose|packets: Seq<Option<Seq<u8>>>|
            {
                &&& new.code() is Some && session::needs_recovery(
                    session::without_stale(new@),
                    new.code()->0,
                    data@,
                ) ==> shards::recovery(
                    new.code()->0,
                    session::completed(session::without_stale(new@), new.code()->0, data@).shards,
                    packets,
                )
                &&& (s@, taken) == #[trigger] session::taken_in(new@, new.code(), data@, packets)
            };
        assert((s@, taken) == session::taken_in(
            session::fresh(key.conv, self.settings()),
            new.code(),
            data@,
            packets,
        ));
        match taken {
            Ok(_) => Some(s),
            Err(_) => None,
        }
    }

    /// Enters a session made for dialing.
    pub fn register(&mut self, key: SessionKey, s: KcpSession)
        requires
            old(self).wf(),
            s.wf(),
        ensures
            final(self).wf(),
            final(self).settings() == old(self).settings(),
            final(self)@ == registered(old(self)@, key, s),
    {
        self.conv_index.insert(key.conv, key.peer);
        self.peer_addr_index.insert(key.peer, key.conv);
        self.sessions.insert(key, s);
        assert(self@ =~= registered(old(self)@, key, s));
    }

    /// Enters the session of a new peer that was let in.
    pub fn admit_session(&mut self, key: SessionKey, s: KcpSession, now_ms: u32)
        requires
            old(self).wf(),
            s.wf(),
            has_room(old(self)@, key),
        ensures
            final(self).wf(),
            final(self).settings() == old(self).settings(),
            final(self)@ == admitted(old(self)@, key, s, now_ms),
    {
        let ghost t0 = self@;
        let ip = key.peer.ip;
        self.register(key, s);
        let count: usize = match self.peer_session_counts.get(&ip) {
            Some(n) => *n,
            None => 0,
        };
        self.peer_session_counts.insert(ip, count + 1);
        self.session_created_at.insert(key, now_ms);
        self.session_create_log.push_back(now_ms);
        let mut log: VecDeque<u32> = VecDeque::new();
        match self.ip_session_create_log.remove(&ip) {
            Some(l) => {
                log = l;
            },
            None => {},
        }
        assert(log@ =~= log_of(t0, ip));
        log.push_back(now_ms);
        self.ip_session_create_log.insert(ip, log);
        assert(self@.logs =~= t0.logs.insert(ip, log_of(t0, ip).push(now_ms)));
        assert(self@ =~= admitted(t0, key, s, now_ms));
    }

    fn count_down(&mut self, ip: IpAddr)
        requires
            old(self).wf(),
        ensures
            final(self).wf(),
            final(self).settings() == old(self).settings(),
            final(self)@ == (Table {
                counts: counted_down(old(self)@.counts, ip),
                ..old(self)@
            }),
    {
        let n: Option<usize> = match self.peer_session_counts.get(&ip) {
            Some(n) => Some(*n),
            None => None,
        };
        match n {
            Some(n) => {
                if n <= 1 {
                    let _ = self.peer_session_counts.remove(&ip);
                } else {
                    self.peer_session_counts.insert(ip, n - 1);
                }
            },
            None => {},
        }
        assert(self@ =~= (Table { counts: counted_down(old(self)@.counts, ip), ..old(self)@ }));
    }

    /// Whether another session with the peer is there.
    fn has_peer(&self, a: SocketAddr) -> (r: bool)
        requires
            self.wf(),
        ensures
            r == talks_to(self.sessions@, a),
    {
        let mut i: usize = 0;
        proof {
            self.sessions.lemma_order();
        }
        let n = self.sessions.len();
        while i < n
            invariant
                self.wf(),
                n == self.sessions.order().len(),
                i <= n,
                forall|j: int|
                    0 <= j < i ==> (#[trigger] self.sessions.order()[j]).0.peer != a,
            decreases n - i,
        {
            let k = self.sessions.key_at(i);
            if k.peer == a {
                assert(self.sessions@.contains_key(k));
                return true;
            }
            i += 1;
        }
        assert forall|k: SessionKey| #[trigger] self.sessions@.contains_key(k) implies k.peer != a by {
            let j = choose|j: int|
                0 <= j < self.sessions.order().len() && (#[trigger] self.sessions.order()[j]).0 == k;
        }
        false
    }

    /// Removes a session and its index entries; whether it was there.
    pub fn remove_session(&mut self, key: SessionKey) -> (r: bool)
        requires
            old(self).wf(),
        ensures
            final(self).wf(),
            final(self).settings() == old(self).settings(),
            r == old(self)@.sessions.contains_key(key),
            final(self)@ == removed(old(self)@, key),
    {
        let r = self.sessions.remove(&key).is_some();
        let _ = self.conv_index.remove(&key.conv);
        let known: bool = match self.peer_addr_index.get(&key.peer) {
            Some(conv) => *conv == key.conv,
            None => false,
        };
        if known {
            if !self.has_peer(key.peer) {
                let _ = self.peer_addr_index.remove(&key.peer);
            }
        }
        let _ = self.session_created_at.remove(&key);
        self.count_down(key.peer.ip);
        assert(self@ =~= removed(old(self)@, key));
        r
    }

    /// Removes sessions.
    pub fn remove_all(&mut self, keys: &Vec<SessionKey>)
        requires
            old(self).wf(),
        ensures
            final(self).wf(),
            final(self).settings() == old(self).settings(),
            final(self)@ == all_removed(old(self)@, keys@),
    {
        let mut i: usize = 0;
        assert(keys@.take(0) =~= Seq::empty());
        while i < keys.len()
            invariant
                self.wf(),
                self.settings() == old(self).settings(),
                i <= keys@.len(),
                self@ == all_removed(old(self)@, keys@.take(i as int)),
            decreases keys@.len() - i,
        {
            assert(keys@.take(i + 1).drop_last() =~= keys@.take(i as int));
            assert(keys@.take(i + 1).last() == keys@[i as int]);
            let _ = self.remove_session(keys[i]);
            i += 1;
        }
        assert(keys@.take(i as int) =~= keys@);
    }

    /// The sessions that have waited too long to be accepted.
    fn expired(&self, now_ms: u32) -> (r: Vec<SessionKey>)
        requires
            self.wf(),
        ensures
            r@.no_duplicates(),
            forall|k: SessionKey| #[trigger] r@.contains(k) <==> is_expired(self@, k, now_ms),
    {
        let mut r: Vec<SessionKey> = Vec::new();
        let mut i: usize = 0;
        proof {
            self.session_created_at.lemma_order();
        }
        let n = self.session_created_at.len();
        let ghost order = self.session_created_at.order();
        while i < n
            invariant
                self.wf(),
                order == self.session_created_at.order(),
                n == order.len(),
                i <= n,
                crate::dict::keys_differ(order),
                forall|j: int|
                    0 <= j < order.len() ==> self@.created.contains_key((#[trigger] order[j]).0)
                        && self@.created[order[j].0] == order[j].1,
                r@.no_duplicates(),
                forall|k: SessionKey| #[trigger]
                    r@.contains(k) ==> is_expired(self@, k, now_ms) && exists|j: int|
                        0 <= j < i && (#[trigger] order[j]).0 == k,
                forall|j: int|
                    0 <= j < i && is_expired(self@, (#[trigger] order[j]).0, now_ms) ==> r@.contains(
                        order[j].0,
                    ),
            decreases n - i,
        {
            let k = self.session_created_at.key_at(i);
            assert(order[i as int].0 == k);
            let old_enough: bool = match self.session_created_at.get(&k) {
                Some(t) => now_ms.wrapping_sub(*t) > UNACCEPTED_SESSION_TIMEOUT_MS,
                None => false,
            };
            if old_enough {
                let ghost before = r@;
                proof {
                    if before.contains(k) {
                        let j = choose|j: int| 0 <= j < i && (#[trigger] order[j]).0 == k;
                        assert(order[j].0 != order[i as int].0);
                    }
                }
                r.push(k);
                assert(r@[r@.len() - 1] == k);
                assert forall|q: SessionKey| #[trigger] r@.contains(q) implies is_expired(
                    self@,
                    q,
                    now_ms,
                ) && exists|j: int| 0 <= j < i + 1 && (#[trigger] order[j]).0 == q by {
                    if q == k {
                        assert(order[i as int].0 == q);
                    } else {
                        let x = choose|x: int| 0 <= x < r@.len() && r@[x] == q;
                        assert(before[x] == q);
                        assert(before.contains(q));
                    }
                }
                assert forall|j: int|
                    0 <= j < i + 1 && is_expired(self@, (#[trigger] order[j]).0, now_ms) implies r@.contains(
                order[j].0) by {
                    if j < i {
                        assert(before.contains(order[j].0));
                        let x = choose|x: int| 0 <= x < before.len() && before[x] == order[j].0;
                        assert(r@[x] == order[j].0);
                    }
                }
            }
            i += 1;
        }
        assert forall|k: SessionKey| is_expired(self@, k, now_ms) implies #[trigger] r@.contains(
            k,
        ) by {
            let j = choose|j: int| 0 <= j < order.len() && (#[trigger] order[j]).0 == k;
            assert(is_expired(self@, order[j].0, now_ms));
        }
        r
    }

    /// Removes the sessions that have waited too long to be accepted, and
    /// returns them.
    pub fn expire(&mut self, now_ms: u32) -> (r: Vec<SessionKey>)
        requires
            old(self).wf(),
        ensures
            final(self).wf(),
            final(self).settings() == old(self).settings(),
            r@.no_duplicates(),
            forall|k: SessionKey| #[trigger] r@.contains(k) <==> is_expired(old(self)@, k, now_ms),
            final(self)@ == all_removed(old(self)@, r@),
    {
        let keys = self.expired(now_ms);
        self.remove_all(&keys);
        keys
    }

    /// The listener accepted a session: it no longer expires.
    pub fn accepted(&mut self, key: SessionKey)
        requires
            old(self).wf(),
        ensures
            final(self).wf(),
            final(self).settings() == old(self).settings(),
            final(self)@ == (Table { created: old(self)@.created.remove(key), ..old(self)@ }),
    {
        let _ = self.session_created_at.remove(&key);
        assert(self@ =~= (Table { created: old(self)@.created.remove(key), ..old(self)@ }));
    }

    /// How many sessions there are.
    pub fn session_count(&self) -> (r: usize)
        requires
            self.wf(),
        ensures
            r == self@.sessions.dom().len(),
    {
        self.sessions.len()
    }

    /// The session that a writer of the conversation `conv` means.
    fn writer_key(&self, conv: u32) -> (r: Option<SessionKey>)
        requires
            self.wf(),
        ensures
            r == written_to(self@, conv),
    {
        match self.conv_index.get(&conv) {
            Some(peer) => {
                let key = SessionKey { conv, peer: *peer };
                if self.sessions.contains(&key) {
                    Some(key)
                } else {
                    None
                }
            },
            None => None,
        }
    }
}

/// The session that a writer of the conversation `conv` means.
pub open spec fn written_to(t: Table, conv: u32) -> Option<SessionKey> {
    if t.peer_of.contains_key(conv) && t.sessions.contains_key(
        SessionKey { conv, peer: t.peer_of[conv] },
    ) {
        Some(SessionKey { conv, peer: t.peer_of[conv] })
    } else {
        None
    }
}

impl KcpSocket {
    /// Trims the logs of all addresses, and drops those that are empty, so that
    /// none stays behind once its window is over.
    pub fn trim_logs(&mut self, now_ms: u32)
        requires
            old(self).wf(),
        ensures
            final(self).wf(),
            final(self).settings() == old(self).settings(),
            final(self)@ == (Table {
                logs: logs_trimmed(old(self)@.logs, now_ms),
                ..old(self)@
            }),
    {
        let ghost t0 = self@;
        let ghost m0 = self.ip_session_create_log@;
        let mut kept: Dict<IpAddr, VecDeque<u32>> = Dict::new();
        let ghost goal = logs_trimmed(t0.logs, now_ms);
        while self.ip_session_create_log.len() > 0
            invariant
                self.wf(),
                self.settings() == old(self).settings(),
                kept.wf(),
                t0 == old(self)@,
                t0.logs == log_views(m0),
                goal == logs_trimmed(t0.logs, now_ms),
                self@ == (Table { logs: self@.logs, ..t0 }),
                forall|ip: IpAddr| #[trigger]
                    self.ip_session_create_log@.contains_key(ip) ==> m0.contains_key(ip)
                        && self.ip_session_create_log@[ip] == m0[ip] && !kept@.contains_key(ip),
                forall|ip: IpAddr| #[trigger]
                    kept@.contains_key(ip) ==> goal.contains_key(ip) && kept@[ip]@ == goal[ip],
                forall|ip: IpAddr| #[trigger]
                    goal.contains_key(ip) ==> kept@.contains_key(ip)
                        || self.ip_session_create_log@.contains_key(ip),
            decreases self.ip_session_create_log.order().len(),
        {
            let ghost before = self.ip_session_create_log@;
            let ip = self.ip_session_create_log.key_at(0);
            proof {
                self.ip_session_create_log.lemma_order();
            }
            match self.ip_session_create_log.remove(&ip) {
                Some(l) => {
                    let mut log = l;
                    assert(log@ == t0.logs[ip]);
                    trim_log(&mut log, now_ms);
                    if log.len() > 0 {
                        kept.insert(ip, log);
                    }
                },
                None => {},
            }
            proof {
                self.ip_session_create_log.lemma_order();
                assert(self.ip_session_create_log@.dom() =~= before.dom().remove(ip));
            }
            assert(self@ =~= (Table { logs: self@.logs, ..t0 }));
        }
        proof {
            self.ip_session_create_log.lemma_order();
        }
        self.ip_session_create_log = kept;
        assert(self@.logs =~= goal);
        assert(self@ =~= (Table { logs: goal, ..t0 }));
    }

    /// The key of the `i`-th session.
    pub fn key_at(&self, i: usize) -> (r: SessionKey)
        requires
            self.wf(),
            i < self@.sessions.dom().len(),
        ensures
            self@.sessions.contains_key(r),
            r == self.key_order()[i as int],
    {
        proof {
            self.sessions.lemma_order();
        }
        self.sessions.key_at(i)
    }

    /// The keys of the sessions in the order in which they stand.
    pub closed spec fn key_order(&self) -> Seq<SessionKey> {
        Seq::new(self.sessions.order().len(), |i: int| self.sessions.order()[i].0)
    }

    /// The order holds every session once.
    pub proof fn lemma_key_order(&self)
        requires
            self.wf(),
        ensures
            self.key_order().len() == self@.sessions.dom().len(),
            self.key_order().no_duplicates(),
            forall|k: SessionKey| #[trigger]
                self@.sessions.contains_key(k) <==> self.key_order().contains(k),
    {
        self.sessions.lemma_order();
        let o = self.sessions.order();
        let ks = self.key_order();
        assert forall|k: SessionKey| #[trigger]
            self@.sessions.contains_key(k) <==> self.key_order().contains(k) by {
            if self@.sessions.contains_key(k) {
                let i = choose|i: int| 0 <= i < o.len() && (#[trigger] o[i]).0 == k;
                assert(ks[i] == k);
            }
            if ks.contains(k) {
                let i = choose|i: int| 0 <= i < ks.len() && ks[i] == k;
                assert(o[i].0 == k);
            }
        }
        assert forall|i: int, j: int| 0 <= i < ks.len() && 0 <= j < ks.len() && i != j implies ks[i]
            != ks[j] by {
            if i < j {
                assert(o[i].0 != o[j].0);
            } else {
                assert(o[j].0 != o[i].0);
            }
        }
    }

    /// A session, to be driven.
    pub fn session_mut(&mut self, key: SessionKey) -> (r: &mut KcpSession)
        requires
            old(self).wf(),
            old(self)@.sessions.contains_key(key),
        ensures
            *r == old(self)@.sessions[key],
            r.wf(),
            final(r).wf() ==> final(self).wf(),
            final(self).settings() == old(self).settings(),
            final(self).key_order() == old(self).key_order(),
            final(self)@ == (Table {
                sessions: old(self)@.sessions.insert(key, *final(r)),
                ..old(self)@
            }),
    {
        self.sessions.value_mut(&key)
    }

    /// Takes data of a writer: it is queued, and what the session has to send
    /// goes out at once. `None` where the conversation is not there or the
    /// session does not take the data.
    pub fn write(&mut self, conv: u32, data: &[u8], now_ms: u32) -> (r: Option<Outgoing>)
        requires
            old(self).wf(),
        ensures
            final(self).wf(),
            final(self).settings() == old(self).settings(),
            match written_to(old(self)@, conv) {
                None => r is None && final(self)@ == old(self)@,
                Some(key) => {
                    let s = old(self)@.sessions[key];
                    let t = final(self)@.sessions[key];
                    let (kcp, taken) = model::sent(s@.kcp, data@);
                    let queued = Session { kcp, ..s@ };
                    &&& final(self)@ == (Table {
                        sessions: old(self)@.sessions.insert(key, t),
                        ..old(self)@
                    })
                    &&& t.same_setup(&s)
                    &&& if taken {
                        let (u, packets) = session::flushed_now(
                            session::reconciled(queued),
                            s.code(),
                            now_ms,
                        );
                        &&& t@ == u
                        &&& r is Some
                        &&& r->0.peer == key.peer
                        &&& matrix::rows(r->0.packets@) == packets
                    } else {
                        r is None && t@ == queued
                    }
                },
            },
    {
        let key = match self.writer_key(conv) {
            Some(key) => key,
            None => {
                return None;
            },
        };
        let ghost t0 = self@;
        let s = self.session_mut(key);
        let mut out: Option<Vec<Vec<u8>>> = None;
        match s.send(data) {
            Ok(_) => {
                match s.force_flush(now_ms) {
                    Ok(packets) => {
                        out = Some(packets);
                    },
                    Err(_) => {},
                }
            },
            Err(_) => {},
        }
        match out {
            Some(packets) => Some(Outgoing { peer: key.peer, packets }),
            None => None,
        }
    }

    /// Flushes a session's pending output at once. No packets where the
    /// conversation is not there.
    pub fn flush(&mut self, conv: u32, now_ms: u32) -> (r: Option<Outgoing>)
        requires
            old(self).wf(),
        ensures
            final(self).wf(),
            final(self).settings() == old(self).settings(),
            match written_to(old(self)@, conv) {
                None => r is None && final(self)@ == old(self)@,
                Some(key) => {
                    let s = old(self)@.sessions[key];
                    let t = final(self)@.sessions[key];
                    let (u, packets) = session::flushed_now(s@, s.code(), now_ms);
                    &&& final(self)@ == (Table {
                        sessions: old(self)@.sessions.insert(key, t),
                        ..old(self)@
                    })
                    &&& t.same_setup(&s)
                    &&& t@ == u
                    &&& r is Some
                    &&& r->0.peer == key.peer
                    &&& matrix::rows(r->0.packets@) == packets
                },
            },
    {
        let key = match self.writer_key(conv) {
            Some(key) => key,
            None => {
                return None;
            },
        };
        let s = self.session_mut(key);
        match s.force_flush(now_ms) {
            Ok(packets) => Some(Outgoing { peer: key.peer, packets }),
            Err(_) => None,
        }
    }
}

// ── packets that wait ───────────────────────────────────────────────────

/// UDP packets that could not be sent because the socket's send buffer was
/// full, kept for the next tick. What finds no room is dropped: KCP sends it
/// again.
pub struct PendingUdp {
    packets: VecDeque<(SocketAddr, Vec<u8>)>,
}

impl View for PendingUdp {
    type V = Seq<(SocketAddr, Seq<u8>)>;

    closed spec fn view(&self) -> Seq<(SocketAddr, Seq<u8>)> {
        Seq::new(self.packets@.len(), |i: int| (self.packets@[i].0, self.packets@[i].1@))
    }
}

impl PendingUdp {
    pub fn new() -> (r: PendingUdp)
        ensures
            r@ == Seq::<(SocketAddr, Seq<u8>)>::empty(),
    {
        let r = PendingUdp { packets: VecDeque::new() };
        assert(r@ =~= Seq::<(SocketAddr, Seq<u8>)>::empty());
        r
    }

    /// Keeps a packet, where fewer than `MAX_PENDING_UDP` wait.
    pub fn keep(&mut self, peer: SocketAddr, packet: Vec<u8>)
        ensures
            final(self)@ == (if old(self)@.len() < MAX_PENDING_UDP {
                old(self)@.push((peer, packet@))
            } else {
                old(self)@
            }),
    {
        if self.packets.len() < MAX_PENDING_UDP {
            self.packets.push_back((peer, packet));
            assert(self@ =~= old(self)@.push((peer, packet@)));
        }
    }

    /// How many packets wait.
    pub fn len(&self) -> (r: usize)
        ensures
            r == self@.len(),
    {
        self.packets.len()
    }

    /// Takes the packet that has waited longest.
    pub fn take(&mut self) -> (r: Option<(SocketAddr, Vec<u8>)>)
        ensures
            old(self)@.len() == 0 ==> r is None && final(self)@ == old(self)@,
            old(self)@.len() > 0 ==> {
                &&& r is Some
                &&& ((r->0).0, (r->0).1@) == old(self)@[0]
                &&& final(self)@ == old(self)@.drop_first()
            },
    {
        let r = self.packets.pop_front();
        assert(old(self)@.len() > 0 ==> self@ =~= old(self)@.drop_first());
        assert(old(self)@.len() == 0 ==> self@ =~= old(self)@);
        r
    }
}

} // verus!
