//! KCP session: per-conversation KCP state machine with optional FEC.
//!
//! XOR encryption (`kcp_compat::XorBlock`) is not used here: without a block
//! cipher there is no KCP-level encryption.
use vstd::prelude::*;
use vstd::slice::slice_to_vec;

use super::config::KcpConfig;
use super::model;
use super::model::State;
use super::protocol::{Error, Kcp, KcpWriter};
use super::shards;
use super::shards::{Code, Group, Sending, FEC_GROUP_EXPIRE_MS, FEC_HEADER_SIZE, MAX_SHARD_SETS, TYPE_DATA, TYPE_PARITY};
use super::validity;
use crate::bytes;
use crate::kcp_compat;
use crate::kcp_compat::matrix;
use crate::kcp_compat::Fec;

verus! {

/// Max KCP segments pending send before writers are held back. Roughly twice
/// the default send window: a memory bound, not a flow-control signal.
pub const KCP_SND_BACKLOG_THRESHOLD: usize = 2048;

/// Why a session gave up.
#[derive(Debug, Clone, Copy, PartialEq, Eq, Structural)]
pub enum SessionError {
    /// The protocol state machine refused.
    Kcp(Error),
    /// KCP read channel closed
    ReadChannelClosed,
}

// ── the stream's read channel ───────────────────────────────────────────

/// What is known of a stream's read channel.
#[verifier::ext_equal]
pub struct Channel {
    pub frames: Seq<Seq<u8>>,
    pub capacity: nat,
    pub closed: bool,
}

/// Why a frame was not taken.
pub enum Refusal {
    /// No room: the frame comes back.
    Full(Vec<u8>),
    Closed,
}

/// The frames on their way to a stream: at most `capacity` wait, and none is
/// taken once the reader is gone.
pub struct ReadChannel {
    frames: Vec<Vec<u8>>,
    capacity: usize,
    closed: bool,
}

impl View for ReadChannel {
    type V = Channel;

    closed spec fn view(&self) -> Channel {
        Channel {
            frames: matrix::rows(self.frames@),
            capacity: self.capacity as nat,
            closed: self.closed,
        }
    }
}

impl ReadChannel {
    /// An empty channel with room for `capacity` frames.
    pub fn new(capacity: usize) -> (r: ReadChannel)
        ensures
            r@ == (Channel { frames: Seq::empty(), capacity: capacity as nat, closed: false }),
    {
        let r = ReadChannel { frames: Vec::new(), capacity, closed: false };
        assert(r@.frames =~= Seq::<Seq<u8>>::empty());
        r
    }

    /// The reader goes away.
    pub fn close(&mut self)
        ensures
            final(self)@ == (Channel { closed: true, ..old(self)@ }),
    {
        self.closed = true;
    }

    /// Adds a frame where the reader is there and there is room.
    pub fn try_send(&mut self, frame: Vec<u8>) -> (r: Result<(), Refusal>)
        ensures
            match r {
                Ok(_) => {
                    &&& !old(self)@.closed
                    &&& old(self)@.frames.len() < old(self)@.capacity
                    &&& final(self)@ == (Channel {
                        frames: old(self)@.frames.push(frame@),
                        ..old(self)@
                    })
                },
                Err(Refusal::Full(f)) => {
                    &&& !old(self)@.closed
                    &&& old(self)@.frames.len() >= old(self)@.capacity
                    &&& f@ == frame@
                    &&& final(self)@ == old(self)@
                },
                Err(Refusal::Closed) => old(self)@.closed && final(self)@ == old(self)@,
            },
    {
        if self.closed {
            return Err(Refusal::Closed);
        }
        if self.frames.len() >= self.capacity {
            return Err(Refusal::Full(frame));
        }
        self.frames.push(frame);
        assert(self@.frames =~= old(self)@.frames.push(frame@));
        Ok(())
    }

    /// Takes the frame that has waited longest.
    pub fn try_recv(&mut self) -> (r: Option<Vec<u8>>)
        ensures
            old(self)@.frames.len() == 0 ==> r is None && final(self)@ == old(self)@,
            old(self)@.frames.len() > 0 ==> {
                &&& r is Some
                &&& r->0@ == old(self)@.frames[0]
                &&& final(self)@ == (Channel { frames: old(self)@.frames.drop_first(), ..old(self)@ })
            },
    {
        if self.frames.len() == 0 {
            None
        } else {
            let f = self.frames.remove(0);
            assert(self@.frames =~= old(self)@.frames.drop_first());
            Some(f)
        }
    }
}

// ── the session as mathematics ──────────────────────────────────────────

/// The state of a session.
#[verifier::ext_equal]
pub struct Session {
    pub kcp: State,
    pub sending: Sending,
    pub groups: Seq<Group>,
    /// Time on the FEC clock (ms).
    pub clock: u64,
    pub shutdown: bool,
    /// A frame taken from KCP that the read channel had no room for.
    pub pending: Option<Seq<u8>>,
    pub alive: bool,
    /// Segments waiting to be acknowledged, as far as writers know.
    pub backlog: usize,
    /// Whether a blocked writer is to be woken.
    pub wake: bool,
}

/// The backlog brought up to date; writers are woken where it falls below the
/// threshold.
pub open spec fn reconciled(s: Session) -> Session {
    let n = model::capped_sum(s.kcp.snd_buf.len() as int, s.kcp.snd_queue.len() as int);
    Session {
        backlog: n,
        wake: s.wake || (s.backlog >= KCP_SND_BACKLOG_THRESHOLD && n < KCP_SND_BACKLOG_THRESHOLD),
        ..s
    }
}

/// The output of the state machine taken, wrapped where there is a code.
pub open spec fn output_taken(s: Session, c: Option<Code>) -> (Session, Seq<Seq<u8>>) {
    let out = s.kcp.packets;
    let t = Session { kcp: State { packets: Seq::empty(), ..s.kcp }, ..s };
    match c {
        Some(code) => {
            let (w, wrapped) = shards::wrapped_all(code, s.sending, out);
            (Session { sending: w, ..t }, wrapped)
        },
        None => (t, out),
    }
}

/// A tick of the driver.
pub open spec fn ticked(s: Session, c: Option<Code>, now: u32) -> (Session, Seq<Seq<u8>>) {
    if s.shutdown {
        (s, Seq::empty())
    } else {
        output_taken(reconciled(Session { kcp: model::updated_at(s.kcp, now), ..s }), c)
    }
}

/// An immediate flush.
pub open spec fn flushed_now(s: Session, c: Option<Code>, now: u32) -> (Session, Seq<Seq<u8>>) {
    output_taken(
        reconciled(Session { kcp: model::flushed(model::updated_at(s.kcp, now)), ..s }),
        c,
    )
}

/// A raw KCP packet taken in.
pub open spec fn raw_input(s: Session, d: Seq<u8>) -> (Session, Result<(), SessionError>) {
    let t = Session { kcp: model::input_all(s.kcp, d).0, ..s };
    match model::input_all(s.kcp, d).1 {
        Ok(n) => (reconciled(t), Ok(())),
        Err(e) => (t, Err(SessionError::Kcp(e))),
    }
}

/// Whether a packet is framed as a shard.
pub open spec fn is_shard(d: Seq<u8>) -> bool {
    d.len() >= FEC_HEADER_SIZE && (bytes::le16_at(d, 4) == TYPE_DATA || bytes::le16_at(d, 4)
        == TYPE_PARITY)
}

/// The id of the first shard of the group that the shard `seqid` belongs to.
pub open spec fn group_begin(c: Code, seqid: u32) -> u32 {
    model::plus(seqid, -(seqid as int % ((c.k + c.p) as int % 0x1_0000_0000)))
}

/// The place of the shard `seqid` in its group.
pub open spec fn shard_place(c: Code, seqid: u32) -> int {
    seqid as int % (c.k + c.p) as int
}

/// The groups with that of the shard `d` among them, active now.
pub open spec fn groups_with(s: Session, c: Code, d: Seq<u8>) -> Seq<Group> {
    shards::touched(s.groups, group_begin(c, bytes::le32_at(d, 0)), c.k + c.p, s.clock)
}

/// Where among these the group of `d` is.
pub open spec fn group_place(s: Session, c: Code, d: Seq<u8>) -> int {
    shards::place_of(s.groups, group_begin(c, bytes::le32_at(d, 0)), 0)
}

/// The group of the shard `d` with `d` in it.
pub open spec fn completed(s: Session, c: Code, d: Seq<u8>) -> Group {
    let g = groups_with(s, c, d)[group_place(s, c, d)];
    let i = shard_place(c, bytes::le32_at(d, 0));
    if g.shards[i] is None {
        Group { shards: g.shards.update(i, Some(d.skip(FEC_HEADER_SIZE as int))), ..g }
    } else {
        g
    }
}

/// Whether the first `k` shards are all there.
pub open spec fn data_complete(shards: Seq<Option<Seq<u8>>>, k: nat) -> bool {
    forall|i: int| 0 <= i < k ==> (#[trigger] shards[i]) is Some
}

/// Whether taking in `d` calls for a recovery: its group has as many shards as
/// there are data shards, and a data shard is missing.
pub open spec fn needs_recovery(s: Session, c: Code, d: Seq<u8>) -> bool {
    is_shard(d) && shard_fed(s, c, d).1 is None && shards::held(completed(s, c, d).shards) >= c.k && !data_complete(
        completed(s, c, d).shards,
        c.k,
    )
}

/// A data shard that is new fed to the state machine.
pub open spec fn shard_fed(s: Session, c: Code, d: Seq<u8>) -> (State, Option<Error>) {
    let g = groups_with(s, c, d)[group_place(s, c, d)];
    if bytes::le16_at(d, 4) == TYPE_DATA && g.shards[shard_place(
        c,
        bytes::le32_at(d, 0),
    )] is None {
        shards::fed(s.kcp, shards::carried(d.skip(FEC_HEADER_SIZE as int)))
    } else {
        (s.kcp, None)
    }
}

/// A shard taken in, where `packets` are those that a recovery gives.
pub open spec fn shard_input(s: Session, c: Code, d: Seq<u8>, packets: Seq<Option<Seq<u8>>>) -> (
    Session,
    Result<(), SessionError>,
) {
    let gs = groups_with(s, c, d);
    let i = group_place(s, c, d);
    let (kcp, failed) = shard_fed(s, c, d);
    let t = Session { kcp, groups: gs, ..s };
    if failed is Some {
        (t, Err(SessionError::Kcp(failed->0)))
    } else if shards::held(completed(s, c, d).shards) < c.k {
        (reconciled(Session { groups: gs.update(i, completed(s, c, d)), ..t }), Ok(()))
    } else if !needs_recovery(s, c, d) {
        (reconciled(Session { groups: gs.remove(i), ..t }), Ok(()))
    } else {
        let (last, lost) = shards::fed_all(kcp, packets);
        let u = Session { kcp: last, groups: gs.remove(i), ..t };
        if lost is Some {
            (u, Err(SessionError::Kcp(lost->0)))
        } else {
            (reconciled(u), Ok(()))
        }
    }
}

/// The session with stale and surplus groups dropped.
pub open spec fn without_stale(s: Session) -> Session {
    Session { groups: shards::pruned(s.groups, s.clock), ..s }
}

/// A packet from the wire taken in, where `packets` are those that a recovery
/// gives: as raw KCP without a code or without the framing, ignored where there
/// is a code and it is too short for the header, else as a shard.
pub open spec fn taken_in(
    s: Session,
    c: Option<Code>,
    d: Seq<u8>,
    packets: Seq<Option<Seq<u8>>>,
) -> (Session, Result<(), SessionError>) {
    let t = without_stale(s);
    match c {
        Some(code) => if d.len() < FEC_HEADER_SIZE {
            (t, Ok(()))
        } else if is_shard(d) {
            shard_input(t, code, d, packets)
        } else {
            raw_input(t, d)
        },
        None => raw_input(t, d),
    }
}

/// How many segments wait on the receiving side.
pub open spec fn waiting(s: State) -> nat {
    s.rcv_queue.len() + s.rcv_buf.len()
}

pub proof fn lemma_moved_waiting(s: State)
    ensures
        waiting(model::moved(s)) == waiting(s),
    decreases s.rcv_buf.len(),
{
    if model::first_is_ready(s) {
        lemma_moved_waiting(
            State {
                rcv_buf: s.rcv_buf.drop_first(),
                rcv_queue: s.rcv_queue.push(s.rcv_buf[0]),
                rcv_nxt: model::plus(s.rcv_nxt, 1),
                ..s
            },
        );
    }
}

proof fn lemma_message_end(q: Seq<model::Segment>)
    requires
        q.len() > 0,
    ensures
        1 <= model::message_end(q) <= q.len(),
    decreases q.len(),
{
    reveal_with_fuel(model::message_end, 2);
    if q[0].frg != 0 && q.len() > 1 {
        lemma_message_end(q.drop_first());
    }
}

pub proof fn lemma_received_waiting(s: State)
    requires
        s.rcv_queue.len() > 0,
    ensures
        waiting(model::received(s)) < waiting(s),
{
    lemma_message_end(s.rcv_queue);
    lemma_moved_waiting(
        State { rcv_queue: s.rcv_queue.skip(model::message_end(s.rcv_queue) as int), ..s },
    );
}

/// What waits in order handed to the read channel, message by message: empty
/// messages are dropped, and one that the channel has no room for is kept.
pub open spec fn drained(s: Session, ch: Channel) -> (Session, Channel, Result<(), SessionError>)
    decreases waiting(s.kcp),
{
    match model::receive_error(s.kcp.rcv_queue) {
        Some(e) => if e == Error::RecvQueueEmpty {
            (s, ch, Ok(()))
        } else {
            (s, ch, Err(SessionError::Kcp(e)))
        },
        None => {
            let m = model::message(s.kcp.rcv_queue);
            let t = Session { kcp: model::received(s.kcp), ..s };
            proof {
                lemma_received_waiting(s.kcp);
            }
            if m.len() > usize::MAX {
                (s, ch, Err(SessionError::Kcp(Error::UserBufTooSmall)))
            } else if m.len() == 0 {
                drained(t, ch)
            } else if ch.closed {
                (Session { shutdown: true, ..t }, ch, Err(SessionError::ReadChannelClosed))
            } else if ch.frames.len() >= ch.capacity {
                (Session { pending: Some(m), ..t }, ch, Ok(()))
            } else {
                drained(t, Channel { frames: ch.frames.push(m), ..ch })
            }
        },
    }
}

/// The frame that was kept handed over first, then what waits.
pub open spec fn handed_over(s: Session, ch: Channel) -> (
    Session,
    Channel,
    Result<(), SessionError>,
) {
    match s.pending {
        Some(m) => {
            let t = Session { pending: None, ..s };
            if ch.closed {
                (Session { shutdown: true, ..t }, ch, Err(SessionError::ReadChannelClosed))
            } else if ch.frames.len() >= ch.capacity {
                (s, ch, Ok(()))
            } else {
                drained(t, Channel { frames: ch.frames.push(m), ..ch })
            }
        },
        None => drained(s, ch),
    }
}

/// A session before its first packet.
pub open spec fn fresh(conv: u32, config: KcpConfig) -> Session {
    Session {
        kcp: State {
            mtu: if config.mtu >= 50 {
                config.mtu
            } else {
                model::KCP_MTU_DEF
            },
            mss: if config.mtu >= 50 {
                (config.mtu - model::KCP_OVERHEAD) as usize
            } else {
                (model::KCP_MTU_DEF - model::KCP_OVERHEAD) as usize
            },
            snd_wnd: if config.wnd_size.0 > 0 {
                config.wnd_size.0
            } else {
                model::KCP_WND_SND
            },
            rcv_wnd: model::max(config.wnd_size.1 as int, model::KCP_WND_RCV as int) as u16,
            nodelay: config.nodelay.nodelay,
            rx_minrto: if config.nodelay.nodelay {
                model::KCP_RTO_NDL
            } else {
                model::KCP_RTO_MIN
            },
            interval: model::min(model::max(config.nodelay.interval as int, 10), 5000) as u32,
            fastresend: if config.nodelay.resend >= 0 {
                config.nodelay.resend as u32
            } else {
                0
            },
            nocwnd: config.nodelay.nc,
            ..model::initial(conv, config.stream, Seq::empty())
        },
        sending: Sending { seqid: 0, shards: Seq::empty() },
        groups: Seq::empty(),
        clock: 0,
        shutdown: false,
        pending: None,
        alive: true,
        backlog: 0,
        wake: false,
    }
}

/// Whether a session of the configuration has the code `c`.
pub open spec fn code_fits(c: Option<Code>, config: KcpConfig) -> bool {
    match c {
        Some(code) => config.has_fec() && code.k == config.data_shards && code.p
            == config.parity_shards && kcp_compat::parity_code(code.rows, code.k, code.p),
        None => !config.has_fec(),
    }
}

// ── shard groups ────────────────────────────────────────────────────────

struct ShardGroup {
    begin: u32,
    shards: Vec<Option<Vec<u8>>>,
    received_count: usize,
    /// Time on the session's FEC clock (ms) of the last shard received into
    /// this group.
    last_active_ms: u64,
}

impl ShardGroup {
    spec fn group(&self) -> Group {
        Group {
            begin: self.begin,
            shards: shards::shard_views(self.shards@),
            active: self.last_active_ms,
        }
    }

    spec fn wf(&self, total: nat, k: nat) -> bool {
        &&& self.shards@.len() == total
        &&& self.received_count == shards::held(shards::shard_views(self.shards@))
        &&& self.received_count < k
    }
}

/// The groups of a sequence.
spec fn groups_of(s: Seq<ShardGroup>) -> Seq<Group> {
    Seq::new(s.len(), |i: int| s[i].group())
}

proof fn lemma_held_update(s: Seq<Option<Seq<u8>>>, i: int, x: Seq<u8>)
    requires
        0 <= i < s.len(),
        s[i] is None,
    ensures
        shards::held(s.update(i, Some(x))) == shards::held(s) + 1,
        shards::held(s) < s.len(),
    decreases s.len(),
{
    let t = s.update(i, Some(x));
    if i == s.len() - 1 {
        assert(t.drop_last() =~= s.drop_last());
        lemma_held_bound(s.drop_last());
    } else {
        assert(t.drop_last() =~= s.drop_last().update(i, Some(x)));
        lemma_held_update(s.drop_last(), i, x);
    }
}

proof fn lemma_held_bound(s: Seq<Option<Seq<u8>>>)
    ensures
        shards::held(s) <= s.len(),
    decreases s.len(),
{
    if s.len() > 0 {
        lemma_held_bound(s.drop_last());
    }
}

proof fn lemma_held_none(n: nat)
    ensures
        shards::held(Seq::new(n, |j: int| None::<Seq<u8>>)) == 0,
    decreases n,
{
    if n > 0 {
        let s = Seq::new(n, |j: int| None::<Seq<u8>>);
        assert(s.drop_last() =~= Seq::new((n - 1) as nat, |j: int| None::<Seq<u8>>));
        lemma_held_none((n - 1) as nat);
    }
}

proof fn lemma_place_of(gs: Seq<Group>, begin: u32, i: int, j: int)
    requires
        0 <= i <= j <= gs.len(),
        forall|t: int| i <= t < j ==> (#[trigger] gs[t]).begin != begin,
        j < gs.len() ==> gs[j].begin == begin,
    ensures
        shards::place_of(gs, begin, i) == j,
    decreases j - i,
{
    if i < j {
        lemma_place_of(gs, begin, i + 1, j);
    }
}

proof fn lemma_smallest(gs: Seq<Group>)
    requires
        gs.len() > 0,
    ensures
        0 <= shards::smallest(gs) < gs.len(),
        forall|j: int|
            0 <= j < gs.len() ==> gs[shards::smallest(gs)].begin <= (#[trigger] gs[j]).begin,
    decreases gs.len(),
{
    if gs.len() > 1 {
        let t = gs.drop_last();
        lemma_smallest(t);
        let i = shards::smallest(t);
        assert(t[i] == gs[i]);
        assert forall|j: int| 0 <= j < gs.len() implies gs[shards::smallest(gs)].begin <= (
        #[trigger] gs[j]).begin by {
            if j < t.len() {
                assert(t[j] == gs[j]);
            }
        }
    }
}

/// The index of the group with the smallest id.
fn find_smallest(groups: &Vec<ShardGroup>) -> (r: usize)
    requires
        groups@.len() > 0,
    ensures
        r == shards::smallest(groups_of(groups@)),
        r < groups@.len(),
{
    let mut best: usize = 0;
    let mut i: usize = 1;
    assert(groups_of(groups@).take(1).len() == 1);
    while i < groups.len()
        invariant
            1 <= i <= groups@.len(),
            best < i,
            best == shards::smallest(groups_of(groups@).take(i as int)),
        decreases groups@.len() - i,
    {
        let ghost gs = groups_of(groups@);
        assert(gs.take(i + 1).drop_last() =~= gs.take(i as int));
        if groups[i].begin < groups[best].begin {
            best = i;
        }
        i += 1;
    }
    assert(groups_of(groups@).take(i as int) =~= groups_of(groups@));
    best
}

/// SIZE of a packet of `n` bytes: it counts itself too, in sixteen bits.
fn size_field(n: usize) -> (r: u16)
    ensures
        r == ((2 + n) % 0x1_0000) as u16,
{
    let size = (n as u64 % 0x1_0000 + 2) % 0x1_0000;
    assert(size == (2 + n) % 0x1_0000);
    size as u16
}

// ── the session ─────────────────────────────────────────────────────────

pub struct KcpSession {
    conv: u32,
    kcp: Kcp,
    fec: Option<Fec>,
    config: KcpConfig,
    fec_seqid: u32,
    /// Received FEC shard groups, told apart by the id of their first shard.
    /// They are few, and the stale and the oldest among them are found by
    /// walking them, so they stand in a vector: a hash map would walk them in
    /// an order of its own.
    shard_groups: Vec<ShardGroup>,
    /// Clock for FEC group expiry (ms).
    fec_clock_ms: u64,
    shutdown: bool,
    /// Frame that could not be delivered to the read channel because it was
    /// full. It goes before anything else: the sender has its acknowledgement
    /// and will not send it again.
    pending_read: Option<Vec<u8>>,
    /// Inter-packet FEC: pending data shards (SIZE + raw KCP data).
    pending_shards: Vec<Vec<u8>>,
    /// Length of the longest pending shard.
    pending_max_size: usize,
    /// False once the session is removed from the driver.
    alive: bool,
    snd_backlog: usize,
    writer_wake: bool,
}

impl View for KcpSession {
    type V = Session;

    closed spec fn view(&self) -> Session {
        Session {
            kcp: self.kcp@,
            sending: Sending { seqid: self.fec_seqid, shards: matrix::rows(self.pending_shards@) },
            groups: groups_of(self.shard_groups@),
            clock: self.fec_clock_ms,
            shutdown: self.shutdown,
            pending: match self.pending_read {
                Some(f) => Some(f@),
                None => None,
            },
            alive: self.alive,
            backlog: self.snd_backlog,
            wake: self.writer_wake,
        }
    }
}

impl KcpSession {
    /// The configuration that the session was made from.
    pub closed spec fn settings(&self) -> KcpConfig {
        self.config
    }

    pub closed spec fn conversation(&self) -> u32 {
        self.conv
    }

    /// The code of the session, where it has one.
    pub closed spec fn code(&self) -> Option<Code> {
        match self.fec {
            Some(fec) => Some(
                Code { rows: fec.parity_rows(), k: fec.data_count(), p: fec.parity_count() },
            ),
            None => None,
        }
    }

    /// What stays the same over the session's life.
    pub open spec fn same_setup(&self, other: &KcpSession) -> bool {
        &&& self.settings() == other.settings()
        &&& self.conversation() == other.conversation()
        &&& self.code() == other.code()
    }

    pub closed spec fn wf(&self) -> bool {
        &&& model::valid(self.kcp@)
        &&& self.config.usable()
        &&& self.fec is Some <==> self.config.has_fec()
        &&& self.fec matches Some(fec) ==> {
            &&& fec.wf()
            &&& fec.data_count() == self.config.data_shards
            &&& fec.parity_count() == self.config.parity_shards
            &&& self.pending_shards@.len() < self.config.data_shards
            &&& forall|i: int|
                0 <= i < self.shard_groups@.len() ==> (#[trigger] self.shard_groups@[i]).wf(
                    (self.config.data_shards + self.config.parity_shards) as nat,
                    self.config.data_shards as nat,
                )
        }
        &&& self.fec is None ==> self.pending_shards@.len() == 0 && self.shard_groups@.len() == 0
        &&& self.pending_max_size == shards::longest(matrix::rows(self.pending_shards@))
        &&& shards::distinct(groups_of(self.shard_groups@))
    }

    /// A session that is well formed, as every operation leaves it, is sound: its
    /// state machine is valid, its code is that of its configuration, fewer
    /// shards wait than make a group, and no group is kept twice.
    pub proof fn law_sessions_are_sound(&self)
        requires
            self.wf(),
        ensures
            model::valid(self@.kcp),
            self.settings().usable(),
            code_fits(self.code(), self.settings()),
            self.code() matches Some(c) ==> self@.sending.shards.len() < c.k,
            shards::distinct(self@.groups),
    {
    }

    /// A session of the conversation `conv`.
    pub fn new(conv: u32, config: KcpConfig) -> (r: KcpSession)
        requires
            config.usable(),
        ensures
            r.wf(),
            r.settings() == config,
            r.conversation() == conv,
            r@ == fresh(conv, config),
            code_fits(r.code(), config),
    {
        let fec = if config.data_shards > 0 && config.parity_shards > 0 {
            Some(Fec::new(config.data_shards, config.parity_shards))
        } else {
            None
        };
        let writer = KcpWriter::new();
        let mut kcp = if config.stream {
            Kcp::new_stream(conv, writer)
        } else {
            Kcp::new(conv, writer)
        };
        let _ = kcp.set_mtu(config.mtu);
        kcp.set_wndsize(config.wnd_size.0, config.wnd_size.1);
        kcp.set_nodelay(
            config.nodelay.nodelay,
            config.nodelay.interval,
            config.nodelay.resend,
            config.nodelay.nc,
        );
        let r = KcpSession {
            conv,
            kcp,
            fec,
            config,
            fec_seqid: 0,
            shard_groups: Vec::new(),
            fec_clock_ms: 0,
            shutdown: false,
            pending_read: None,
            pending_shards: Vec::new(),
            pending_max_size: 0,
            alive: true,
            snd_backlog: 0,
            writer_wake: false,
        };
        assert(r@.sending.shards =~= Seq::empty());
        assert(r@.groups =~= Seq::empty());
        assert(r@ =~= fresh(conv, config));
        r
    }

    /// Refresh the send-queue backlog from `Kcp::wait_snd()`. A blocked writer
    /// is woken only where the backlog falls below the threshold.
    fn reconcile_snd_backlog(&mut self)
        requires
            old(self).wf(),
        ensures
            final(self).wf(),
            final(self).same_setup(old(self)),
            final(self)@ == reconciled(old(self)@),
    {
        let len = self.kcp.wait_snd();
        let prev = self.snd_backlog;
        self.snd_backlog = len;
        if prev >= KCP_SND_BACKLOG_THRESHOLD && len < KCP_SND_BACKLOG_THRESHOLD {
            self.writer_wake = true;
        }
        assert(self@ =~= reconciled(old(self)@));
    }

    pub fn conv(&self) -> (r: u32)
        ensures
            r == self.conversation(),
    {
        self.conv
    }

    /// The protocol state machine.
    pub fn kcp(&self) -> (r: &Kcp)
        ensures
            r@ == self@.kcp,
    {
        &self.kcp
    }

    /// Segments waiting to be acknowledged, as writers are to see it.
    pub fn snd_backlog(&self) -> (r: usize)
        ensures
            r == self@.backlog,
    {
        self.snd_backlog
    }

    /// Whether a blocked writer is to be woken; asks only once.
    pub fn take_writer_wake(&mut self) -> (r: bool)
        requires
            old(self).wf(),
        ensures
            final(self).wf(),
            final(self).same_setup(old(self)),
            r == old(self)@.wake,
            final(self)@ == (Session { wake: false, ..old(self)@ }),
    {
        let r = self.writer_wake;
        self.writer_wake = false;
        assert(self@ =~= (Session { wake: false, ..old(self)@ }));
        r
    }

    /// Check if the KCP connection is dead (too many retransmissions).
    pub fn is_dead_link(&self) -> (r: bool)
        ensures
            r == self@.kcp.dead,
    {
        self.kcp.is_dead_link()
    }

    /// Whether the driver still has the session.
    pub fn is_alive(&self) -> (r: bool)
        ensures
            r == self@.alive,
    {
        self.alive
    }

    /// Mark the session as dead. A blocked writer is woken to see it.
    pub fn mark_dead(&mut self)
        requires
            old(self).wf(),
        ensures
            final(self).wf(),
            final(self).same_setup(old(self)),
            final(self)@ == (Session { alive: false, wake: true, ..old(self)@ }),
    {
        self.alive = false;
        self.writer_wake = true;
        assert(self@ =~= (Session { alive: false, wake: true, ..old(self)@ }));
    }

    /// Mark session for shutdown: ticks give no more output.
    pub fn shutdown(&mut self)
        requires
            old(self).wf(),
        ensures
            final(self).wf(),
            final(self).same_setup(old(self)),
            final(self)@ == (Session { shutdown: true, ..old(self)@ }),
    {
        self.shutdown = true;
        assert(self@ =~= (Session { shutdown: true, ..old(self)@ }));
    }

    /// Set the FEC clock (ms).
    pub fn set_fec_clock_ms(&mut self, ms: u64)
        requires
            old(self).wf(),
        ensures
            final(self).wf(),
            final(self).same_setup(old(self)),
            final(self)@ == (Session { clock: ms, ..old(self)@ }),
    {
        self.fec_clock_ms = ms;
        assert(self@ =~= (Session { clock: ms, ..old(self)@ }));
    }

    /// How many shard groups are incomplete.
    pub fn group_count(&self) -> (r: usize)
        ensures
            r == self@.groups.len(),
    {
        self.shard_groups.len()
    }
}

// ── output ──────────────────────────────────────────────────────────────

/// `v` with zeros appended up to the length `n`.
fn zero_extend(v: &[u8], n: usize) -> (r: Vec<u8>)
    requires
        v@.len() <= n,
    ensures
        r@ == shards::zero_extended(v@, n as nat),
{
    let mut r = slice_to_vec(v);
    while r.len() < n
        invariant
            v@.len() <= r@.len() <= n,
            r@ == shards::zero_extended(v@, r@.len()),
        decreases n - r@.len(),
    {
        r.push(0);
        assert(r@ =~= shards::zero_extended(v@, r@.len()));
    }
    r
}

proof fn lemma_longest_push(s: Seq<Seq<u8>>, x: Seq<u8>)
    ensures
        shards::longest(s.push(x)) == (if x.len() > shards::longest(s) {
            x.len()
        } else {
            shards::longest(s)
        }),
{
    assert(s.push(x).drop_last() =~= s);
}

proof fn lemma_longest_bounds(s: Seq<Seq<u8>>)
    ensures
        forall|i: int| 0 <= i < s.len() ==> (#[trigger] s[i]).len() <= shards::longest(s),
    decreases s.len(),
{
    if s.len() > 0 {
        lemma_longest_bounds(s.drop_last());
        assert forall|i: int| 0 <= i < s.len() implies (#[trigger] s[i]).len() <= shards::longest(
            s,
        ) by {
            if i < s.len() - 1 {
                assert(s.drop_last()[i] == s[i]);
            }
        }
    }
}

/// The shards on the wire.
fn frame(seqid: u32, kind: u16, shard: &[u8]) -> (r: Vec<u8>)
    ensures
        r@ == shards::framed(seqid, kind, shard@),
{
    let mut packet: Vec<u8> = Vec::new();
    bytes::push_le32(&mut packet, seqid);
    bytes::push_le16(&mut packet, kind);
    bytes::extend(&mut packet, shard);
    assert(packet@ =~= shards::framed(seqid, kind, shard@));
    packet
}

/// The equal-length blocks of a group.
fn pad_all(pending: &Vec<Vec<u8>>, n: usize) -> (r: Vec<Vec<u8>>)
    requires
        n == shards::longest(matrix::rows(pending@)),
    ensures
        matrix::rows(r@) == shards::blocks(matrix::rows(pending@)),
{
    let mut padded: Vec<Vec<u8>> = Vec::with_capacity(pending.len());
    let mut i: usize = 0;
    proof {
        lemma_longest_bounds(matrix::rows(pending@));
    }
    while i < pending.len()
        invariant
            i <= pending@.len(),
            padded@.len() == i,
            n == shards::longest(matrix::rows(pending@)),
            forall|j: int|
                0 <= j < pending@.len() ==> (#[trigger] matrix::rows(pending@)[j]).len() <= n,
            forall|j: int|
                0 <= j < i ==> (#[trigger] padded@[j])@ == shards::zero_extended(pending@[j]@, n as nat),
        decreases pending@.len() - i,
    {
        assert(matrix::rows(pending@)[i as int].len() <= n);
        padded.push(zero_extend(pending[i].as_slice(), n));
        i += 1;
    }
    assert(matrix::rows(padded@) =~= shards::blocks(matrix::rows(pending@)));
    padded
}

impl KcpSession {
    /// Adds the parity packets of the pending shards to `out`.
    fn push_parity(&mut self, out: &mut Vec<Vec<u8>>)
        requires
            old(self).code() is Some,
            old(self).fec matches Some(fec) ==> fec.wf() && fec.is_enabled(),
            old(self).pending_shards@.len() == old(self).code()->0.k,
            old(self).pending_max_size == shards::longest(matrix::rows(old(self).pending_shards@)),
        ensures
            matrix::rows(final(out)@) == matrix::rows(old(out)@) + shards::parity_packets(
                old(self).code()->0,
                old(self).fec_seqid,
                matrix::rows(old(self).pending_shards@),
            ),
            *final(self) == (KcpSession {
                fec_seqid: model::plus(old(self).fec_seqid, old(self).code()->0.p as int),
                ..*old(self)
            }),
    {
        let ghost code = self.code()->0;
        let ghost pending = matrix::rows(self.pending_shards@);
        let ghost first = self.fec_seqid;
        let padded = pad_all(&self.pending_shards, self.pending_max_size);
        let mut refs: Vec<&[u8]> = Vec::with_capacity(padded.len());
        let mut i: usize = 0;
        while i < padded.len()
            invariant
                i <= padded@.len(),
                refs@.len() == i,
                forall|j: int| 0 <= j < i ==> (#[trigger] refs@[j])@ == padded@[j]@,
            decreases padded@.len() - i,
        {
            refs.push(padded[i].as_slice());
            i += 1;
        }
        assert(kcp_compat::slices(refs@) =~= shards::blocks(pending));
        assert(matrix::rows(padded@).len() == padded@.len());
        let parity = match &self.fec {
            Some(fec) => fec.encode_parity(refs.as_slice()),
            None => Vec::new(),
        };
        assert(code.k > 0);
        assert(shards::blocks(pending)[0].len() == shards::longest(pending));
        let ghost whole = shards::parity_packets(code, first, pending);
        let mut j: usize = 0;
        let ghost before = matrix::rows(out@);
        assert(matrix::rows(out@) =~= before + whole.take(0));
        assert(model::plus(first, 0) == first);
        while j < parity.len()
            invariant
                j <= parity@.len(),
                parity@.len() == code.p,
                *self == (KcpSession { fec_seqid: model::plus(first, j as int), ..*old(self) }),
                first == old(self).fec_seqid,
                whole == shards::parity_packets(code, first, pending),
                forall|t: int|
                    0 <= t < code.p ==> #[trigger] matrix::rows(parity@)[t] == kcp_compat::parity_shard(
                        code.rows,
                        shards::blocks(pending),
                        t,
                        shards::longest(pending),
                    ),
                matrix::rows(out@) == before + whole.take(j as int),
            decreases parity@.len() - j,
        {
            assert(matrix::rows(parity@)[j as int] == parity@[j as int]@);
            let packet = frame(self.fec_seqid, TYPE_PARITY, parity[j].as_slice());
            assert(packet@ == whole[j as int]);
            let ghost sofar = matrix::rows(out@);
            out.push(packet);
            assert(matrix::rows(out@) =~= sofar.push(packet@));
            assert(whole.take(j + 1) =~= whole.take(j as int).push(whole[j as int]));
            assert(matrix::rows(out@) =~= before + whole.take(j + 1));
            self.fec_seqid = self.fec_seqid.wrapping_add(1);
            j += 1;
        }
        assert(whole.take(j as int) =~= whole);
    }

    /// Adds the data shard of a packet to `out` and to the pending group.
    fn push_data(&mut self, raw: &[u8], out: &mut Vec<Vec<u8>>)
        requires
            old(self).pending_max_size == shards::longest(matrix::rows(old(self).pending_shards@)),
        ensures
            matrix::rows(final(out)@) == matrix::rows(old(out)@).push(
                shards::framed(old(self).fec_seqid, TYPE_DATA, shards::rs_payload(raw@)),
            ),
            matrix::rows(final(self).pending_shards@) == matrix::rows(
                old(self).pending_shards@,
            ).push(shards::rs_payload(raw@)),
            final(self).pending_max_size == shards::longest(
                matrix::rows(final(self).pending_shards@),
            ),
            *final(self) == (KcpSession {
                fec_seqid: model::plus(old(self).fec_seqid, 1),
                pending_shards: final(self).pending_shards,
                pending_max_size: final(self).pending_max_size,
                ..*old(self)
            }),
    {
        let mut rs_data: Vec<u8> = Vec::new();
        bytes::push_le16(&mut rs_data, size_field(raw.len()));
        bytes::extend(&mut rs_data, raw);
        assert(rs_data@ =~= shards::rs_payload(raw@));
        let packet = frame(self.fec_seqid, TYPE_DATA, rs_data.as_slice());
        out.push(packet);
        assert(matrix::rows(out@) =~= matrix::rows(old(out)@).push(packet@));
        self.fec_seqid = self.fec_seqid.wrapping_add(1);
        let rs_len = rs_data.len();
        proof {
            lemma_longest_push(matrix::rows(self.pending_shards@), rs_data@);
        }
        self.pending_shards.push(rs_data);
        assert(matrix::rows(self.pending_shards@) =~= matrix::rows(
            old(self).pending_shards@,
        ).push(rs_data@));
        if rs_len > self.pending_max_size {
            self.pending_max_size = rs_len;
        }
    }

    /// Adds the parity packets of a full group to `out`, and starts the next.
    fn finish_group(&mut self, out: &mut Vec<Vec<u8>>)
        requires
            old(self).code() is Some,
            old(self).fec matches Some(fec) ==> fec.wf() && fec.is_enabled(),
            old(self).pending_shards@.len() == old(self).code()->0.k,
            old(self).pending_max_size == shards::longest(matrix::rows(old(self).pending_shards@)),
        ensures
            matrix::rows(final(out)@) == matrix::rows(old(out)@) + shards::parity_packets(
                old(self).code()->0,
                old(self).fec_seqid,
                matrix::rows(old(self).pending_shards@),
            ),
            final(self).pending_shards@.len() == 0,
            *final(self) == (KcpSession {
                fec_seqid: model::plus(old(self).fec_seqid, old(self).code()->0.p as int),
                pending_shards: final(self).pending_shards,
                pending_max_size: 0,
                ..*old(self)
            }),
    {
        self.push_parity(out);
        self.pending_shards.clear();
        self.pending_max_size = 0;
    }

    /// Wraps one packet of the state machine into its data shard, with the
    /// parity shards behind it where it completes a group.
    fn wrap_packet(&mut self, raw: &[u8], out: &mut Vec<Vec<u8>>)
        requires
            old(self).wf(),
            old(self).code() is Some,
        ensures
            final(self).wf(),
            final(self).same_setup(old(self)),
            ({
                let (w, packets) = shards::wrapped(
                    old(self).code()->0,
                    old(self)@.sending,
                    raw@,
                );
                &&& final(self)@ == (Session { sending: w, ..old(self)@ })
                &&& matrix::rows(final(out)@) == matrix::rows(old(out)@) + packets
            }),
    {
        let ghost code = self.code()->0;
        let ghost s0 = self@;
        let ghost out0 = matrix::rows(out@);
        let ghost pending = s0.sending.shards.push(shards::rs_payload(raw@));
        self.push_data(raw, out);
        assert(self.pending_shards@.len() == pending.len());
        if self.pending_shards.len() == self.config.data_shards {
            self.finish_group(out);
            assert(matrix::rows(self.pending_shards@) =~= Seq::empty());
        }
        assert(self@.sending =~= shards::wrapped(code, s0.sending, raw@).0);
        assert(matrix::rows(out@) =~= out0 + shards::wrapped(code, s0.sending, raw@).1);
        assert(self@ =~= (Session {
            sending: shards::wrapped(code, s0.sending, raw@).0,
            ..s0
        }));
    }

    /// Common FEC encode logic of `update` and `force_flush`: the packets
    /// wrapped where FEC is enabled, else handed on.
    fn fec_encode_output(&mut self, output: Vec<Vec<u8>>) -> (r: Vec<Vec<u8>>)
        requires
            old(self).wf(),
        ensures
            final(self).wf(),
            final(self).same_setup(old(self)),
            match old(self).code() {
                Some(code) => {
                    let (w, packets) = shards::wrapped_all(
                        code,
                        old(self)@.sending,
                        matrix::rows(output@),
                    );
                    &&& final(self)@ == (Session { sending: w, ..old(self)@ })
                    &&& matrix::rows(r@) == packets
                },
                None => final(self)@ == old(self)@ && r@ == output@,
            },
    {
        if self.fec.is_none() {
            return output;
        }
        let ghost code = self.code()->0;
        let ghost s0 = self@;
        let ghost raws = matrix::rows(output@);
        let mut packets: Vec<Vec<u8>> = Vec::new();
        let mut i: usize = 0;
        assert(matrix::rows(packets@) =~= Seq::empty());
        assert(raws.take(0) =~= Seq::empty());
        while i < output.len()
            invariant
                i <= output@.len(),
                raws == matrix::rows(output@),
                self.wf(),
                self.same_setup(old(self)),
                self.code() == Some(code),
                s0 == old(self)@,
                self@ == (Session {
                    sending: shards::wrapped_all(code, s0.sending, raws.take(i as int)).0,
                    ..s0
                }),
                matrix::rows(packets@) == shards::wrapped_all(code, s0.sending, raws.take(i as int)).1,
            decreases output@.len() - i,
        {
            assert(raws.take(i + 1).drop_last() =~= raws.take(i as int));
            assert(raws.take(i + 1).last() == output@[i as int]@);
            self.wrap_packet(output[i].as_slice(), &mut packets);
            i += 1;
        }
        assert(raws.take(i as int) =~= raws);
        packets
    }

    /// Takes the packets of the state machine and wraps them.
    fn take_output(&mut self) -> (r: Vec<Vec<u8>>)
        requires
            old(self).wf(),
        ensures
            final(self).wf(),
            final(self).same_setup(old(self)),
            final(self)@ == output_taken(old(self)@, old(self).code()).0,
            matrix::rows(r@) == output_taken(old(self)@, old(self).code()).1,
    {
        let ghost s0 = self@;
        let output = self.kcp.output_mut().drain();
        proof {
            validity::lemma_packets_valid(s0.kcp, Seq::empty());
        }
        assert(matrix::rows(output@) =~= s0.kcp.packets);
        assert(self@ =~= (Session { kcp: State { packets: Seq::empty(), ..s0.kcp }, ..s0 }));
        self.fec_encode_output(output)
    }

    /// Called by the driver on each tick. Updates the KCP clock, returns output
    /// packets. `now_ms` is a monotonic millisecond timestamp.
    pub fn update(&mut self, now_ms: u32) -> (r: Result<Vec<Vec<u8>>, SessionError>)
        requires
            old(self).wf(),
        ensures
            final(self).wf(),
            final(self).same_setup(old(self)),
            r is Ok,
            final(self)@ == ticked(old(self)@, old(self).code(), now_ms).0,
            matrix::rows(r->Ok_0@) == ticked(old(self)@, old(self).code(), now_ms).1,
    {
        if self.shutdown {
            let none: Vec<Vec<u8>> = Vec::new();
            assert(matrix::rows(none@) =~= Seq::empty());
            return Ok(none);
        }
        let ghost s0 = self@;
        match self.kcp.update(now_ms) {
            Ok(_) => {},
            Err(e) => {
                return Err(SessionError::Kcp(e));
            },
        }
        assert(self@ =~= (Session { kcp: model::updated_at(s0.kcp, now_ms), ..s0 }));
        self.reconcile_snd_backlog();
        Ok(self.take_output())
    }

    /// Enqueue data to send via KCP.
    pub fn send(&mut self, data: &[u8]) -> (r: Result<usize, SessionError>)
        requires
            old(self).wf(),
        ensures
            final(self).wf(),
            final(self).same_setup(old(self)),
            ({
                let (kcp, taken) = model::sent(old(self)@.kcp, data@);
                let t = Session { kcp, ..old(self)@ };
                if taken {
                    &&& r == Ok::<usize, SessionError>(data@.len() as usize)
                    &&& final(self)@ == reconciled(t)
                } else {
                    &&& r == Err::<usize, SessionError>(SessionError::Kcp(Error::UserBufTooBig))
                    &&& final(self)@ == t
                }
            }),
    {
        let ghost s0 = self@;
        match self.kcp.send(data) {
            Ok(n) => {
                assert(self@ =~= (Session { kcp: model::sent(s0.kcp, data@).0, ..s0 }));
                self.reconcile_snd_backlog();
                Ok(n)
            },
            Err(e) => {
                assert(self@ =~= (Session { kcp: model::sent(s0.kcp, data@).0, ..s0 }));
                Err(SessionError::Kcp(e))
            },
        }
    }

    /// Force KCP to flush pending data and produce output packets immediately:
    /// an update, then a flush whether or not one was due.
    pub fn force_flush(&mut self, now_ms: u32) -> (r: Result<Vec<Vec<u8>>, SessionError>)
        requires
            old(self).wf(),
        ensures
            final(self).wf(),
            final(self).same_setup(old(self)),
            r is Ok,
            final(self)@ == flushed_now(old(self)@, old(self).code(), now_ms).0,
            matrix::rows(r->Ok_0@) == flushed_now(old(self)@, old(self).code(), now_ms).1,
    {
        let ghost s0 = self@;
        match self.kcp.update(now_ms) {
            Ok(_) => {},
            Err(e) => {
                return Err(SessionError::Kcp(e));
            },
        }
        proof {
            validity::lemma_updated_is_updated(s0.kcp, now_ms);
        }
        match self.kcp.flush() {
            Ok(_) => {},
            Err(e) => {
                return Err(SessionError::Kcp(e));
            },
        }
        assert(self@ =~= (Session {
            kcp: model::flushed(model::updated_at(s0.kcp, now_ms)),
            ..s0
        }));
        self.reconcile_snd_backlog();
        Ok(self.take_output())
    }
}

// ── input ───────────────────────────────────────────────────────────────

proof fn lemma_removed(s: Seq<ShardGroup>, i: int)
    requires
        0 <= i < s.len(),
    ensures
        groups_of(s.remove(i)) == groups_of(s).remove(i),
        shards::distinct(groups_of(s)) ==> shards::distinct(groups_of(s).remove(i)),
{
    assert(groups_of(s.remove(i)) =~= groups_of(s).remove(i));
    let gs = groups_of(s);
    let rest = gs.remove(i);
    if shards::distinct(gs) {
        assert forall|a: int, b: int| 0 <= a < b < rest.len() implies (#[trigger] rest[a]).begin != (
        #[trigger] rest[b]).begin by {
            let x = if a < i {
                a
            } else {
                a + 1
            };
            let y = if b < i {
                b
            } else {
                b + 1
            };
            assert(rest[a] == gs[x] && rest[b] == gs[y]);
        }
    }
}

impl KcpSession {
    /// Removes the group at `i`.
    fn remove_group(&mut self, i: usize)
        requires
            old(self).wf(),
            i < old(self)@.groups.len(),
        ensures
            final(self).wf(),
            final(self).same_setup(old(self)),
            final(self)@ == (Session { groups: old(self)@.groups.remove(i as int), ..old(self)@ }),
    {
        let ghost before = self.shard_groups@;
        proof {
            lemma_removed(before, i as int);
        }
        let _ = self.shard_groups.remove(i);
        assert(self.shard_groups@ =~= before.remove(i as int));
        assert forall|t: int| 0 <= t < self.shard_groups@.len() && self.fec is Some implies (
        #[trigger] self.shard_groups@[t]).wf(
            (self.config.data_shards + self.config.parity_shards) as nat,
            self.config.data_shards as nat,
        ) by {
            if t < i {
                assert(self.shard_groups@[t] == before[t]);
            } else {
                assert(self.shard_groups@[t] == before[t + 1]);
            }
        }
        assert(self@ =~= (Session { groups: old(self)@.groups.remove(i as int), ..old(self)@ }));
    }

    /// Time-based FEC continuity detection: drop any group that has not
    /// received a shard within `FEC_GROUP_EXPIRE_MS`, then the oldest of those
    /// beyond `MAX_SHARD_SETS`.
    pub fn prune_old_groups(&mut self)
        requires
            old(self).wf(),
        ensures
            final(self).wf(),
            final(self).same_setup(old(self)),
            final(self)@ == without_stale(old(self)@),
    {
        let now = self.fec_clock_ms;
        let ghost s0 = self@;
        let ghost g0 = self@.groups;
        let ghost mut seen: int = 0;
        let mut i: usize = 0;
        assert(g0.take(0) =~= Seq::empty());
        assert(g0.skip(0) =~= g0);
        while i < self.shard_groups.len()
            invariant
                self.wf(),
                self.same_setup(old(self)),
                s0 == old(self)@,
                g0 == s0.groups,
                now == s0.clock,
                0 <= seen <= g0.len(),
                i == shards::fresh_groups(g0.take(seen), now).len(),
                self@ == (Session {
                    groups: shards::fresh_groups(g0.take(seen), now) + g0.skip(seen),
                    ..s0
                }),
            decreases g0.len() - seen,
        {
            let ghost kept = shards::fresh_groups(g0.take(seen), now);
            let ghost g = g0[seen];
            assert(self@.groups[i as int] == g);
            assert(g0.take(seen + 1).drop_last() =~= g0.take(seen));
            assert(g0.take(seen + 1).last() == g);
            let age: u64 = if now >= self.shard_groups[i].last_active_ms {
                now - self.shard_groups[i].last_active_ms
            } else {
                0
            };
            if age <= FEC_GROUP_EXPIRE_MS {
                i += 1;
                assert(kept.push(g) + g0.skip(seen + 1) =~= kept + g0.skip(seen));
            } else {
                self.remove_group(i);
                assert((kept + g0.skip(seen)).remove(i as int) =~= kept + g0.skip(seen + 1));
            }
            proof {
                seen = seen + 1;
            }
        }
        assert(self@.groups.len() == self.shard_groups@.len());
        assert(seen == g0.len());
        assert(g0.take(seen) =~= g0);
        let ghost fresh = shards::fresh_groups(g0, now);
        assert(fresh + g0.skip(seen) =~= fresh);
        while self.shard_groups.len() > MAX_SHARD_SETS
            invariant
                self.wf(),
                self.same_setup(old(self)),
                self@ == (Session { groups: self@.groups, ..s0 }),
                shards::newest_groups(self@.groups) == shards::newest_groups(fresh),
            decreases self.shard_groups@.len(),
        {
            let ghost n = self.shard_groups@.len();
            let key = find_smallest(&self.shard_groups);
            assert(self@.groups.len() == n);
            self.remove_group(key);
            assert(self@.groups.len() == self.shard_groups@.len());
        }
        assert(self@ =~= without_stale(s0));
    }

    /// Feeds the packet that a data shard carries to the state machine.
    fn feed(&mut self, shard: &[u8]) -> (r: Result<(), SessionError>)
        requires
            old(self).wf(),
        ensures
            final(self).wf(),
            final(self).same_setup(old(self)),
            ({
                let (kcp, failed) = shards::fed(old(self)@.kcp, shards::carried(shard@));
                &&& final(self)@ == (Session { kcp, ..old(self)@ })
                &&& r == (match failed {
                    Some(e) => Err::<(), SessionError>(SessionError::Kcp(e)),
                    None => Ok::<(), SessionError>(()),
                })
            }),
    {
        let ghost s0 = self@;
        if shard.len() >= 2 {
            let size = bytes::read_le16(shard, 0) as usize;
            if size >= 2 {
                let payload_end = if size - 2 < shard.len() - 2 {
                    size - 2
                } else {
                    shard.len() - 2
                };
                if payload_end > 0 {
                    let payload = &shard[2..2 + payload_end];
                    assert(payload@ == shards::carried(shard@)->0);
                    let r = self.kcp.input(payload);
                    assert(self@ =~= (Session {
                        kcp: model::input_all(s0.kcp, payload@).0,
                        ..s0
                    }));
                    return match r {
                        Ok(_) => Ok(()),
                        Err(e) => Err(SessionError::Kcp(e)),
                    };
                }
            }
        }
        assert(self@ =~= (Session { kcp: s0.kcp, ..s0 }));
        Ok(())
    }

    /// A raw KCP packet.
    fn input_raw(&mut self, data: &[u8]) -> (r: Result<(), SessionError>)
        requires
            old(self).wf(),
        ensures
            final(self).wf(),
            final(self).same_setup(old(self)),
            final(self)@ == raw_input(old(self)@, data@).0,
            r == raw_input(old(self)@, data@).1,
    {
        let ghost s0 = self@;
        let r = self.kcp.input(data);
        assert(self@ =~= (Session { kcp: model::input_all(s0.kcp, data@).0, ..s0 }));
        match r {
            Ok(_) => {
                self.reconcile_snd_backlog();
                Ok(())
            },
            Err(e) => Err(SessionError::Kcp(e)),
        }
    }

    /// The place of the group `begin`, which is opened where there is none,
    /// and marked active.
    fn open_group(&mut self, begin: u32) -> (r: usize)
        requires
            old(self).wf(),
            old(self).code() is Some,
        ensures
            final(self).wf(),
            final(self).same_setup(old(self)),
            r == shards::place_of(old(self)@.groups, begin, 0),
            r < final(self)@.groups.len(),
            final(self)@ == (Session {
                groups: shards::touched(
                    old(self)@.groups,
                    begin,
                    old(self).code()->0.k + old(self).code()->0.p,
                    old(self)@.clock,
                ),
                ..old(self)@
            }),
    {
        let ghost s0 = self@;
        let ghost gs = self@.groups;
        let total = self.config.data_shards + self.config.parity_shards;
        let now = self.fec_clock_ms;
        let mut i: usize = 0;
        while i < self.shard_groups.len() && self.shard_groups[i].begin != begin
            invariant
                *self == *old(self),
                gs == groups_of(self.shard_groups@),
                i <= self.shard_groups@.len(),
                forall|t: int| 0 <= t < i ==> (#[trigger] gs[t]).begin != begin,
            decreases self.shard_groups@.len() - i,
        {
            assert(gs[i as int].begin == self.shard_groups@[i as int].begin);
            i += 1;
        }
        assert(i < gs.len() ==> gs[i as int].begin == begin);
        proof {
            lemma_place_of(gs, begin, 0, i as int);
        }
        let ghost before = self.shard_groups@;
        if i < self.shard_groups.len() {
            self.shard_groups[i].last_active_ms = now;
            assert(groups_of(self.shard_groups@) =~= gs.update(
                i as int,
                Group { active: now, ..gs[i as int] },
            ));
        } else {
            let mut places: Vec<Option<Vec<u8>>> = Vec::new();
            let ghost none = Seq::new(total as nat, |j: int| None::<Seq<u8>>);
            while places.len() < total
                invariant
                    places@.len() <= total,
                    forall|j: int| 0 <= j < places@.len() ==> (#[trigger] places@[j]) is None,
                decreases total - places@.len(),
            {
                places.push(None);
            }
            assert(shards::shard_views(places@) =~= none);
            proof {
                lemma_held_none(total as nat);
            }
            self.shard_groups.push(
                ShardGroup { begin, shards: places, received_count: 0, last_active_ms: now },
            );
            assert(groups_of(self.shard_groups@) =~= gs.push(
                Group { begin, shards: none, active: now },
            ));
        }
        assert(self@ =~= (Session {
            groups: shards::touched(gs, begin, total as nat, now),
            ..s0
        }));
        i
    }
}

// ── recovery ────────────────────────────────────────────────────────────

proof fn lemma_longest_held(s: Seq<Option<Seq<u8>>>)
    ensures
        forall|i: int|
            0 <= i < s.len() && (#[trigger] s[i]) is Some ==> s[i]->0.len() <= shards::longest_held(
                s,
            ),
    decreases s.len(),
{
    if s.len() > 0 {
        lemma_longest_held(s.drop_last());
        assert forall|i: int| 0 <= i < s.len() && (#[trigger] s[i]) is Some implies s[i]->0.len()
            <= shards::longest_held(s) by {
            if i < s.len() - 1 {
                assert(s.drop_last()[i] == s[i]);
            }
        }
    }
}

/// The length of the longest shard that is there.
fn longest_shard(held: &Vec<Option<Vec<u8>>>) -> (n: usize)
    ensures
        n == shards::longest_held(shards::shard_views(held@)),
{
    let mut n: usize = 0;
    let mut i: usize = 0;
    let ghost v = shards::shard_views(held@);
    assert(v.take(0) =~= Seq::empty());
    while i < held.len()
        invariant
            i <= held@.len(),
            v == shards::shard_views(held@),
            n == shards::longest_held(v.take(i as int)),
        decreases held@.len() - i,
    {
        assert(v.take(i + 1).drop_last() =~= v.take(i as int));
        assert(v.take(i + 1).last() == v[i as int]);
        match &held[i] {
            Some(s) => {
                if s.len() > n {
                    n = s.len();
                }
            },
            None => {},
        }
        i += 1;
    }
    assert(v.take(i as int) =~= v);
    n
}

/// The shards brought to one length.
fn equalize(held: &Vec<Option<Vec<u8>>>) -> (r: Vec<Option<Vec<u8>>>)
    ensures
        shards::shard_views(r@) == shards::equalized(shards::shard_views(held@)),
{
    let n = longest_shard(held);
    let ghost v = shards::shard_views(held@);
    proof {
        lemma_longest_held(v);
    }
    let mut r: Vec<Option<Vec<u8>>> = Vec::with_capacity(held.len());
    let mut i: usize = 0;
    while i < held.len()
        invariant
            i <= held@.len(),
            v == shards::shard_views(held@),
            n == shards::longest_held(v),
            forall|j: int| 0 <= j < v.len() && (#[trigger] v[j]) is Some ==> v[j]->0.len() <= n,
            r@.len() == i,
            forall|j: int|
                0 <= j < i ==> #[trigger] shards::shard_views(r@)[j] == shards::equalized(v)[j],
        decreases held@.len() - i,
    {
        let ghost before = shards::shard_views(r@);
        assert(v[i as int] is Some ==> v[i as int]->0.len() <= n);
        let e = match &held[i] {
            Some(s) => Some(zero_extend(s.as_slice(), n)),
            None => None,
        };
        r.push(e);
        assert forall|j: int| 0 <= j < i + 1 implies #[trigger] shards::shard_views(r@)[j]
            == shards::equalized(v)[j] by {
            if j < i {
                assert(shards::shard_views(r@)[j] == before[j]);
            }
        }
        i += 1;
    }
    assert(shards::shard_views(r@) =~= shards::equalized(v));
    r
}

/// Whether the first `k` shards are all there.
fn has_all_data(held: &Vec<Option<Vec<u8>>>, k: usize) -> (r: bool)
    requires
        k <= held@.len(),
    ensures
        r == data_complete(shards::shard_views(held@), k as nat),
{
    let mut i: usize = 0;
    let ghost v = shards::shard_views(held@);
    while i < k
        invariant
            i <= k <= held@.len(),
            v == shards::shard_views(held@),
            forall|j: int| 0 <= j < i ==> (#[trigger] v[j]) is Some,
        decreases k - i,
    {
        if held[i].is_none() {
            assert(v[i as int] is None);
            return false;
        }
        i += 1;
    }
    true
}

impl KcpSession {
    /// Feeds the state machine the packets of the data shards that were missing
    /// in `held` and are there in `after`.
    fn feed_recovered(&mut self, held: &Vec<Option<Vec<u8>>>, after: &Vec<Option<Vec<u8>>>) -> (r:
        Result<(), SessionError>)
        requires
            old(self).wf(),
            old(self).code() is Some,
            held@.len() == after@.len(),
            held@.len() >= old(self).code()->0.k,
        ensures
            final(self).wf(),
            final(self).same_setup(old(self)),
            ({
                let (kcp, failed) = shards::fed_all(
                    old(self)@.kcp,
                    shards::newly_carried(
                        shards::shard_views(held@),
                        after@,
                        old(self).code()->0.k,
                    ),
                );
                &&& final(self)@ == (Session { kcp, ..old(self)@ })
                &&& r == (match failed {
                    Some(e) => Err::<(), SessionError>(SessionError::Kcp(e)),
                    None => Ok::<(), SessionError>(()),
                })
            }),
    {
        let ghost s0 = self@;
        let ghost packets = shards::newly_carried(
            shards::shard_views(held@),
            after@,
            self.code()->0.k,
        );
        let k = self.config.data_shards;
        let mut i: usize = 0;
        assert(packets.take(0) =~= Seq::empty());
        assert(self@ =~= (Session { kcp: s0.kcp, ..s0 }));
        while i < k
            invariant
                i <= k,
                k == packets.len(),
                k == old(self).code()->0.k,
                k <= held@.len(),
                held@.len() == after@.len(),
                s0 == old(self)@,
                self.wf(),
                self.same_setup(old(self)),
                packets == shards::newly_carried(shards::shard_views(held@), after@, k as nat),
                shards::fed_all(s0.kcp, packets.take(i as int)).1 is None,
                self@ == (Session {
                    kcp: shards::fed_all(s0.kcp, packets.take(i as int)).0,
                    ..s0
                }),
            decreases k - i,
        {
            proof {
                assert(packets.take(i + 1).drop_last() =~= packets.take(i as int));
                assert(packets.take(i + 1).last() == packets[i as int]);
                assert((shards::shard_views(held@)[i as int] is None) == (held@[i as int] is None));
            }
            if held[i].is_none() {
                match &after[i] {
                    Some(recovered) => {
                        match self.feed(recovered.as_slice()) {
                            Ok(_) => {},
                            Err(e) => {
                                proof {
                                    let t = packets.take(i + 1);
                                    assert(shards::fed_all(s0.kcp, t) == shards::fed(
                                        shards::fed_all(s0.kcp, packets.take(i as int)).0,
                                        packets[i as int],
                                    ));
                                    lemma_fed_all_stops(s0.kcp, packets, i + 1);
                                    assert(self@ == (Session {
                                        kcp: shards::fed_all(s0.kcp, packets).0,
                                        ..s0
                                    }));
                                }
                                return Err(e);
                            },
                        }
                    },
                    None => {},
                }
            }
            i += 1;
        }
        assert(packets.take(i as int) =~= packets);
        Ok(())
    }

    /// Recovers the missing data shards of a group and feeds them.
    fn recover(&mut self, held: &Vec<Option<Vec<u8>>>) -> (r: Result<(), SessionError>)
        requires
            old(self).wf(),
            old(self).code() is Some,
            held@.len() == old(self).code()->0.k + old(self).code()->0.p,
        ensures
            final(self).wf(),
            final(self).same_setup(old(self)),
            exists|packets: Seq<Option<Seq<u8>>>|
                #![trigger shards::fed_all(old(self)@.kcp, packets)]
                {
                    let (kcp, failed) = shards::fed_all(old(self)@.kcp, packets);
                    &&& shards::recovery(
                        old(self).code()->0,
                        shards::shard_views(held@),
                        packets,
                    )
                    &&& final(self)@ == (Session { kcp, ..old(self)@ })
                    &&& r == (match failed {
                        Some(e) => Err::<(), SessionError>(SessionError::Kcp(e)),
                        None => Ok::<(), SessionError>(()),
                    })
                },
    {
        let ghost code = self.code()->0;
        let ghost v = shards::shard_views(held@);
        let mut decode_shards = equalize(held);
        let ghost before = decode_shards@;
        proof {
            lemma_equal_lengths(before, v);
            assert(shards::shard_views(before).len() == shards::equalized(v).len());
            kcp_compat::lemma_full_shards_are_legible(code.rows, code.k, before);
        }
        let done = match &self.fec {
            Some(fec) => fec.decode(decode_shards.as_mut_slice()),
            None => false,
        };
        let ghost after = decode_shards@;
        let ghost packets = if done {
            shards::newly_carried(v, after, code.k)
        } else {
            Seq::empty()
        };
        assert(shards::recovers(code, v, packets, before, after));
        if done {
            self.feed_recovered(held, &decode_shards)
        } else {
            assert(shards::fed_all(self@.kcp, packets) == (self@.kcp, None::<Error>));
            assert(self@ =~= (Session { kcp: self@.kcp, ..self@ }));
            Ok(())
        }
    }
}

proof fn lemma_fed_all_stops(s: State, packets: Seq<Option<Seq<u8>>>, i: int)
    requires
        0 <= i <= packets.len(),
        shards::fed_all(s, packets.take(i)).1 is Some,
    ensures
        shards::fed_all(s, packets) == shards::fed_all(s, packets.take(i)),
    decreases packets.len(),
{
    if i == packets.len() {
        assert(packets.take(i) =~= packets);
    } else {
        assert(packets.drop_last().take(i) =~= packets.take(i));
        lemma_fed_all_stops(s, packets.drop_last(), i);
    }
}

/// Shards brought to one length are none shorter than the first.
proof fn lemma_equal_lengths(s: Seq<Option<Vec<u8>>>, v: Seq<Option<Seq<u8>>>)
    requires
        shards::shard_views(s) == shards::equalized(v),
    ensures
        forall|i: int|
            0 <= i < s.len() && (#[trigger] s[i]) is Some ==> kcp_compat::block_size(s) <= s[i]->0@.len(),
{
    let views = shards::shard_views(s);
    assert forall|i: int| 0 <= i < s.len() && (#[trigger] s[i]) is Some implies s[i]->0@.len()
        == shards::longest_held(v) by {
        assert(views[i] == Some(s[i]->0@));
        assert(views.len() == s.len() && shards::equalized(v).len() == v.len());
        assert(shards::equalized(v)[i] == Some(
            shards::zero_extended(v[i]->0, shards::longest_held(v)),
        ));
    }
    if kcp_compat::present(s, 0, s.len() as int).len() > 0 {
        kcp_compat::lemma_present(s, 0, s.len() as int);
        let f = kcp_compat::present(s, 0, s.len() as int)[0];
        assert(s[f] is Some);
    }
}

impl KcpSession {
    /// Puts a shard in its place in its group, unless that is taken.
    fn store_shard(&mut self, at: usize, place: usize, shard: &[u8])
        requires
            old(self).code() is Some,
            at < old(self).shard_groups@.len(),
            old(self).shard_groups@[at as int].wf(
                (old(self).config.data_shards + old(self).config.parity_shards) as nat,
                old(self).config.data_shards as nat,
            ),
            place < old(self).config.data_shards + old(self).config.parity_shards,
        ensures
            ({
                let g = old(self).shard_groups@[at as int];
                let h = final(self).shard_groups@[at as int];
                &&& final(self).shard_groups@ == old(self).shard_groups@.update(at as int, h)
                &&& h.shards@.len() == g.shards@.len()
                &&& h.received_count == shards::held(shards::shard_views(h.shards@))
                &&& h.group() == (if g.group().shards[place as int] is None {
                    Group {
                        shards: g.group().shards.update(place as int, Some(shard@)),
                        ..g.group()
                    }
                } else {
                    g.group()
                })
            }),
            *final(self) == (KcpSession {
                shard_groups: final(self).shard_groups,
                ..*old(self)
            }),
    {
        let ghost g = self.shard_groups@[at as int];
        let ghost v = shards::shard_views(g.shards@);
        if self.shard_groups[at].shards[place].is_none() {
            proof {
                lemma_held_update(v, place as int, shard@);
            }
            self.shard_groups[at].shards[place] = Some(slice_to_vec(shard));
            let n = self.shard_groups[at].received_count;
            self.shard_groups[at].received_count = n + 1;
            assert(shards::shard_views(self.shard_groups@[at as int].shards@) =~= v.update(
                place as int,
                Some(shard@),
            ));
        } else {
            assert(self.shard_groups@ =~= old(self).shard_groups@.update(at as int, g));
        }
    }
}

impl KcpSession {
    /// Takes the group at `at`, which alone may be full, out.
    fn take_group(&mut self, at: usize) -> (r: ShardGroup)
        requires
            at < old(self).shard_groups@.len(),
            model::valid(old(self).kcp@),
            old(self).config.usable(),
            old(self).config.has_fec(),
            old(self).fec matches Some(fec) && fec.wf() && fec.data_count()
                == old(self).config.data_shards && fec.parity_count()
                == old(self).config.parity_shards,
            old(self).pending_shards@.len() < old(self).config.data_shards,
            old(self).pending_max_size == shards::longest(matrix::rows(old(self).pending_shards@)),
            shards::distinct(groups_of(old(self).shard_groups@)),
            forall|i: int|
                0 <= i < old(self).shard_groups@.len() && i != at ==> (#[trigger] old(
                    self,
                ).shard_groups@[i]).wf(
                    (old(self).config.data_shards + old(self).config.parity_shards) as nat,
                    old(self).config.data_shards as nat,
                ),
        ensures
            final(self).wf(),
            final(self).same_setup(old(self)),
            r == old(self).shard_groups@[at as int],
            final(self)@ == (Session { groups: old(self)@.groups.remove(at as int), ..old(self)@ }),
    {
        let ghost before = self.shard_groups@;
        proof {
            lemma_removed(before, at as int);
        }
        let g = self.shard_groups.remove(at);
        assert(self.shard_groups@ =~= before.remove(at as int));
        assert forall|t: int| 0 <= t < self.shard_groups@.len() implies (
        #[trigger] self.shard_groups@[t]).wf(
            (self.config.data_shards + self.config.parity_shards) as nat,
            self.config.data_shards as nat,
        ) by {
            if t < at {
                assert(self.shard_groups@[t] == before[t]);
            } else {
                assert(self.shard_groups@[t] == before[t + 1]);
            }
        }
        assert(self@ =~= (Session { groups: old(self)@.groups.remove(at as int), ..old(self)@ }));
        g
    }

    /// Feeds a data shard whose place is free: recovery is not waited for.
    fn feed_new(&mut self, at: usize, place: usize, flag: u16, shard: &[u8]) -> (r: Result<
        (),
        SessionError,
    >)
        requires
            old(self).wf(),
            old(self).code() is Some,
            at < old(self)@.groups.len(),
            place < old(self).settings().data_shards + old(self).settings().parity_shards,
        ensures
            final(self).wf(),
            final(self).same_setup(old(self)),
            ({
                let (kcp, failed) = if flag == TYPE_DATA && old(
                    self,
                )@.groups[at as int].shards[place as int] is None {
                    shards::fed(old(self)@.kcp, shards::carried(shard@))
                } else {
                    (old(self)@.kcp, None)
                };
                &&& final(self)@ == (Session { kcp, ..old(self)@ })
                &&& r == (match failed {
                    Some(e) => Err::<(), SessionError>(SessionError::Kcp(e)),
                    None => Ok::<(), SessionError>(()),
                })
            }),
    {
        assert(self.shard_groups@[at as int].group() == self@.groups[at as int]);
        assert(self@ =~= (Session { kcp: self@.kcp, ..self@ }));
        if flag == TYPE_DATA && self.shard_groups[at].shards[place].is_none() {
            self.feed(shard)
        } else {
            Ok(())
        }
    }

    /// A shard from the wire.
    #[verifier::spinoff_prover]
    #[verifier::rlimit(60)]
    fn input_shard(&mut self, data: &[u8]) -> (r: Result<(), SessionError>)
        requires
            old(self).wf(),
            old(self).code() is Some,
            is_shard(data@),
        ensures
            final(self).wf(),
            final(self).same_setup(old(self)),
            exists|packets: Seq<Option<Seq<u8>>>|
                {
                    &&& needs_recovery(old(self)@, old(self).code()->0, data@) ==> shards::recovery(
                        old(self).code()->0,
                        completed(old(self)@, old(self).code()->0, data@).shards,
                        packets,
                    )
                    &&& (final(self)@, r) == #[trigger] shard_input(
                        old(self)@,
                        old(self).code()->0,
                        data@,
                        packets,
                    )
                },
    {
        let ghost s0 = self@;
        let ghost code = self.code()->0;
        let seqid = bytes::read_le32(data, 0);
        let flag = bytes::read_le16(data, 4);
        let shard = &data[FEC_HEADER_SIZE..data.len()];
        assert(shard@ =~= data@.skip(FEC_HEADER_SIZE as int));
        let total = self.config.data_shards + self.config.parity_shards;
        let total32: u32 = (total as u64 % 0x1_0000_0000) as u32;
        let begin = seqid.wrapping_sub(seqid % total32);
        assert(begin == group_begin(code, seqid));
        let place = seqid as usize % total;
        assert(place == shard_place(code, seqid));
        let at = self.open_group(begin);
        let ghost gs = groups_with(s0, code, data@);
        assert(self@ == (Session { groups: gs, ..s0 }));
        match self.feed_new(at, place, flag, shard) {
            Ok(_) => {},
            Err(e) => {
                assert((self@, Err::<(), SessionError>(e)) == shard_input(
                    s0,
                    code,
                    data@,
                    Seq::empty(),
                ));
                return Err(e);
            },
        }
        let ghost s1 = self@;
        let ghost before = self.shard_groups@;
        let ghost whole = completed(s0, code, data@);
        assert(before[at as int].group() == gs[at as int]);
        self.store_shard(at, place, shard);
        let ghost h = self.shard_groups@[at as int];
        assert(h.group() =~= whole);
        assert(groups_of(self.shard_groups@) =~= gs.update(at as int, whole));
        assert(shards::distinct(groups_of(self.shard_groups@))) by {
            let us = gs.update(at as int, whole);
            assert forall|a: int, b: int| 0 <= a < b < us.len() implies (#[trigger] us[a]).begin != (
            #[trigger] us[b]).begin by {
                assert(us[a].begin == gs[a].begin && us[b].begin == gs[b].begin);
            }
        }
        assert(self@ =~= (Session { groups: gs.update(at as int, whole), ..s1 }));
        if self.shard_groups[at].received_count < self.config.data_shards {
            assert forall|i: int| 0 <= i < self.shard_groups@.len() implies (
            #[trigger] self.shard_groups@[i]).wf(
                (self.config.data_shards + self.config.parity_shards) as nat,
                self.config.data_shards as nat,
            ) by {
                if i != at {
                    assert(self.shard_groups@[i] == before[i]);
                }
            }
            self.reconcile_snd_backlog();
            assert((self@, Ok::<(), SessionError>(())) == shard_input(s0, code, data@, Seq::empty()));
            return Ok(());
        }
        assert forall|i: int| 0 <= i < self.shard_groups@.len() && i != at implies (
        #[trigger] self.shard_groups@[i]).wf(
            (self.config.data_shards + self.config.parity_shards) as nat,
            self.config.data_shards as nat,
        ) by {
            assert(self.shard_groups@[i] == before[i]);
        }
        let group = self.take_group(at);
        assert(gs.update(at as int, whole).remove(at as int) =~= gs.remove(at as int));
        assert(shards::shard_views(group.shards@) == whole.shards);
        if has_all_data(&group.shards, self.config.data_shards) {
            self.reconcile_snd_backlog();
            assert((self@, Ok::<(), SessionError>(())) == shard_input(s0, code, data@, Seq::empty()));
            return Ok(());
        }
        let ghost s2 = self@;
        let r = self.recover(&group.shards);
        let ghost packets = choose|packets: Seq<Option<Seq<u8>>>|
            #![trigger shards::fed_all(s2.kcp, packets)]
            {
                let (kcp, failed) = shards::fed_all(s2.kcp, packets);
                &&& shards::recovery(code, whole.shards, packets)
                &&& self@ == (Session { kcp, ..s2 })
                &&& r == (match failed {
                    Some(e) => Err::<(), SessionError>(SessionError::Kcp(e)),
                    None => Ok::<(), SessionError>(()),
                })
            };
        match r {
            Ok(_) => {
                self.reconcile_snd_backlog();
                assert((self@, Ok::<(), SessionError>(())) == shard_input(s0, code, data@, packets));
                Ok(())
            },
            Err(e) => {
                assert((self@, Err::<(), SessionError>(e)) == shard_input(s0, code, data@, packets));
                Err(e)
            },
        }
    }

    /// Feed received UDP data into KCP. Handles FEC decode if enabled.
    pub fn input(&mut self, data: &[u8]) -> (r: Result<(), SessionError>)
        requires
            old(self).wf(),
        ensures
            final(self).wf(),
            final(self).same_setup(old(self)),
            exists|packets: Seq<Option<Seq<u8>>>|
                {
                    &&& old(self).code() is Some && needs_recovery(
                        without_stale(old(self)@),
                        old(self).code()->0,
                        data@,
                    ) ==> shards::recovery(
                        old(self).code()->0,
                        completed(without_stale(old(self)@), old(self).code()->0, data@).shards,
                        packets,
                    )
                    &&& (final(self)@, r) == #[trigger] taken_in(
                        old(self)@,
                        old(self).code(),
                        data@,
                        packets,
                    )
                },
    {
        let ghost s0 = self@;
        let ghost code = self.code();
        self.prune_old_groups();
        let ghost s1 = self@;
        if self.fec.is_none() {
            let r = self.input_raw(data);
            assert((self@, r) == taken_in(s0, code, data@, Seq::empty()));
            return r;
        }
        if data.len() < FEC_HEADER_SIZE {
            assert((self@, Ok::<(), SessionError>(())) == taken_in(s0, code, data@, Seq::empty()));
            return Ok(());
        }
        let flag = bytes::read_le16(data, 4);
        if flag != TYPE_DATA && flag != TYPE_PARITY {
            // Not FEC: treat as raw KCP.
            let r = self.input_raw(data);
            assert((self@, r) == taken_in(s0, code, data@, Seq::empty()));
            return r;
        }
        let r = self.input_shard(data);
        let ghost packets = choose|packets: Seq<Option<Seq<u8>>>|
            {
                &&& needs_recovery(s1, code->0, data@) ==> shards::recovery(
                    code->0,
                    completed(s1, code->0, data@).shards,
                    packets,
                )
                &&& (self@, r) == #[trigger] shard_input(s1, code->0, data@, packets)
            };
        assert((self@, r) == taken_in(s0, code, data@, packets));
        r
    }

    /// Push any received KCP data to the stream's read channel. A frame that
    /// found no room is kept and goes first the next time.
    pub fn recv_and_push(&mut self, channel: &mut ReadChannel) -> (r: Result<(), SessionError>)
        requires
            old(self).wf(),
        ensures
            final(self).wf(),
            final(self).same_setup(old(self)),
            (final(self)@, final(channel)@, r) == handed_over(old(self)@, old(channel)@),
    {
        let ghost s0 = self@;
        let ghost c0 = channel@;
        let mut held: Option<Vec<u8>> = None;
        std::mem::swap(&mut held, &mut self.pending_read);
        assert(s0.pending is None ==> self@ =~= s0);
        assert(self@ =~= (Session { pending: None, ..s0 }));
        match held {
            Some(frame) => {
                match channel.try_send(frame) {
                    Ok(_) => {},
                    Err(Refusal::Full(f)) => {
                        self.pending_read = Some(f);
                        assert(self@ =~= s0);
                        return Ok(());
                    },
                    Err(Refusal::Closed) => {
                        self.shutdown = true;
                        assert(self@ =~= (Session { shutdown: true, pending: None, ..s0 }));
                        return Err(SessionError::ReadChannelClosed);
                    },
                }
            },
            None => {},
        }
        let ghost s1 = self@;
        let ghost c1 = channel@;
        assert(drained(s1, c1) == handed_over(s0, c0));
        loop
            invariant
                self.wf(),
                self.same_setup(old(self)),
                drained(self@, channel@) == handed_over(old(self)@, old(channel)@),
                self@.pending is None,
            decreases waiting(self@.kcp),
        {
            let ghost s = self@;
            let ghost ch = channel@;
            let ghost m = model::message(s.kcp.rcv_queue);
            match self.kcp.peeksize() {
                Ok(size) => {
                    proof {
                        lemma_received_waiting(s.kcp);
                    }
                    let none: Vec<u8> = Vec::new();
                    let mut frame = zero_extend(none.as_slice(), size);
                    match self.kcp.recv(frame.as_mut_slice()) {
                        Ok(n) => {
                            assert(self@ =~= (Session { kcp: model::received(s.kcp), ..s }));
                            assert(frame@ =~= m);
                            if n > 0 {
                                match channel.try_send(frame) {
                                    Ok(_) => {},
                                    Err(Refusal::Full(f)) => {
                                        self.pending_read = Some(f);
                                        assert(self@ =~= (Session {
                                            pending: Some(m),
                                            kcp: model::received(s.kcp),
                                            ..s
                                        }));
                                        return Ok(());
                                    },
                                    Err(Refusal::Closed) => {
                                        self.shutdown = true;
                                        assert(self@ =~= (Session {
                                            shutdown: true,
                                            kcp: model::received(s.kcp),
                                            ..s
                                        }));
                                        return Err(SessionError::ReadChannelClosed);
                                    },
                                }
                            }
                        },
                        Err(e) => {
                            assert(self@ =~= s);
                            return Err(SessionError::Kcp(e));
                        },
                    }
                },
                Err(e) => {
                    return match e {
                        Error::RecvQueueEmpty => Ok(()),
                        other => Err(SessionError::Kcp(other)),
                    };
                },
            }
        }
    }
}

} // verus!
