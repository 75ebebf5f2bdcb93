//! The KCP protocol state machine.
//!
//! It implements the kcp wire protocol with three kcp-go compatibility
//! properties:
//!
//! 1. RTO **linear** backoff (`rto += rx_rto / 2`) instead of the exponential
//!    `rto += rto / 2` when `nodelay` is enabled.
//! 2. `flush()` retransmission order: initial → fast_retransmit →
//!    early_retransmit → RTO.
//! 3. Early retransmit on `fastack > 0 && new_segs == 0`.
//!
//! Outgoing datagrams are collected in a [`KcpWriter`], one entry each.
//!
//! The wire layout is a 24-byte little-endian header
//! `conv u32 | cmd u8 | frg u8 | wnd u16 | ts u32 | sn u32 | una u32 | len u32`
//! followed by the payload. Sequence numbers and times wrap around at 2^32.
use std::collections::VecDeque;
use vstd::prelude::*;
use vstd::slice::slice_to_vec;

use super::model;
use super::validity;
use super::model::{
    Acks, Resend, Round, Segment, State, Step, KCP_ASK_SEND, KCP_ASK_TELL, KCP_CMD_ACK, KCP_CMD_PUSH,
    KCP_CMD_WASK, KCP_CMD_WINS, KCP_DEADLINK, KCP_FASTACK_LIMIT, KCP_INTERVAL, KCP_MTU_DEF,
    KCP_PROBE_INIT, KCP_PROBE_LIMIT, KCP_RTO_DEF, KCP_RTO_MAX, KCP_RTO_MIN, KCP_RTO_NDL,
    KCP_THRESH_INIT, KCP_THRESH_MIN, KCP_WND_RCV, KCP_WND_SND,
};
use crate::bytes;

pub use super::model::KCP_OVERHEAD;

verus! {

/// `v` brought into `lower ..= upper`; `upper` where the bounds cross.
pub fn bound(lower: u32, v: u32, upper: u32) -> (r: u32)
    ensures
        r == model::min(model::max(lower as int, v as int), upper as int),
{
    let m: u32 = if lower < v {
        v
    } else {
        lower
    };
    if m < upper {
        m
    } else {
        upper
    }
}

/// Signed time difference with u32 wraparound semantics (same as kcp-go).
pub fn timediff(later: u32, earlier: u32) -> (r: i32)
    ensures
        r == model::difference(later, earlier),
{
    let d: u32 = later.wrapping_sub(earlier);
    assert(d == model::ahead(later, earlier));
    if d < 0x8000_0000 {
        d as i32
    } else {
        -((0xFFFF_FFFF - d) as i32) - 1
    }
}

/// `t + d` with u32 wraparound.
fn after(t: u32, d: u64) -> (r: u32)
    requires
        d <= 0xFFFF_FFFF_0000_0000,
    ensures
        r == model::plus(t, d as int),
{
    ((t as u64 + d) % 0x1_0000_0000) as u32
}

/// `a * b`, at most `usize::MAX`.
fn capped_mul(a: usize, b: usize) -> (r: usize)
    ensures
        r == model::capped_product(a as int, b as int),
{
    match a.checked_mul(b) {
        Some(p) => p,
        None => usize::MAX,
    }
}

// ── error type ──────────────────────────────────────────────────────────

/// KCP protocol errors.
#[derive(Debug, Clone, Copy, PartialEq, Eq, Structural)]
pub enum Error {
    /// conv inconsistent: expected, found
    ConvInconsistent(u32, u32),
    /// invalid mtu
    InvalidMtu(usize),
    /// invalid segment size
    InvalidSegmentSize(usize),
    /// invalid segment data size: expected, found
    InvalidSegmentDataSize(usize, usize),
    /// need to call update() once
    NeedUpdate,
    /// recv queue is empty
    RecvQueueEmpty,
    /// expecting fragment
    ExpectingFragment,
    /// command is not supported
    UnsupportedCmd(u8),
    /// user's send buffer is too big
    UserBufTooBig,
    /// user's recv buffer is too small
    UserBufTooSmall,
}

// ── output ──────────────────────────────────────────────────────────────

/// Collects the datagrams that the state machine hands out.
pub struct KcpWriter {
    packets: Vec<Vec<u8>>,
}

impl View for KcpWriter {
    type V = Seq<Seq<u8>>;

    closed spec fn view(&self) -> Seq<Seq<u8>> {
        Seq::new(self.packets@.len(), |i: int| self.packets@[i]@)
    }
}

impl Default for KcpWriter {
    fn default() -> (r: KcpWriter)
        ensures
            r@ == Seq::<Seq<u8>>::empty(),
    {
        KcpWriter::new()
    }
}

impl KcpWriter {
    pub fn new() -> (r: KcpWriter)
        ensures
            r@ == Seq::<Seq<u8>>::empty(),
    {
        let r = KcpWriter { packets: Vec::new() };
        assert(r@ =~= Seq::<Seq<u8>>::empty());
        r
    }

    /// Takes the packets collected so far.
    pub fn drain(&mut self) -> (r: Vec<Vec<u8>>)
        ensures
            final(self)@ == Seq::<Seq<u8>>::empty(),
            r@.len() == old(self)@.len(),
            forall|i: int| 0 <= i < r@.len() ==> (#[trigger] r@[i])@ == old(self)@[i],
    {
        let mut out: Vec<Vec<u8>> = Vec::new();
        std::mem::swap(&mut out, &mut self.packets);
        assert(self@ =~= Seq::<Seq<u8>>::empty());
        out
    }

    /// How many packets wait.
    pub fn len(&self) -> (r: usize)
        ensures
            r == self@.len(),
    {
        self.packets.len()
    }

    fn push(&mut self, packet: Vec<u8>)
        ensures
            final(self)@ == old(self)@.push(packet@),
    {
        self.packets.push(packet);
        assert(self@ =~= old(self)@.push(packet@));
    }
}

// ── segment ─────────────────────────────────────────────────────────────

#[derive(Debug)]
pub struct KcpSegment {
    pub conv: u32,
    pub cmd: u8,
    pub frg: u8,
    pub wnd: u16,
    pub ts: u32,
    pub sn: u32,
    pub una: u32,
    pub resendts: u32,
    pub rto: u32,
    pub fastack: u32,
    pub xmit: u32,
    pub data: Vec<u8>,
}

impl View for KcpSegment {
    type V = Segment;

    open spec fn view(&self) -> Segment {
        Segment {
            conv: self.conv,
            cmd: self.cmd,
            frg: self.frg,
            wnd: self.wnd,
            ts: self.ts,
            sn: self.sn,
            una: self.una,
            resendts: self.resendts,
            rto: self.rto,
            fastack: self.fastack,
            xmit: self.xmit,
            data: self.data@,
        }
    }
}

impl KcpSegment {
    pub fn new_with_data(data: Vec<u8>) -> (r: KcpSegment)
        ensures
            r@ == model::segment_of(data@),
    {
        KcpSegment {
            conv: 0,
            cmd: 0,
            frg: 0,
            wnd: 0,
            ts: 0,
            sn: 0,
            una: 0,
            resendts: 0,
            rto: 0,
            fastack: 0,
            xmit: 0,
            data,
        }
    }

    /// Append this segment to `buf` in the 24-byte little-endian wire format.
    pub fn encode(&self, buf: &mut Vec<u8>)
        ensures
            final(buf)@ == old(buf)@ + model::encoded(self@),
    {
        bytes::push_le32(buf, self.conv);
        buf.push(self.cmd);
        buf.push(self.frg);
        bytes::push_le16(buf, self.wnd);
        bytes::push_le32(buf, self.ts);
        bytes::push_le32(buf, self.sn);
        bytes::push_le32(buf, self.una);
        bytes::push_le32(buf, (self.data.len() as u64 % 0x1_0000_0000) as u32);
        bytes::extend(buf, self.data.as_slice());
        assert(buf@ =~= old(buf)@ + model::encoded(self@));
    }
}

impl KcpSegment {
    /// Decide whether this segment of the send buffer is due in a flush, and
    /// bring its retransmission state up to date where it is.
    ///
    /// The order matches kcp-go: initial → fast_retransmit →
    /// early_retransmit → RTO.
    fn advance(&mut self, c: &Round) -> (r: Resend)
        ensures
            r == model::resend_kind(old(self)@, *c),
            final(self)@ == model::after_round(old(self)@, *c),
    {
        let ghost g = self@;
        let kind: Resend = if self.xmit == 0 {
            Resend::Initial
        } else if self.fastack >= c.resent {
            if self.xmit <= c.fastlimit || c.fastlimit == 0 {
                Resend::Fast
            } else if timediff(c.current, self.resendts) >= 0 {
                // Past the limit, RTO takes over.
                Resend::Timeout
            } else {
                Resend::Not
            }
        } else if self.fastack > 0 && !c.fresh {
            Resend::Early
        } else if timediff(c.current, self.resendts) >= 0 {
            Resend::Timeout
        } else {
            Resend::Not
        };
        let (rto, wait) = match kind {
            Resend::Not => {
                return kind;
            },
            Resend::Initial => {
                let rtomin: u32 = if c.nodelay {
                    0
                } else {
                    c.rx_rto / 8
                };
                (c.rx_rto, c.rx_rto as u64 + rtomin as u64)
            },
            Resend::Fast | Resend::Early => {
                // kcp-go: reset rto to rx_rto on fast retransmit.
                self.fastack = 0;
                (c.rx_rto, c.rx_rto as u64)
            },
            Resend::Timeout => {
                self.fastack = 0;
                let more: u32 = if c.nodelay {
                    // kcp-go: LINEAR backoff rto += rx_rto/2.
                    c.rx_rto / 2
                } else if self.rto <= c.rx_rto {
                    c.rx_rto
                } else {
                    self.rto
                };
                let rto = after(self.rto, more as u64);
                (rto, rto as u64)
            },
        };
        assert(rto == model::next_rto(g, *c));
        self.rto = rto;
        self.resendts = after(c.current, wait);
        self.xmit = after(self.xmit, 1);
        self.ts = c.current;
        self.wnd = c.wnd;
        self.una = c.una;
        assert(self@ =~= model::after_round(g, *c));
        kind
    }
}

/// The segments of a queue.
pub open spec fn segments(q: Seq<KcpSegment>) -> Seq<Segment> {
    Seq::new(q.len(), |i: int| q[i]@)
}

// ── state machine ───────────────────────────────────────────────────────

/// KCP control state machine.
pub struct Kcp {
    /// Conversation ID.
    pub conv: u32,
    /// Maximum Transmission Unit.
    pub mtu: usize,
    /// Maximum Segment Size.
    pub mss: usize,
    /// Connection state: 0 = alive, -1 = dead link.
    pub state: i32,
    /// First unacknowledged packet.
    pub snd_una: u32,
    /// Next send sequence number.
    pub snd_nxt: u32,
    /// Next expected receive sequence number.
    pub rcv_nxt: u32,
    /// Slow-start congestion threshold.
    pub ssthresh: u16,
    /// ACK receive variance (RTT).
    pub rx_rttval: u32,
    /// ACK receive smoothed RTT.
    pub rx_srtt: u32,
    /// Resend timeout (derived from RTT).
    pub rx_rto: u32,
    /// Minimal resend timeout.
    pub rx_minrto: u32,
    /// Send window.
    pub snd_wnd: u16,
    /// Receive window.
    pub rcv_wnd: u16,
    /// Remote receive window.
    pub rmt_wnd: u16,
    /// Congestion window.
    pub cwnd: u16,
    /// Pending window probe flags (`KCP_ASK_SEND` / `KCP_ASK_TELL`).
    pub probe: u32,
    /// Last `update` time.
    pub current: u32,
    /// Flush interval (ms).
    pub interval: u32,
    /// Next scheduled flush time.
    pub ts_flush: u32,
    /// Total RTO retransmissions (dead-link counter).
    pub xmit: u32,
    /// `nodelay` mode: uses `KCP_RTO_NDL` min RTO and linear RTO backoff.
    pub nodelay: bool,
    /// `update` has been called at least once.
    pub updated: bool,
    /// Next window-probe timestamp.
    pub ts_probe: u32,
    /// Window-probe wait time.
    pub probe_wait: u32,
    /// Maximum resend count before `state = -1`.
    pub dead_link: u32,
    /// Congestion-control increment accumulator.
    pub incr: usize,
    pub snd_queue: VecDeque<KcpSegment>,
    pub rcv_queue: VecDeque<KcpSegment>,
    pub snd_buf: VecDeque<KcpSegment>,
    pub rcv_buf: VecDeque<KcpSegment>,
    /// Pending ACKs `(sn, ts)`.
    pub acklist: VecDeque<(u32, u32)>,
    /// Output accumulation buffer (filled with one or more segments).
    pub buf: Vec<u8>,
    /// Fast-resend threshold (0 = disabled).
    pub fastresend: u32,
    /// Max fast retransmissions before RTO takes over.
    pub fastlimit: u32,
    /// Disable congestion control.
    pub nocwnd: bool,
    /// Stream mode (no message boundaries).
    pub stream: bool,
    /// Adopt the conversation ID from the next `input` call.
    pub input_conv: bool,
    /// The datagrams handed out.
    pub output: KcpWriter,
}

impl View for Kcp {
    type V = State;

    open spec fn view(&self) -> State {
        State {
            conv: self.conv,
            mtu: self.mtu,
            mss: self.mss,
            dead: self.state != 0,
            snd_una: self.snd_una,
            snd_nxt: self.snd_nxt,
            rcv_nxt: self.rcv_nxt,
            ssthresh: self.ssthresh,
            rx_rttval: self.rx_rttval,
            rx_srtt: self.rx_srtt,
            rx_rto: self.rx_rto,
            rx_minrto: self.rx_minrto,
            snd_wnd: self.snd_wnd,
            rcv_wnd: self.rcv_wnd,
            rmt_wnd: self.rmt_wnd,
            cwnd: self.cwnd,
            probe: self.probe,
            current: self.current,
            interval: self.interval,
            ts_flush: self.ts_flush,
            xmit: self.xmit,
            nodelay: self.nodelay,
            updated: self.updated,
            ts_probe: self.ts_probe,
            probe_wait: self.probe_wait,
            dead_link: self.dead_link,
            incr: self.incr,
            snd_queue: segments(self.snd_queue@),
            rcv_queue: segments(self.rcv_queue@),
            snd_buf: segments(self.snd_buf@),
            rcv_buf: segments(self.rcv_buf@),
            acklist: self.acklist@,
            buf: self.buf@,
            fastresend: self.fastresend,
            fastlimit: self.fastlimit,
            nocwnd: self.nocwnd,
            stream: self.stream,
            input_conv: self.input_conv,
            packets: self.output@,
        }
    }
}

impl Kcp {
    /// Creates a KCP control object. `conv` must be equal on both endpoints
    /// of one connection. `output` is the packet sink.
    pub fn new(conv: u32, output: KcpWriter) -> (r: Kcp)
        ensures
            model::valid(r@),
            r@ == model::initial(conv, false, output@),
    {
        Kcp::construct(conv, output, false)
    }

    /// Creates a KCP control object in stream mode (no message boundaries).
    pub fn new_stream(conv: u32, output: KcpWriter) -> (r: Kcp)
        ensures
            model::valid(r@),
            r@ == model::initial(conv, true, output@),
    {
        Kcp::construct(conv, output, true)
    }

    fn construct(conv: u32, output: KcpWriter, stream: bool) -> (r: Kcp)
        ensures
            model::valid(r@),
            r@ == model::initial(conv, stream, output@),
    {
        let r = Kcp {
            conv,
            mtu: KCP_MTU_DEF,
            mss: KCP_MTU_DEF - KCP_OVERHEAD,
            state: 0,
            snd_una: 0,
            snd_nxt: 0,
            rcv_nxt: 0,
            ssthresh: KCP_THRESH_INIT,
            rx_rttval: 0,
            rx_srtt: 0,
            rx_rto: KCP_RTO_DEF,
            rx_minrto: KCP_RTO_MIN,
            snd_wnd: KCP_WND_SND,
            rcv_wnd: KCP_WND_RCV,
            rmt_wnd: KCP_WND_RCV,
            cwnd: 0,
            probe: 0,
            current: 0,
            interval: KCP_INTERVAL,
            ts_flush: KCP_INTERVAL,
            xmit: 0,
            nodelay: false,
            updated: false,
            ts_probe: 0,
            probe_wait: 0,
            dead_link: KCP_DEADLINK,
            incr: 0,
            snd_queue: VecDeque::new(),
            rcv_queue: VecDeque::new(),
            snd_buf: VecDeque::new(),
            rcv_buf: VecDeque::new(),
            acklist: VecDeque::new(),
            buf: Vec::new(),
            fastresend: 0,
            fastlimit: KCP_FASTACK_LIMIT,
            nocwnd: false,
            stream,
            input_conv: false,
            output,
        };
        assert(r@ =~= model::initial(conv, stream, output@));
        r
    }

    /// Move available data from `rcv_buf` into `rcv_queue` in order.
    fn move_buf(&mut self)
        ensures
            final(self)@ == model::moved(old(self)@),
    {
        while self.rcv_buf.len() > 0 && self.rcv_buf[0].sn == self.rcv_nxt && self.rcv_queue.len()
            < self.rcv_wnd as usize
            invariant
                model::moved(self@) == model::moved(old(self)@),
            decreases self.rcv_buf@.len(),
        {
            let ghost before = self@;
            if let Some(seg) = self.rcv_buf.pop_front() {
                self.rcv_nxt = self.rcv_nxt.wrapping_add(1);
                self.rcv_queue.push_back(seg);
                assert(self@ =~= State {
                    rcv_buf: before.rcv_buf.drop_first(),
                    rcv_queue: before.rcv_queue.push(before.rcv_buf[0]),
                    rcv_nxt: model::plus(before.rcv_nxt, 1),
                    ..before
                });
            }
        }
    }

    /// The size of the first message in the receive queue.
    fn message_size(&self) -> (r: u64)
        requires
            model::valid(self@),
            self@.rcv_queue.len() > 0,
        ensures
            r == model::message(self@.rcv_queue).len(),
    {
        let ghost q = self@.rcv_queue;
        let mut total: u64 = 0;
        let mut i: usize = 0;
        assert(q.take(0) =~= Seq::<Segment>::empty());
        while i < self.rcv_queue.len()
            invariant
                model::valid(self@),
                q == self@.rcv_queue,
                i <= q.len(),
                total == model::flattened(q.take(i as int)).len(),
                total <= i * (u32::MAX as int),
                forall|j: int| 0 <= j < i ==> (#[trigger] q[j]).frg != 0,
            decreases q.len() - i,
        {
            let seg = &self.rcv_queue[i];
            assert(q[i as int] == seg@);
            assert(q[i as int].data.len() <= u32::MAX);
            proof {
                lemma_flattened_next(q, i as int);
                lemma_message_end(q, i as int);
                lemma_message_end(q, i + 1);
            }
            total = total + seg.data.len() as u64;
            if seg.frg == 0 {
                return total;
            }
            i += 1;
        }
        proof {
            lemma_message_end(q, i as int);
        }
        total
    }

    /// Check the size of the next receivable message without consuming it.
    pub fn peeksize(&self) -> (r: Result<usize, Error>)
        requires
            model::valid(self@),
        ensures
            r is Err <==> model::receive_error(self@.rcv_queue) is Some,
            r matches Err(e) ==> model::receive_error(self@.rcv_queue) == Some(e),
            r matches Ok(n) ==> n == model::capped_sum(
                model::message(self@.rcv_queue).len() as int,
                0,
            ),
    {
        if self.rcv_queue.len() == 0 {
            return Err(Error::RecvQueueEmpty);
        }
        if self.rcv_queue.len() < self.rcv_queue[0].frg as usize + 1 {
            return Err(Error::ExpectingFragment);
        }
        let size = self.message_size();
        if size <= usize::MAX as u64 {
            Ok(size as usize)
        } else {
            Ok(usize::MAX)
        }
    }

    /// Receive data from the buffer.
    pub fn recv(&mut self, buf: &mut [u8]) -> (r: Result<usize, Error>)
        requires
            model::valid(old(self)@),
        ensures
            model::valid(final(self)@),
            final(buf)@.len() == old(buf)@.len(),
            match model::receive_error(old(self)@.rcv_queue) {
                Some(e) => r == Err::<usize, Error>(e) && final(self)@ == old(self)@ && final(buf)@
                    == old(buf)@,
                None => if model::message(old(self)@.rcv_queue).len() > old(buf)@.len() {
                    r == Err::<usize, Error>(Error::UserBufTooSmall) && final(self)@ == old(self)@
                        && final(buf)@ == old(buf)@
                } else {
                    let m = model::message(old(self)@.rcv_queue);
                    &&& r == Ok::<usize, Error>(m.len() as usize)
                    &&& final(buf)@ == m + old(buf)@.skip(m.len() as int)
                    &&& final(self)@ == model::received(old(self)@)
                },
            },
    {
        if self.rcv_queue.len() == 0 {
            return Err(Error::RecvQueueEmpty);
        }
        if self.rcv_queue.len() < self.rcv_queue[0].frg as usize + 1 {
            return Err(Error::ExpectingFragment);
        }
        if self.message_size() > buf.len() as u64 {
            return Err(Error::UserBufTooSmall);
        }
        let recover = self.rcv_queue.len() >= self.rcv_wnd as usize;
        // Merge fragment chain.
        let ghost s0 = self@;
        let ghost q = self@.rcv_queue;
        let ghost b0 = buf@;
        let ghost end = model::message_end(q) as int;
        let mut pos: usize = 0;
        let mut done = false;
        let ghost mut i: int = 0;
        proof {
            assert(q.take(0) =~= Seq::<Segment>::empty());
            assert(q.skip(0) =~= q);
            lemma_message_end(q, 0);
            assert(buf@ =~= model::flattened(q.take(0)) + b0.skip(0));
            assert(self@ =~= State { rcv_queue: q.skip(0), ..s0 });
        }
        while !done && self.rcv_queue.len() > 0
            invariant
                0 <= i <= q.len(),
                q.len() > 0,
                b0.len() == buf@.len(),
                end == model::message_end(q),
                model::message(q) == model::flattened(q.take(end)),
                model::message(q).len() <= b0.len(),
                !done ==> forall|j: int| 0 <= j < i ==> (#[trigger] q[j]).frg != 0,
                !done ==> i <= end,
                done ==> i == end,
                pos == model::flattened(q.take(i)).len(),
                self@ == (State { rcv_queue: q.skip(i), ..s0 }),
                buf@ == model::flattened(q.take(i)) + b0.skip(pos as int),
            decreases self.rcv_queue@.len(),
        {
            let ghost before = self@;
            let ghost deque = self.rcv_queue@;
            if let Some(seg) = self.rcv_queue.pop_front() {
                let ghost g = seg@;
                proof {
                    assert(g == before.rcv_queue[0]);
                    assert(before.rcv_queue == q.skip(i));
                    assert(q.skip(i).len() > 0);
                    assert(g == q[i]);
                    lemma_message_end(q, i);
                    lemma_message_end(q, i + 1);
                    lemma_flattened_next(q, i);
                    lemma_flattened_prefix(q, i + 1, end);
                    lemma_segments_first(deque);
                    assert(q.skip(i).drop_first() =~= q.skip(i + 1));
                    assert(self@ =~= State { rcv_queue: q.skip(i + 1), ..s0 });
                }
                let ghost start = buf@;
                assert(buf@.len() == buf.len());
                let mut k: usize = 0;
                while k < seg.data.len()
                    invariant
                        g == seg@,
                        k <= seg.data@.len(),
                        buf@.len() == start.len(),
                        pos + seg.data@.len() <= buf@.len() <= usize::MAX,
                        buf@ == start.take(pos as int) + g.data.take(k as int) + start.skip(pos + k),
                    decreases seg.data@.len() - k,
                {
                    let ghost now = buf@;
                    buf[pos + k] = seg.data[k];
                    k += 1;
                    assert(buf@ =~= start.take(pos as int) + g.data.take(k as int) + start.skip(
                        pos + k,
                    ));
                }
                assert(buf@ =~= model::flattened(q.take(i + 1)) + b0.skip(pos + g.data.len()));
                pos = pos + seg.data.len();
                if seg.frg == 0 {
                    done = true;
                }
                proof {
                    i = i + 1;
                }
            }
        }
        proof {
            if !done {
                assert(self@.rcv_queue.len() == 0);
                lemma_message_end(q, i);
            }
        }
        self.move_buf();
        // Fast recover: tell the remote our window size.
        if self.rcv_queue.len() < self.rcv_wnd as usize && recover {
            self.probe = self.probe | KCP_ASK_TELL;
        }
        assert(self@ =~= model::received(s0));
        proof {
            validity::lemma_received_valid(s0);
        }
        Ok(pos)
    }

    /// In stream mode, append to the last queued segment as far as it has room.
    /// Returns the number of bytes taken.
    fn merge_into_last(&mut self, buf: &[u8]) -> (taken: usize)
        requires
            model::valid(old(self)@),
        ensures
            taken == model::merged_len(old(self)@, buf@),
            final(self)@ == model::merged(old(self)@, buf@),
            taken <= buf@.len(),
    {
        let ghost s0 = self@;
        if !self.stream || self.snd_queue.len() == 0 {
            return 0;
        }
        let l = self.snd_queue[self.snd_queue.len() - 1].data.len();
        if l >= self.mss {
            return 0;
        }
        let ghost deque = self.snd_queue@;
        let capacity = self.mss - l;
        let extend: usize = if buf.len() < capacity {
            buf.len()
        } else {
            capacity
        };
        if let Some(seg) = self.snd_queue.pop_back() {
            let mut old_seg = seg;
            bytes::extend(&mut old_seg.data, &buf[0..extend]);
            old_seg.frg = 0;
            assert(buf@.subrange(0, extend as int) =~= buf@.take(extend as int));
            self.snd_queue.push_back(old_seg);
            assert(self@.snd_queue =~= model::merged(s0, buf@).snd_queue);
            assert(self@ =~= model::merged(s0, buf@));
        }
        extend
    }

    /// Send bytes into the buffer. In stream mode a trailing partial segment
    /// is extended when possible; in message mode the data is split into
    /// `MSS`-sized segments chained by the `frg` field.
    pub fn send(&mut self, buf: &[u8]) -> (r: Result<usize, Error>)
        requires
            model::valid(old(self)@),
        ensures
            model::valid(final(self)@),
            final(self)@ == model::sent(old(self)@, buf@).0,
            r == (if model::sent(old(self)@, buf@).1 {
                Ok::<usize, Error>(buf@.len() as usize)
            } else {
                Err::<usize, Error>(Error::UserBufTooBig)
            }),
    {
        let ghost s0 = self@;
        proof {
            validity::lemma_sent_valid(s0, buf@);
        }
        let start = self.merge_into_last(buf);
        let ghost t = self@;
        let ghost rest = buf@.skip(start as int);
        let n = buf.len() - start;
        if self.stream && n == 0 {
            return Ok(start);
        }
        let mss = self.mss;
        proof {
            if n > mss {
                assert(n as int / mss as int <= n) by (nonlinear_arith)
                    requires
                        mss >= 26,
                        n >= 0,
                ;
                assert(n as int / mss as int <= n / 2) by (nonlinear_arith)
                    requires
                        mss >= 26,
                        n >= 0,
                ;
            }
        }
        let count: usize = if n <= mss {
            1
        } else if n % mss == 0 {
            n / mss
        } else {
            n / mss + 1
        };
        assert(count == model::fragment_count(rest.len(), mss));
        if count >= KCP_WND_RCV as usize {
            return Err(Error::UserBufTooBig);
        }
        let ghost all = model::fragments(rest, mss, self.stream);
        let mut i: usize = 0;
        let mut pos: usize = start;
        proof {
            if n > mss {
                assert(count >= 1) by {
                    assert(n as int / mss as int >= 1) by (nonlinear_arith)
                        requires
                            n > mss,
                            mss >= 26,
                    ;
                }
            }
            assert(all.take(0) =~= Seq::<Segment>::empty());
            assert(self@ =~= State { snd_queue: t.snd_queue + all.take(0), ..t });
        }
        while i < count
            invariant
                i <= count < KCP_WND_RCV,
                start <= buf@.len(),
                n == buf@.len() - start,
                rest == buf@.skip(start as int),
                mss == t.mss,
                mss >= 26,
                count == model::fragment_count(rest.len(), mss),
                all == model::fragments(rest, mss, t.stream),
                all.len() == count,
                start <= pos <= buf@.len(),
                pos - start == model::min(i * mss, n as int),
                self@ == (State { snd_queue: t.snd_queue + all.take(i as int), ..t }),
            decreases count - i,
        {
            let ghost before = self@;
            let left = buf.len() - pos;
            let size: usize = if mss < left {
                mss
            } else {
                left
            };
            assert((i + 1) * mss == i * mss + mss) by (nonlinear_arith);
            let mut segment = KcpSegment::new_with_data(slice_to_vec(&buf[pos..pos + size]));
            segment.frg = if self.stream {
                0
            } else {
                (count - i - 1) as u8
            };
            assert(segment.data@ =~= rest.subrange(
                model::min(i * mss, n as int),
                model::min((i + 1) * mss, n as int),
            ));
            assert(segment@ =~= all[i as int]);
            self.snd_queue.push_back(segment);
            assert(self@.snd_queue =~= before.snd_queue.push(all[i as int]));
            pos = pos + size;
            i += 1;
            assert(t.snd_queue + all.take(i as int) =~= (t.snd_queue + all.take(i - 1)).push(
                all[i - 1],
            ));
            assert(self@ =~= State { snd_queue: t.snd_queue + all.take(i as int), ..t });
        }
        proof {
            assert(all.take(count as int) =~= all);
            lemma_fragments_reach_end(n as int, mss as int, count as int);
        }
        assert(self@ =~= model::sent(s0, buf@).0);
        Ok(pos)
    }

    /// RFC 6298-style RTT smoothing.
    fn update_ack(&mut self, rtt: u32)
        ensures
            final(self)@ == model::smoothed(old(self)@, rtt as int),
    {
        if self.rx_srtt == 0 {
            self.rx_srtt = rtt;
            self.rx_rttval = rtt / 2;
        } else {
            let delta: u32 = if rtt < self.rx_srtt {
                self.rx_srtt - rtt
            } else {
                rtt - self.rx_srtt
            };
            self.rx_rttval = ((3 * self.rx_rttval as u64 + delta as u64) / 4) as u32;
            let srtt: u64 = (7 * self.rx_srtt as u64 + rtt as u64) / 8;
            self.rx_srtt = if srtt < 1 {
                1
            } else {
                srtt as u32
            };
        }
        let spread: u64 = 4 * self.rx_rttval as u64;
        let rto: u64 = self.rx_srtt as u64 + if self.interval as u64 <= spread {
            spread
        } else {
            self.interval as u64
        };
        let capped: u32 = if rto <= KCP_RTO_MAX as u64 {
            rto as u32
        } else {
            KCP_RTO_MAX
        };
        self.rx_rto = bound(self.rx_minrto, capped, KCP_RTO_MAX);
        assert(self@ =~= model::smoothed(old(self)@, rtt as int));
    }

    fn shrink_buf(&mut self)
        ensures
            final(self)@ == model::shrunk(old(self)@),
    {
        self.snd_una = if self.snd_buf.len() > 0 {
            self.snd_buf[0].sn
        } else {
            self.snd_nxt
        };
        assert(self@ =~= model::shrunk(old(self)@));
    }

    fn parse_ack(&mut self, sn: u32)
        ensures
            final(self)@ == model::acknowledged(old(self)@, sn),
    {
        let ghost s0 = self@;
        if timediff(sn, self.snd_una) < 0 || timediff(sn, self.snd_nxt) >= 0 {
            return;
        }
        let mut i: usize = 0;
        while i < self.snd_buf.len() && self.snd_buf[i].sn < sn
            invariant
                self@ == s0,
                i <= s0.snd_buf.len(),
                model::first_not_below(s0.snd_buf, sn, i as int) == model::first_not_below(
                    s0.snd_buf,
                    sn,
                    0,
                ),
            decreases self.snd_buf@.len() - i,
        {
            assert(s0.snd_buf[i as int].sn < sn);
            i += 1;
        }
        if i < self.snd_buf.len() && self.snd_buf[i].sn == sn {
            assert(s0.snd_buf[i as int].sn == sn);
            let _ = self.snd_buf.remove(i);
            assert(self@.snd_buf =~= s0.snd_buf.remove(i as int));
            assert(self@ =~= model::acknowledged(s0, sn));
        } else {
            assert(i < s0.snd_buf.len() ==> s0.snd_buf[i as int].sn != sn);
        }
    }

    fn parse_una(&mut self, una: u32)
        ensures
            final(self)@ == (State {
                snd_buf: model::from_una(old(self)@.snd_buf, una),
                ..old(self)@
            }),
    {
        let ghost s0 = self@;
        assert(self@ =~= State { snd_buf: s0.snd_buf, ..s0 });
        while self.snd_buf.len() > 0 && timediff(una, self.snd_buf[0].sn) > 0
            invariant
                model::from_una(self@.snd_buf, una) == model::from_una(s0.snd_buf, una),
                self@ == (State { snd_buf: self@.snd_buf, ..s0 }),
            decreases self.snd_buf@.len(),
        {
            let ghost deque = self.snd_buf@;
            proof {
                lemma_segments_first(deque);
            }
            let _ = self.snd_buf.pop_front();
            assert(self@ =~= State { snd_buf: segments(deque).drop_first(), ..s0 });
        }
        assert(self@ =~= State { snd_buf: model::from_una(s0.snd_buf, una), ..s0 });
    }

    fn parse_fastack(&mut self, sn: u32, ts: u32)
        ensures
            final(self)@ == model::skipped(old(self)@, sn, ts),
    {
        let ghost s0 = self@;
        if timediff(sn, self.snd_una) < 0 || timediff(sn, self.snd_nxt) >= 0 {
            return;
        }
        let ghost b = s0.snd_buf;
        let ghost n = model::first_behind(b, sn, 0);
        let ghost out = model::skipped(s0, sn, ts).snd_buf;
        // Each segment is taken off the front and put back behind.
        let len = self.snd_buf.len();
        let mut i: usize = 0;
        let mut reached = true;
        assert(b.skip(0) =~= b);
        assert(out.take(0) =~= Seq::<Segment>::empty());
        assert(self@ =~= State { snd_buf: b.skip(0) + out.take(0), ..s0 });
        while i < len
            invariant
                i <= len,
                len == b.len(),
                b == s0.snd_buf,
                out == model::skipped(s0, sn, ts).snd_buf,
                model::in_flight(s0, sn),
                n == model::first_behind(b, sn, 0),
                reached ==> n == model::first_behind(b, sn, i as int),
                !reached ==> n < i,
                self@ == (State { snd_buf: b.skip(i as int) + out.take(i as int), ..s0 }),
            decreases len - i,
        {
            let ghost deque = self.snd_buf@;
            proof {
                assert(self@.snd_buf.len() == len);
                lemma_segments_first(deque);
            }
            if let Some(front) = self.snd_buf.pop_front() {
                let mut seg = front;
                assert(seg@ == b[i as int]);
                if timediff(sn, seg.sn) < 0 {
                    reached = false;
                }
                proof {
                    if reached {
                        lemma_first_behind_at_least(b, sn, i + 1);
                    } else {
                        assert(n <= i);
                    }
                }
                if reached && sn != seg.sn && timediff(ts, seg.ts) >= 0 {
                    seg.fastack = seg.fastack.wrapping_add(1);
                }
                assert(seg@ =~= out[i as int]);
                let ghost rest = self.snd_buf@;
                self.snd_buf.push_back(seg);
                assert(segments(self.snd_buf@) =~= segments(rest).push(out[i as int]));
                i += 1;
                assert(self@.snd_buf =~= b.skip(i as int) + out.take(i as int));
                assert(self@ =~= State { snd_buf: b.skip(i as int) + out.take(i as int), ..s0 });
            }
        }
        assert(b.skip(len as int) + out.take(len as int) =~= out);
        assert(self@ =~= model::skipped(s0, sn, ts));
    }

    fn ack_push(&mut self, sn: u32, ts: u32)
        ensures
            final(self)@ == (State { acklist: old(self)@.acklist.push((sn, ts)), ..old(self)@ }),
    {
        self.acklist.push_back((sn, ts));
        assert(self@ =~= State { acklist: old(self)@.acklist.push((sn, ts)), ..old(self)@ });
    }

    fn parse_data(&mut self, new_segment: KcpSegment)
        ensures
            final(self)@ == model::stored(old(self)@, new_segment@),
    {
        let ghost s0 = self@;
        let ghost g = new_segment@;
        let sn = new_segment.sn;
        if timediff(sn, self.rcv_nxt.wrapping_add(self.rcv_wnd as u32)) >= 0 || timediff(
            sn,
            self.rcv_nxt,
        ) < 0 {
            return;
        }
        let mut repeat = false;
        let mut new_index = self.rcv_buf.len();
        let mut found = false;
        while new_index > 0 && !found
            invariant
                self@ == s0,
                sn == g.sn,
                new_index <= s0.rcv_buf.len(),
                !found ==> !repeat && model::place(s0.rcv_buf, sn, new_index as int)
                    == model::place(s0.rcv_buf, sn, s0.rcv_buf.len() as int),
                found && repeat ==> model::place(s0.rcv_buf, sn, s0.rcv_buf.len() as int) is None,
                found && !repeat ==> model::place(s0.rcv_buf, sn, s0.rcv_buf.len() as int)
                    == Some(new_index as int),
            decreases
                new_index + if found {
                    0int
                } else {
                    1int
                },
        {
            let seg_sn = self.rcv_buf[new_index - 1].sn;
            assert(s0.rcv_buf[new_index - 1].sn == seg_sn);
            if seg_sn == sn {
                repeat = true;
                found = true;
            } else if timediff(sn, seg_sn) > 0 {
                found = true;
            } else {
                new_index -= 1;
            }
        }
        if !repeat {
            self.rcv_buf.insert(new_index, new_segment);
            assert(self@.rcv_buf =~= s0.rcv_buf.insert(new_index as int, g));
            assert(self@ =~= State { rcv_buf: s0.rcv_buf.insert(new_index as int, g), ..s0 });
        }
        // Move available data from rcv_buf into rcv_queue.
        self.move_buf();
    }

    /// Feed a received UDP datagram into the state machine. May contain
    /// multiple concatenated KCP segments; each is parsed in turn.
    pub fn input(&mut self, buf: &[u8]) -> (r: Result<usize, Error>)
        requires
            model::valid(old(self)@),
        ensures
            model::valid(final(self)@),
            final(self)@ == model::input_all(old(self)@, buf@).0,
            match model::input_all(old(self)@, buf@).1 {
                Ok(n) => r == Ok::<usize, Error>(n as usize),
                Err(e) => r == Err::<usize, Error>(e),
            },
    {
        let ghost s0 = self@;
        let ghost d = buf@;
        if buf.len() < KCP_OVERHEAD {
            return Err(Error::InvalidSegmentSize(buf.len()));
        }
        let old_una = self.snd_una;
        let mut acks = Acks { flag: false, max_ack: 0, latest_ts: 0 };
        let mut pos: usize = 0;
        while buf.len() - pos >= KCP_OVERHEAD
            invariant
                d == buf@,
                s0 == old(self)@,
                pos <= d.len(),
                model::valid(self@),
                model::input_from(self@, acks, d, pos as int, old_una) == model::input_all(s0, d),
            decreases d.len() - pos,
        {
            proof {
                validity::lemma_input_step_valid(self@, acks, d, pos as int);
            }
            match self.input_segment(buf, pos, acks) {
                Ok((next_acks, next)) => {
                    acks = next_acks;
                    pos = next;
                },
                Err(e) => {
                    return Err(e);
                },
            }
        }
        if acks.flag {
            proof {
                validity::lemma_skipped_valid(self@, acks.max_ack, acks.latest_ts);
            }
            self.parse_fastack(acks.max_ack, acks.latest_ts);
        }
        proof {
            validity::lemma_grown_valid(self@, old_una);
        }
        self.grow_window(old_una);
        Ok(pos)
    }

    /// Take in the segment at `pos`. Returns where the next one starts.
    fn input_segment(&mut self, buf: &[u8], pos: usize, acks: Acks) -> (r: Result<
        (Acks, usize),
        Error,
    >)
        requires
            pos + KCP_OVERHEAD <= buf@.len(),
        ensures
            match model::input_step(old(self)@, acks, buf@, pos as int) {
                Step::Fail(t, e) => final(self)@ == t && r == Err::<(Acks, usize), Error>(e),
                Step::Next(t, b, n) => final(self)@ == t && r == Ok::<(Acks, usize), Error>(
                    (b, n as usize),
                ),
            },
    {
        let ghost s = self@;
        let ghost d = buf@;
        proof {
            reveal(model::input_step);
        }
        assert(buf@.len() == buf.len());
        let conv = bytes::read_le32(buf, pos);
        if conv != self.conv {
            // This allows adopting a conv from this call (server-side
            // conversation allocation).
            if self.input_conv {
                self.conv = conv;
                self.input_conv = false;
            } else {
                return Err(Error::ConvInconsistent(self.conv, conv));
            }
        }
        let ghost s1 = if conv != s.conv {
            State { conv, input_conv: false, ..s }
        } else {
            s
        };
        assert(self@ =~= s1);
        let cmd = buf[pos + 4];
        let wnd = bytes::read_le16(buf, pos + 6);
        let una = bytes::read_le32(buf, pos + 16);
        let len = bytes::read_le32(buf, pos + 20) as usize;
        let left = buf.len() - pos - KCP_OVERHEAD;
        if left < len {
            return Err(Error::InvalidSegmentDataSize(len, left));
        }
        if cmd != KCP_CMD_PUSH && cmd != KCP_CMD_ACK && cmd != KCP_CMD_WASK && cmd != KCP_CMD_WINS {
            return Err(Error::UnsupportedCmd(cmd));
        }
        self.rmt_wnd = wnd;
        self.parse_una(una);
        self.shrink_buf();
        assert(self@ =~= model::shrunk(
            State { rmt_wnd: wnd, snd_buf: model::from_una(s1.snd_buf, una), ..s1 },
        ));
        let start = pos + KCP_OVERHEAD;
        let mut segment = KcpSegment::new_with_data(slice_to_vec(&buf[start..start + len]));
        segment.conv = conv;
        segment.cmd = cmd;
        segment.frg = buf[pos + 5];
        segment.wnd = wnd;
        segment.ts = bytes::read_le32(buf, pos + 8);
        segment.sn = bytes::read_le32(buf, pos + 12);
        segment.una = una;
        assert(segment@ =~= model::header_at(d, pos as int, len as nat));
        match self.input_command(segment, acks) {
            Ok(next_acks) => Ok((next_acks, start + len)),
            Err(e) => Err(e),
        }
    }

    /// Carry out the command of a segment.
    fn input_command(&mut self, segment: KcpSegment, acks: Acks) -> (r: Result<Acks, Error>)
        ensures
            match model::command_step(old(self)@, acks, segment@) {
                Ok((t, b)) => final(self)@ == t && r == Ok::<Acks, Error>(b),
                Err((t, e)) => final(self)@ == t && r == Err::<Acks, Error>(e),
            },
    {
        let ghost s = self@;
        let ghost g = segment@;
        let cmd = segment.cmd;
        let sn = segment.sn;
        let ts = segment.ts;
        if cmd == KCP_CMD_ACK {
            let rtt = timediff(self.current, ts);
            if rtt >= 0 {
                self.update_ack(rtt as u32);
            }
            self.parse_ack(sn);
            self.shrink_buf();
            if !acks.flag || (timediff(sn, acks.max_ack) > 0 && timediff(ts, acks.latest_ts) > 0) {
                return Ok(Acks { flag: true, max_ack: sn, latest_ts: ts });
            }
        } else if cmd == KCP_CMD_PUSH {
            if timediff(sn, self.rcv_nxt.wrapping_add(self.rcv_wnd as u32)) < 0 {
                self.ack_push(sn, ts);
                if timediff(sn, self.rcv_nxt) >= 0 {
                    // Reject oversized segments (beyond MSS): a conforming
                    // peer always fragments at MSS.
                    let len = segment.data.len();
                    if len > self.mss {
                        return Err(Error::InvalidSegmentDataSize(self.mss, len));
                    }
                    self.parse_data(segment);
                }
            }
        } else if cmd == KCP_CMD_WASK {
            // Ready to tell the remote our window size.
            self.probe = self.probe | KCP_ASK_TELL;
            assert(self@ =~= State { probe: s.probe | KCP_ASK_TELL, ..s });
        }
        Ok(acks)
    }

    /// Congestion window growth (slow start / congestion avoidance).
    fn grow_window(&mut self, old_una: u32)
        requires
            model::valid(old(self)@),
        ensures
            final(self)@ == model::grown(old(self)@, old_una),
    {
        let ghost s = self@;
        if timediff(self.snd_una, old_una) > 0 && self.cwnd < self.rmt_wnd {
            let mss = self.mss;
            if self.cwnd < self.ssthresh {
                self.cwnd = self.cwnd + 1;
                self.incr = self.incr.saturating_add(mss);
            } else {
                if self.incr < mss {
                    self.incr = mss;
                }
                let base = self.incr;
                assert(mss * mss <= 0xFFFF_FFFF_FFFF_FFFFu128 * 0xFFFF_FFFF_FFFF_FFFFu128)
                    by (nonlinear_arith)
                    requires
                        mss <= 0xFFFF_FFFF_FFFF_FFFF,
                ;
                let square: u128 = mss as u128 * mss as u128;
                assert((mss * mss) / (base as int) <= mss) by (nonlinear_arith)
                    requires
                        mss <= base,
                        mss > 0,
                ;
                let step: usize = (square / base as u128) as usize;
                let room = base.saturating_add(step);
                self.incr = room.saturating_add(mss / 16);
                assert(self.incr == model::capped_sum(
                    base as int,
                    (mss * mss) / (base as int) + mss / 16,
                ));
                assert((self.cwnd + 1) * mss <= 0x1_0000 * 0xFFFF_FFFF_FFFF_FFFFu128)
                    by (nonlinear_arith)
                    requires
                        self.cwnd + 1 <= 0x1_0000,
                        mss <= 0xFFFF_FFFF_FFFF_FFFF,
                ;
                if (self.cwnd as u128 + 1) * mss as u128 <= self.incr as u128 {
                    let n = self.incr;
                    proof {
                        lemma_quotient_below(n as int, mss as int);
                    }
                    let rounded: usize = if n % mss == 0 {
                        n / mss
                    } else {
                        n / mss + 1
                    };
                    self.cwnd = (rounded % 0x1_0000) as u16;
                }
            }
            if self.cwnd > self.rmt_wnd {
                self.cwnd = self.rmt_wnd;
                self.incr = capped_mul(self.rmt_wnd as usize, mss);
            }
        }
        assert(self@ =~= model::grown(s, old_una));
    }

    fn wnd_unused(&self) -> (r: u16)
        ensures
            r == model::unused_window(self@),
    {
        if self.rcv_queue.len() < self.rcv_wnd as usize {
            self.rcv_wnd - self.rcv_queue.len() as u16
        } else {
            0
        }
    }

    /// Exponential-backoff window probing while the remote window is zero.
    fn probe_wnd_size(&mut self)
        requires
            old(self)@.probe_wait <= KCP_PROBE_LIMIT,
        ensures
            final(self)@ == model::probe_scheduled(old(self)@),
    {
        if self.rmt_wnd == 0 {
            if self.probe_wait == 0 {
                self.probe_wait = KCP_PROBE_INIT;
                self.ts_probe = self.current.wrapping_add(self.probe_wait);
            } else if timediff(self.current, self.ts_probe) >= 0 {
                if self.probe_wait < KCP_PROBE_INIT {
                    self.probe_wait = KCP_PROBE_INIT;
                }
                self.probe_wait = self.probe_wait + self.probe_wait / 2;
                if self.probe_wait > KCP_PROBE_LIMIT {
                    self.probe_wait = KCP_PROBE_LIMIT;
                }
                self.ts_probe = self.current.wrapping_add(self.probe_wait);
                self.probe = self.probe | KCP_ASK_SEND;
            }
        } else {
            self.ts_probe = 0;
            self.probe_wait = 0;
        }
        assert(self@ =~= model::probe_scheduled(old(self)@));
    }

    /// Flush the accumulated output buffer, if non-empty.
    fn flush_buf(&mut self)
        ensures
            final(self)@ == model::pushed_out(old(self)@),
    {
        if self.buf.len() > 0 {
            let mut packet: Vec<u8> = Vec::new();
            std::mem::swap(&mut packet, &mut self.buf);
            self.output.push(packet);
        }
        assert(self@ =~= model::pushed_out(old(self)@));
    }

    /// Add a segment to the output buffer, flushing it first where the segment
    /// does not fit into the MTU behind it.
    fn emit(&mut self, segment: &KcpSegment)
        ensures
            final(self)@ == model::emitted(old(self)@, segment@),
    {
        let ghost s = self@;
        let fits = self.buf.len() <= self.mtu && segment.data.len() <= self.mtu - self.buf.len()
            && KCP_OVERHEAD <= self.mtu - self.buf.len() - segment.data.len();
        if !fits {
            self.flush_buf();
        }
        segment.encode(&mut self.buf);
        assert(self@ =~= model::emitted(s, segment@));
    }

    /// The header that acknowledgements and probes are sent with.
    fn control(&self) -> (r: KcpSegment)
        ensures
            r@ == model::control_segment(self@),
    {
        let mut segment = KcpSegment::new_with_data(Vec::new());
        segment.conv = self.conv;
        segment.cmd = KCP_CMD_ACK;
        segment.wnd = self.wnd_unused();
        segment.una = self.rcv_nxt;
        assert(segment@ =~= model::control_segment(self@));
        segment
    }

    /// Flush all pending ACKs into the output buffer.
    fn flush_acks_with(&mut self, segment: &mut KcpSegment)
        requires
            old(segment)@ == model::control_segment(old(self)@),
        ensures
            final(self)@ == model::acks_flushed(old(self)@),
            final(segment)@ == model::last_header(old(self)@),
    {
        let ghost s = self@;
        let ghost g = segment@;
        let n = self.acklist.len();
        let mut i: usize = 0;
        while i < n
            invariant
                i <= n,
                n == s.acklist.len(),
                self.acklist@ == s.acklist,
                self@ == model::acks_emitted(s, g, i as nat),
                segment@ == (if i == 0 {
                    g
                } else {
                    model::ack_segment(g, s.acklist[i - 1])
                }),
            decreases n - i,
        {
            let (sn, ts) = self.acklist[i];
            segment.sn = sn;
            segment.ts = ts;
            assert(segment@ =~= model::ack_segment(g, s.acklist[i as int]));
            self.emit(segment);
            proof {
                validity::lemma_emitted(model::acks_emitted(s, g, i as nat), segment@);
            }
            i += 1;
        }
        self.acklist.clear();
        assert(self@ =~= model::acks_flushed(s));
    }

    /// Flush window probing commands.
    fn flush_probe_commands(&mut self, segment: &mut KcpSegment)
        ensures
            final(self)@ == model::probes_flushed(old(self)@, old(segment)@),
    {
        let ghost s = self@;
        let ghost g = segment@;
        if (self.probe & KCP_ASK_SEND) != 0 {
            segment.cmd = KCP_CMD_WASK;
            assert(segment@ =~= Segment { cmd: KCP_CMD_WASK, ..g });
            self.emit(segment);
            proof {
                validity::lemma_emitted(s, segment@);
            }
        }
        if (self.probe & KCP_ASK_TELL) != 0 {
            segment.cmd = KCP_CMD_WINS;
            assert(segment@ =~= Segment { cmd: KCP_CMD_WINS, ..g });
            self.emit(segment);
        }
        self.probe = 0;
        assert(self@ =~= model::probes_flushed(s, g));
    }

    /// Flush pending ACKs.
    pub fn flush_ack(&mut self) -> (r: Result<(), Error>)
        requires
            model::valid(old(self)@),
        ensures
            model::valid(final(self)@),
            old(self)@.updated ==> r is Ok && final(self)@ == model::acks_flushed(old(self)@),
            !old(self)@.updated ==> r == Err::<(), Error>(Error::NeedUpdate) && final(self)@ == old(
                self,
            )@,
    {
        if !self.updated {
            return Err(Error::NeedUpdate);
        }
        proof {
            validity::lemma_acks_flushed_valid(self@);
        }
        let mut segment = self.control();
        self.flush_acks_with(&mut segment);
        Ok(())
    }

    /// Move data from snd_queue to snd_buf as far as the window goes.
    fn fill_window(&mut self, cwnd: u16, wnd: u16)
        ensures
            final(self)@ == model::admitted(old(self)@, cwnd, wnd),
    {
        while self.snd_queue.len() > 0 && timediff(
            self.snd_nxt,
            self.snd_una.wrapping_add(cwnd as u32),
        ) < 0
            invariant
                model::admitted(self@, cwnd, wnd) == model::admitted(old(self)@, cwnd, wnd),
            decreases self.snd_queue@.len(),
        {
            let ghost s = self@;
            let ghost deque = self.snd_queue@;
            let ghost before = self.snd_buf@;
            proof {
                lemma_segments_first(deque);
            }
            if let Some(front) = self.snd_queue.pop_front() {
                let mut segment = front;
                segment.conv = self.conv;
                segment.cmd = KCP_CMD_PUSH;
                segment.wnd = wnd;
                segment.ts = self.current;
                segment.sn = self.snd_nxt;
                self.snd_nxt = self.snd_nxt.wrapping_add(1);
                segment.una = self.rcv_nxt;
                segment.resendts = self.current;
                segment.rto = self.rx_rto;
                segment.fastack = 0;
                segment.xmit = 0;
                assert(segment@ =~= model::numbered(s, s.snd_queue[0], wnd));
                self.snd_buf.push_back(segment);
                assert(self@.snd_buf =~= s.snd_buf.push(model::numbered(s, s.snd_queue[0], wnd)));
                assert(self@ =~= State {
                    snd_queue: s.snd_queue.drop_first(),
                    snd_buf: s.snd_buf.push(model::numbered(s, s.snd_queue[0], wnd)),
                    snd_nxt: model::plus(s.snd_nxt, 1),
                    ..s
                });
            }
        }
    }

    /// Send a segment of the send buffer where it is due.
    fn send_due(&mut self, segment: &mut KcpSegment, c: &Round) -> (kind: Resend)
        ensures
            kind == model::resend_kind(old(segment)@, *c),
            final(segment)@ == model::after_round(old(segment)@, *c),
            final(self)@ == model::sent_one(old(self)@, old(segment)@, *c),
    {
        let ghost t = self@;
        let ghost g = segment@;
        let kind = segment.advance(c);
        match kind {
            Resend::Not => {
                return kind;
            },
            Resend::Timeout => {
                self.xmit = after(self.xmit, 1);
            },
            _ => {},
        }
        if segment.xmit >= c.dead_link {
            self.state = -1;
        }
        assert(self@ =~= State {
            xmit: if kind is Timeout {
                model::plus(t.xmit, 1)
            } else {
                t.xmit
            },
            dead: t.dead || segment@.xmit >= c.dead_link,
            ..t
        });
        self.emit(segment);
        kind
    }

    /// Go through the send buffer and send what is due. Returns whether a
    /// segment was retransmitted early, and whether one timed out.
    fn transmit(&mut self, c: &Round) -> (r: (bool, bool))
        ensures
            final(self)@ == model::transmitted(old(self)@, *c, old(self)@.snd_buf.len()),
            r.0 == model::some_fast(old(self)@.snd_buf, *c),
            r.1 == model::some_timeout(old(self)@.snd_buf, *c),
    {
        let ghost t = self@;
        let ghost b = t.snd_buf;
        let len = self.snd_buf.len();
        let mut change = false;
        let mut lost = false;
        let mut i: usize = 0;
        assert(b.skip(0) =~= b);
        assert(b.take(0) =~= Seq::<Segment>::empty());
        assert(self@ =~= State {
            snd_buf: b.skip(0) + model::transmitted(t, *c, 0).snd_buf.take(0),
            ..model::transmitted(t, *c, 0)
        });
        while i < len
            invariant
                i <= len,
                b == t.snd_buf,
                len == b.len(),
                change == model::some_fast(b.take(i as int), *c),
                lost == model::some_timeout(b.take(i as int), *c),
                self@ == (State {
                    snd_buf: b.skip(i as int) + model::transmitted(t, *c, i as nat).snd_buf.take(
                        i as int,
                    ),
                    ..model::transmitted(t, *c, i as nat)
                }),
            decreases len - i,
        {
            let ghost s = self@;
            let ghost u = model::transmitted(t, *c, i as nat);
            let ghost deque = self.snd_buf@;
            proof {
                validity::lemma_transmitted(t, *c, i as nat);
                validity::lemma_transmitted(t, *c, (i + 1) as nat);
                validity::lemma_sent_one(u, b[i as int], *c);
                assert(s.snd_buf.len() == len);
                lemma_segments_first(deque);
                lemma_some_next(b, *c, i as int);
            }
            if let Some(front) = self.snd_buf.pop_front() {
                let mut segment = front;
                assert(segment@ == b[i as int]);
                assert(self@ =~= State { snd_buf: s.snd_buf.drop_first(), ..u });
                let kind = self.send_due(&mut segment, c);
                match kind {
                    Resend::Fast | Resend::Early => {
                        change = true;
                    },
                    Resend::Timeout => {
                        lost = true;
                    },
                    Resend::Initial | Resend::Not => {},
                }
                let ghost w = model::transmitted(t, *c, (i + 1) as nat);
                let ghost rest = self.snd_buf@;
                proof {
                    let h = model::after_round(b[i as int], *c);
                    let v = State { snd_buf: u.snd_buf.update(i as int, h), ..u };
                    assert(w == model::sent_one(v, b[i as int], *c));
                    assert(self@ == model::sent_one(
                        State { snd_buf: s.snd_buf.drop_first(), ..u },
                        b[i as int],
                        *c,
                    ));
                }
                assert(self@ =~= State { snd_buf: segments(rest), ..w });
                self.snd_buf.push_back(segment);
                assert(segments(self.snd_buf@) =~= segments(rest).push(segment@));
                assert(segment@ == w.snd_buf[i as int]);
                assert(u.snd_buf.take(i as int) =~= w.snd_buf.take(i as int)) by {
                    assert forall|k: int| 0 <= k < i implies u.snd_buf[k] == w.snd_buf[k] by {}
                }
                i += 1;
                assert(self@.snd_buf =~= b.skip(i as int) + w.snd_buf.take(i as int));
                assert(self@ =~= State {
                    snd_buf: b.skip(i as int) + w.snd_buf.take(i as int),
                    ..w
                });
            }
        }
        proof {
            let w = model::transmitted(t, *c, len as nat);
            validity::lemma_transmitted(t, *c, len as nat);
            assert(b.take(len as int) =~= b);
            assert(b.skip(len as int) + w.snd_buf.take(len as int) =~= w.snd_buf);
            assert(self@ =~= w);
        }
        (change, lost)
    }

    /// Adjust the congestion window after a flush.
    fn adjust_window(&mut self, change: bool, lost: bool, cwnd: u16, resent: u32)
        ensures
            final(self)@ == model::adjusted(old(self)@, change, lost, cwnd, resent),
    {
        let ghost s = self@;
        if change {
            let inflight: u32 = self.snd_nxt.wrapping_sub(self.snd_una);
            assert(inflight == model::ahead(s.snd_nxt, s.snd_una));
            self.ssthresh = ((inflight % 0x1_0000) / 2) as u16;
            if self.ssthresh < KCP_THRESH_MIN {
                self.ssthresh = KCP_THRESH_MIN;
            }
            // kcp-go computes cwnd = ssthresh + resent with wraparound.
            self.cwnd = self.ssthresh.wrapping_add((resent % 0x1_0000) as u16);
            self.incr = capped_mul(self.cwnd as usize, self.mss);
        }
        if lost {
            self.ssthresh = cwnd / 2;
            if self.ssthresh < KCP_THRESH_MIN {
                self.ssthresh = KCP_THRESH_MIN;
            }
            self.cwnd = 1;
            self.incr = self.mss;
        }
        if self.cwnd < 1 {
            self.cwnd = 1;
            self.incr = self.mss;
        }
        assert(self@ =~= model::adjusted(s, change, lost, cwnd, resent));
    }

    /// Flush pending data in the buffer to the output.
    pub fn flush(&mut self) -> (r: Result<(), Error>)
        requires
            model::valid(old(self)@),
        ensures
            model::valid(final(self)@),
            old(self)@.updated ==> r is Ok && final(self)@ == model::flushed(old(self)@),
            !old(self)@.updated ==> r == Err::<(), Error>(Error::NeedUpdate) && final(self)@ == old(
                self,
            )@,
    {
        if !self.updated {
            return Err(Error::NeedUpdate);
        }
        let ghost s = self@;
        proof {
            reveal(model::flushed);
            validity::lemma_flushed_valid(s);
            validity::lemma_prepared(s);
            validity::lemma_acks_emitted(s, model::control_segment(s), s.acklist.len());
        }
        let mut segment = self.control();
        let wnd = segment.wnd;
        self.flush_acks_with(&mut segment);
        self.probe_wnd_size();
        self.flush_probe_commands(&mut segment);
        // Calculate the effective congestion window.
        let mut cwnd: u16 = if self.snd_wnd < self.rmt_wnd {
            self.snd_wnd
        } else {
            self.rmt_wnd
        };
        if !self.nocwnd && self.cwnd < cwnd {
            cwnd = self.cwnd;
        }
        let in_buf = self.snd_buf.len();
        proof {
            validity::lemma_before_admission(s);
        }
        self.fill_window(cwnd, wnd);
        assert(self@ == model::prepared(s));
        let c = Round {
            current: self.current,
            rx_rto: self.rx_rto,
            // Fast-resend threshold.
            resent: if self.fastresend > 0 {
                self.fastresend
            } else {
                0xFFFF_FFFF
            },
            fastlimit: self.fastlimit,
            fresh: self.snd_buf.len() > in_buf,
            nodelay: self.nodelay,
            wnd,
            una: self.rcv_nxt,
            dead_link: self.dead_link,
        };
        assert(c == model::round_of(s));
        let (change, lost) = self.transmit(&c);
        // Flush all data left in the buffer.
        self.flush_buf();
        self.adjust_window(change, lost, cwnd, c.resent);
        Ok(())
    }

    /// When the next flush is due after an update at `current`, and whether one
    /// is due now.
    fn flush_time(&self, current: u32) -> (r: (u32, bool))
        ensures
            r == model::flush_time(self.updated, self.ts_flush, self.interval, current),
    {
        let mut ts_flush = if self.updated {
            self.ts_flush
        } else {
            current
        };
        let mut slap = timediff(current, ts_flush);
        if slap < -10_000 || slap >= 10_000 {
            ts_flush = current;
            slap = 0;
        }
        if slap < 0 {
            return (ts_flush, false);
        }
        ts_flush = after(ts_flush, self.interval as u64);
        if timediff(current, ts_flush) >= 0 {
            ts_flush = after(current, self.interval as u64);
        }
        (ts_flush, true)
    }

    /// Update state every 10ms ~ 100ms.
    pub fn update(&mut self, current: u32) -> (r: Result<(), Error>)
        requires
            model::valid(old(self)@),
        ensures
            model::valid(final(self)@),
            r is Ok,
            final(self)@ == model::updated_at(old(self)@, current),
    {
        let ghost s = self@;
        let (ts_flush, due) = self.flush_time(current);
        self.current = current;
        self.updated = true;
        self.ts_flush = ts_flush;
        assert(self@ =~= model::timed(s, current));
        proof {
            validity::lemma_timed_valid(s, current);
        }
        if due {
            return self.flush();
        }
        Ok(())
    }

    /// Adopt the `conv` value from the next `input` call.
    pub fn input_conv(&mut self)
        requires
            model::valid(old(self)@),
        ensures
            model::valid(final(self)@),
            final(self)@ == (State { input_conv: true, ..old(self)@ }),
    {
        self.input_conv = true;
        assert(self@ =~= State { input_conv: true, ..old(self)@ });
    }

    /// Whether this KCP is waiting to adopt a conversation ID from the next
    /// `input` call.
    pub fn waiting_conv(&self) -> (r: bool)
        ensures
            r == self@.input_conv,
    {
        self.input_conv
    }

    /// Set the conversation ID.
    pub fn set_conv(&mut self, conv: u32)
        requires
            model::valid(old(self)@),
        ensures
            model::valid(final(self)@),
            final(self)@ == (State { conv, ..old(self)@ }),
    {
        self.conv = conv;
        assert(self@ =~= State { conv, ..old(self)@ });
    }

    /// Get the conversation ID.
    pub fn conv(&self) -> (r: u32)
        ensures
            r == self@.conv,
    {
        self.conv
    }

    /// Change MTU size. Default is 1400.
    pub fn set_mtu(&mut self, mtu: usize) -> (r: Result<(), Error>)
        requires
            model::valid(old(self)@),
        ensures
            model::valid(final(self)@),
            mtu < 50 ==> r == Err::<(), Error>(Error::InvalidMtu(mtu)) && final(self)@ == old(self)@,
            mtu >= 50 ==> r is Ok && final(self)@ == (State {
                mtu,
                mss: (mtu - KCP_OVERHEAD) as usize,
                ..old(self)@
            }),
    {
        if mtu < 50 || mtu < KCP_OVERHEAD {
            return Err(Error::InvalidMtu(mtu));
        }
        self.mtu = mtu;
        self.mss = mtu - KCP_OVERHEAD;
        assert(self@ =~= State { mtu, mss: (mtu - KCP_OVERHEAD) as usize, ..old(self)@ });
        Ok(())
    }

    /// Get MTU.
    pub fn mtu(&self) -> (r: usize)
        ensures
            r == self@.mtu,
    {
        self.mtu
    }

    /// Set the flush interval (clamped to [10, 5000] ms).
    pub fn set_interval(&mut self, interval: u32)
        requires
            model::valid(old(self)@),
        ensures
            model::valid(final(self)@),
            final(self)@ == (State {
                interval: model::min(model::max(interval as int, 10), 5000) as u32,
                ..old(self)@
            }),
    {
        self.interval = bound(10, interval, 5000);
        assert(self@ =~= State {
            interval: model::min(model::max(interval as int, 10), 5000) as u32,
            ..old(self)@
        });
    }

    /// Set nodelay options.
    ///
    /// Fastest config: `nodelay(true, 20, 2, true)`.
    ///
    /// - `nodelay`: enable no-delay mode (min RTO = 30ms, linear RTO backoff).
    /// - `interval`: internal flush interval in ms (default 100ms).
    /// - `resend`: 0 = disable fast resend (default), otherwise threshold.
    /// - `nc`: disable congestion control.
    pub fn set_nodelay(&mut self, nodelay: bool, interval: i32, resend: i32, nc: bool)
        requires
            model::valid(old(self)@),
        ensures
            model::valid(final(self)@),
            final(self)@ == (State {
                nodelay,
                rx_minrto: if nodelay {
                    KCP_RTO_NDL
                } else {
                    KCP_RTO_MIN
                },
                interval: model::min(model::max(interval as int, 10), 5000) as u32,
                fastresend: if resend >= 0 {
                    resend as u32
                } else {
                    old(self)@.fastresend
                },
                nocwnd: nc,
                ..old(self)@
            }),
            final(self)@ == model::tuned(
                old(self)@,
                nodelay,
                interval as int,
                resend as int,
                nc,
            ),
    {
        self.nodelay = nodelay;
        self.rx_minrto = if nodelay {
            KCP_RTO_NDL
        } else {
            KCP_RTO_MIN
        };
        self.interval = if interval < 10 {
            10
        } else if interval > 5000 {
            5000
        } else {
            interval as u32
        };
        if resend >= 0 {
            self.fastresend = resend as u32;
        }
        self.nocwnd = nc;
        assert(self@ =~= State {
            nodelay,
            rx_minrto: if nodelay {
                KCP_RTO_NDL
            } else {
                KCP_RTO_MIN
            },
            interval: model::min(model::max(interval as int, 10), 5000) as u32,
            fastresend: if resend >= 0 {
                resend as u32
            } else {
                old(self)@.fastresend
            },
            nocwnd: nc,
            ..old(self)@
        });
    }

    /// Set maximum window sizes; 0 leaves a window as it is. The receive
    /// window is at least the maximum fragment count, and the send window is
    /// never closed.
    pub fn set_wndsize(&mut self, sndwnd: u16, rcvwnd: u16)
        requires
            model::valid(old(self)@),
        ensures
            model::valid(final(self)@),
            final(self)@.snd_wnd >= 1,
            final(self)@.rcv_wnd >= KCP_WND_RCV,
            final(self)@ == (State {
                snd_wnd: if sndwnd > 0 {
                    sndwnd
                } else {
                    old(self)@.snd_wnd
                },
                rcv_wnd: if rcvwnd > 0 {
                    model::max(rcvwnd as int, KCP_WND_RCV as int) as u16
                } else {
                    old(self)@.rcv_wnd
                },
                ..old(self)@
            }),
            final(self)@ == model::resized(old(self)@, sndwnd, rcvwnd),
    {
        if sndwnd > 0 {
            self.snd_wnd = sndwnd;
        }
        if rcvwnd > 0 {
            self.rcv_wnd = if rcvwnd < KCP_WND_RCV {
                KCP_WND_RCV
            } else {
                rcvwnd
            };
        }
        assert(self@ =~= State {
            snd_wnd: if sndwnd > 0 {
                sndwnd
            } else {
                old(self)@.snd_wnd
            },
            rcv_wnd: if rcvwnd > 0 {
                model::max(rcvwnd as int, KCP_WND_RCV as int) as u16
            } else {
                old(self)@.rcv_wnd
            },
            ..old(self)@
        });
    }

    /// Get the send window.
    pub fn snd_wnd(&self) -> (r: u16)
        ensures
            r == self@.snd_wnd,
    {
        self.snd_wnd
    }

    /// Get the receive window.
    pub fn rcv_wnd(&self) -> (r: u16)
        ensures
            r == self@.rcv_wnd,
    {
        self.rcv_wnd
    }

    /// How many packets are waiting to be sent (`snd_buf + snd_queue`).
    pub fn wait_snd(&self) -> (r: usize)
        ensures
            r == model::capped_sum(self@.snd_buf.len() as int, self@.snd_queue.len() as int),
    {
        self.snd_buf.len().saturating_add(self.snd_queue.len())
    }

    /// Get the remote window size.
    pub fn rmt_wnd(&self) -> (r: u16)
        ensures
            r == self@.rmt_wnd,
    {
        self.rmt_wnd
    }

    /// Set `rx_minrto`.
    pub fn set_rx_minrto(&mut self, rto: u32)
        requires
            model::valid(old(self)@),
        ensures
            model::valid(final(self)@),
            final(self)@ == (State { rx_minrto: rto, ..old(self)@ }),
    {
        self.rx_minrto = rto;
        assert(self@ =~= State { rx_minrto: rto, ..old(self)@ });
    }

    /// Set the fast-resend threshold.
    pub fn set_fast_resend(&mut self, fr: u32)
        requires
            model::valid(old(self)@),
        ensures
            model::valid(final(self)@),
            final(self)@ == (State { fastresend: fr, ..old(self)@ }),
    {
        self.fastresend = fr;
        assert(self@ =~= State { fastresend: fr, ..old(self)@ });
    }

    /// KCP header size.
    pub fn header_len() -> (r: usize)
        ensures
            r == KCP_OVERHEAD,
    {
        KCP_OVERHEAD
    }

    /// Whether stream mode is enabled.
    pub fn is_stream(&self) -> (r: bool)
        ensures
            r == self@.stream,
    {
        self.stream
    }

    /// Maximum segment size.
    pub fn mss(&self) -> (r: usize)
        ensures
            r == self@.mss,
    {
        self.mss
    }

    /// Set the maximum resend times before the link is considered dead.
    pub fn set_maximum_resend_times(&mut self, dead_link: u32)
        requires
            model::valid(old(self)@),
        ensures
            model::valid(final(self)@),
            final(self)@ == (State { dead_link, ..old(self)@ }),
    {
        self.dead_link = dead_link;
        assert(self@ =~= State { dead_link, ..old(self)@ });
    }

    /// Whether the connection is dead (retransmissions exceeded the limit).
    pub fn is_dead_link(&self) -> (r: bool)
        ensures
            r == self@.dead,
    {
        self.state != 0
    }

    /// Get a mutable reference to the output writer.
    pub fn output_mut(&mut self) -> (r: &mut KcpWriter)
        ensures
            r@ == old(self)@.packets,
            final(self)@ == (State { packets: final(r)@, ..old(self)@ }),
    {
        &mut self.output
    }
}

/// Taking the first segment off a queue, seen through its segments.
proof fn lemma_segments_first(q: Seq<KcpSegment>)
    requires
        q.len() > 0,
    ensures
        segments(q.subrange(1, q.len() as int)) == segments(q).drop_first(),
        segments(q)[0] == q[0]@,
{
    assert(segments(q.subrange(1, q.len() as int)) =~= segments(q).drop_first());
}

/// The last of the segments of `n` bytes reaches their end.
proof fn lemma_fragments_reach_end(n: int, mss: int, count: int)
    requires
        mss > 0,
        n >= 0,
        count == (if n <= mss {
            1
        } else {
            model::ceil_div(n, mss)
        }),
    ensures
        model::min(count * mss, n) == n,
{
    vstd::arithmetic::div_mod::lemma_fundamental_div_mod(n, mss);
    vstd::arithmetic::div_mod::lemma_mod_bound(n, mss);
    let q = n / mss;
    assert((q + 1) * mss == q * mss + mss && mss * q == q * mss) by (nonlinear_arith);
}

proof fn lemma_first_behind_at_least(b: Seq<Segment>, sn: u32, i: int)
    requires
        0 <= i <= b.len(),
    ensures
        model::first_behind(b, sn, i) >= i,
    decreases b.len() - i,
{
    if i < b.len() && model::difference(sn, b[i].sn) >= 0 {
        lemma_first_behind_at_least(b, sn, i + 1);
    }
}

/// A quotient by more than one leaves room to be rounded up.
proof fn lemma_quotient_below(n: int, m: int)
    requires
        0 <= n,
        26 <= m,
    ensures
        0 <= n / m <= n / 26,
{
    assert(0 <= n / m <= n / 26) by (nonlinear_arith)
        requires
            0 <= n,
            26 <= m,
    ;
}

/// The flags of a flush, one segment further.
proof fn lemma_some_next(b: Seq<Segment>, c: Round, i: int)
    requires
        0 <= i < b.len(),
    ensures
        model::some_fast(b.take(i + 1), c) == (model::some_fast(b.take(i), c) || model::resend_kind(
            b[i],
            c,
        ) is Fast || model::resend_kind(b[i], c) is Early),
        model::some_timeout(b.take(i + 1), c) == (model::some_timeout(b.take(i), c)
            || model::resend_kind(b[i], c) is Timeout),
{
    let x = b.take(i);
    let y = b.take(i + 1);
    assert(y[i] == b[i]);
    assert forall|k: int| 0 <= k < i implies #[trigger] x[k] == y[k] by {}
    if model::some_fast(x, c) {
        let k = choose|k: int|
            0 <= k < x.len() && (model::resend_kind(#[trigger] x[k], c) is Fast
                || model::resend_kind(x[k], c) is Early);
        assert(y[k] == x[k]);
    }
    if model::some_timeout(x, c) {
        let k = choose|k: int|
            0 <= k < x.len() && model::resend_kind(#[trigger] x[k], c) is Timeout;
        assert(y[k] == x[k]);
    }
    if model::some_fast(y, c) {
        let k = choose|k: int|
            0 <= k < y.len() && (model::resend_kind(#[trigger] y[k], c) is Fast
                || model::resend_kind(y[k], c) is Early);
        if k < i {
            assert(x[k] == y[k]);
        }
    }
    if model::some_timeout(y, c) {
        let k = choose|k: int|
            0 <= k < y.len() && model::resend_kind(#[trigger] y[k], c) is Timeout;
        if k < i {
            assert(x[k] == y[k]);
        }
    }
}

proof fn lemma_flattened_next(q: Seq<Segment>, i: int)
    requires
        0 <= i < q.len(),
    ensures
        model::flattened(q.take(i + 1)) == model::flattened(q.take(i)) + q[i].data,
{
    assert(q.take(i + 1).drop_last() =~= q.take(i));
}

proof fn lemma_flattened_prefix(q: Seq<Segment>, i: int, j: int)
    requires
        0 <= i <= j <= q.len(),
    ensures
        model::flattened(q.take(i)).len() <= model::flattened(q.take(j)).len(),
    decreases j - i,
{
    if i < j {
        lemma_flattened_next(q, j - 1);
        lemma_flattened_prefix(q, i, j - 1);
    }
}

/// Where the first `i` segments do not end a message, it ends behind them.
proof fn lemma_message_end(q: Seq<Segment>, i: int)
    requires
        0 <= i <= q.len(),
    ensures
        model::message_end(q) <= q.len(),
        (forall|j: int| 0 <= j < i ==> (#[trigger] q[j]).frg != 0) ==> model::message_end(q) == i
            + model::message_end(q.skip(i)),
        i > 0 && q[i - 1].frg == 0 && (forall|j: int| 0 <= j < i - 1 ==> (#[trigger] q[j]).frg != 0)
            ==> model::message_end(q) == i,
    decreases q.len(),
{
    if q.len() > 0 {
        let t = q.drop_first();
        if i > 0 {
            lemma_message_end(t, i - 1);
            assert(t.skip(i - 1) =~= q.skip(i));
            assert(forall|j: int| 0 <= j < t.len() ==> #[trigger] t[j] == q[j + 1]);
            if forall|j: int| 0 <= j < i ==> (#[trigger] q[j]).frg != 0 {
                assert forall|j: int| 0 <= j < i - 1 implies (#[trigger] t[j]).frg != 0 by {
                    assert(q[j + 1].frg != 0);
                }
                assert(q[0].frg != 0);
            }
            if i > 1 && q[i - 1].frg == 0 && (forall|j: int|
                0 <= j < i - 1 ==> (#[trigger] q[j]).frg != 0) {
                assert(t[i - 2].frg == 0);
                assert forall|j: int| 0 <= j < i - 2 implies (#[trigger] t[j]).frg != 0 by {
                    assert(q[j + 1].frg != 0);
                }
                assert(q[0].frg != 0);
            }
        } else {
            lemma_message_end(t, 0);
            assert(q.skip(0) =~= q);
        }
    } else {
        assert(q.skip(i) =~= q);
    }
}

} // verus!
