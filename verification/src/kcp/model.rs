//! The KCP state machine as mathematics: what each operation makes of a state.
use vstd::prelude::*;

use super::protocol::Error;
use crate::bytes;

verus! {

// ── protocol constants (must stay wire-compatible with kcp/kcp-go) ──────
/// No-delay minimum RTO (ms).
pub const KCP_RTO_NDL: u32 = 30;

/// Normal minimum RTO (ms).
pub const KCP_RTO_MIN: u32 = 100;

/// Default RTO (ms).
pub const KCP_RTO_DEF: u32 = 200;

/// Maximum RTO (ms).
pub const KCP_RTO_MAX: u32 = 60_000;

/// Cmd: push data.
pub const KCP_CMD_PUSH: u8 = 81;

/// Cmd: acknowledge.
pub const KCP_CMD_ACK: u8 = 82;

/// Cmd: window probe (ask).
pub const KCP_CMD_WASK: u8 = 83;

/// Cmd: window size (tell).
pub const KCP_CMD_WINS: u8 = 84;

/// Need to send `KCP_CMD_WASK`.
pub const KCP_ASK_SEND: u32 = 1;

/// Need to send `KCP_CMD_WINS`.
pub const KCP_ASK_TELL: u32 = 2;

/// Default send window.
pub const KCP_WND_SND: u16 = 32;

/// Default receive window; must be >= max fragment count.
pub const KCP_WND_RCV: u16 = 128;

/// Default MTU.
pub const KCP_MTU_DEF: usize = 1400;

/// Default flush interval (ms).
pub const KCP_INTERVAL: u32 = 100;

/// KCP header size (bytes).
pub const KCP_OVERHEAD: usize = 24;

/// Retransmission limit before the link is marked dead.
pub const KCP_DEADLINK: u32 = 20;

/// Initial congestion threshold.
pub const KCP_THRESH_INIT: u16 = 2;

/// Minimum congestion threshold.
pub const KCP_THRESH_MIN: u16 = 2;

/// First window probe delay (ms).
pub const KCP_PROBE_INIT: u32 = 7000;

/// Maximum window probe delay (ms).
pub const KCP_PROBE_LIMIT: u32 = 120_000;

/// Maximum fast-ack count before a segment is always retransmitted.
pub const KCP_FASTACK_LIMIT: u32 = 5;

// ── arithmetic modulo 2^32 ──────────────────────────────────────────────

/// `a + b` modulo 2^32.
pub open spec fn plus(a: u32, b: int) -> u32 {
    ((a + b) % 0x1_0000_0000) as u32
}

/// How far `a` is ahead of `b`, counting upwards modulo 2^32.
pub open spec fn ahead(a: u32, b: u32) -> int {
    (a - b) % 0x1_0000_0000
}

/// Signed difference with u32 wraparound: the representative of `later -
/// earlier` modulo 2^32 in `-2^31 .. 2^31`.
pub open spec fn difference(later: u32, earlier: u32) -> int {
    if ahead(later, earlier) < 0x8000_0000 {
        ahead(later, earlier)
    } else {
        ahead(later, earlier) - 0x1_0000_0000
    }
}

/// `a * b`, at most `usize::MAX`.
pub open spec fn capped_product(a: int, b: int) -> usize {
    if a * b <= usize::MAX {
        (a * b) as usize
    } else {
        usize::MAX
    }
}

/// `a + b`, at most `usize::MAX`.
pub open spec fn capped_sum(a: int, b: int) -> usize {
    if a + b <= usize::MAX {
        (a + b) as usize
    } else {
        usize::MAX
    }
}

pub open spec fn ceil_div(a: int, b: int) -> int {
    if a % b == 0 {
        a / b
    } else {
        a / b + 1
    }
}

pub open spec fn min(a: int, b: int) -> int {
    if a <= b {
        a
    } else {
        b
    }
}

pub open spec fn max(a: int, b: int) -> int {
    if a <= b {
        b
    } else {
        a
    }
}

// ── segments ────────────────────────────────────────────────────────────

/// A segment: its header fields, its retransmission state, its payload.
#[verifier::ext_equal]
pub struct Segment {
    pub conv: u32,
    pub cmd: u8,
    pub frg: u8,
    pub wnd: u16,
    pub ts: u32,
    pub sn: u32,
    pub una: u32,
    pub resendts: u32,
    pub rto: u32,
    pub fastack: u32,
    pub xmit: u32,
    pub data: Seq<u8>,
}

/// A segment that holds `data` and is zero otherwise.
pub open spec fn segment_of(data: Seq<u8>) -> Segment {
    Segment {
        conv: 0,
        cmd: 0,
        frg: 0,
        wnd: 0,
        ts: 0,
        sn: 0,
        una: 0,
        resendts: 0,
        rto: 0,
        fastack: 0,
        xmit: 0,
        data,
    }
}

/// The wire form of a segment: a 24-byte little-endian header
/// `conv u32 | cmd u8 | frg u8 | wnd u16 | ts u32 | sn u32 | una u32 | len u32`,
/// then the payload.
pub open spec fn encoded(g: Segment) -> Seq<u8> {
    bytes::le32(g.conv) + seq![g.cmd, g.frg] + bytes::le16(g.wnd) + bytes::le32(g.ts) + bytes::le32(g.sn) + bytes::le32(g.una) + bytes::le32(
        (g.data.len() % 0x1_0000_0000) as u32,
    ) + g.data
}

/// The segment whose header stands at `i`, with the `len` bytes behind it as
/// its payload.
pub open spec fn header_at(s: Seq<u8>, i: int, len: nat) -> Segment {
    Segment {
        conv: bytes::le32_at(s, i),
        cmd: s[i + 4],
        frg: s[i + 5],
        wnd: bytes::le16_at(s, i + 6),
        ts: bytes::le32_at(s, i + 8),
        sn: bytes::le32_at(s, i + 12),
        una: bytes::le32_at(s, i + 16),
        resendts: 0,
        rto: 0,
        fastack: 0,
        xmit: 0,
        data: s.subrange(i + 24, i + 24 + len),
    }
}

// ── states ──────────────────────────────────────────────────────────────

/// The state of a KCP control object.
#[verifier::ext_equal]
pub struct State {
    pub conv: u32,
    pub mtu: usize,
    pub mss: usize,
    pub dead: bool,
    pub snd_una: u32,
    pub snd_nxt: u32,
    pub rcv_nxt: u32,
    pub ssthresh: u16,
    pub rx_rttval: u32,
    pub rx_srtt: u32,
    pub rx_rto: u32,
    pub rx_minrto: u32,
    pub snd_wnd: u16,
    pub rcv_wnd: u16,
    pub rmt_wnd: u16,
    pub cwnd: u16,
    pub probe: u32,
    pub current: u32,
    pub interval: u32,
    pub ts_flush: u32,
    pub xmit: u32,
    pub nodelay: bool,
    pub updated: bool,
    pub ts_probe: u32,
    pub probe_wait: u32,
    pub dead_link: u32,
    pub incr: usize,
    pub snd_queue: Seq<Segment>,
    pub rcv_queue: Seq<Segment>,
    pub snd_buf: Seq<Segment>,
    pub rcv_buf: Seq<Segment>,
    pub acklist: Seq<(u32, u32)>,
    pub buf: Seq<u8>,
    pub fastresend: u32,
    pub fastlimit: u32,
    pub nocwnd: bool,
    pub stream: bool,
    pub input_conv: bool,
    pub packets: Seq<Seq<u8>>,
}

/// The state of a fresh control object.
pub open spec fn initial(conv: u32, stream: bool, packets: Seq<Seq<u8>>) -> State {
    State {
        conv,
        mtu: KCP_MTU_DEF,
        mss: (KCP_MTU_DEF - KCP_OVERHEAD) as usize,
        dead: false,
        snd_una: 0,
        snd_nxt: 0,
        rcv_nxt: 0,
        ssthresh: KCP_THRESH_INIT,
        rx_rttval: 0,
        rx_srtt: 0,
        rx_rto: KCP_RTO_DEF,
        rx_minrto: KCP_RTO_MIN,
        snd_wnd: KCP_WND_SND,
        rcv_wnd: KCP_WND_RCV,
        rmt_wnd: KCP_WND_RCV,
        cwnd: 0,
        probe: 0,
        current: 0,
        interval: KCP_INTERVAL,
        ts_flush: KCP_INTERVAL,
        xmit: 0,
        nodelay: false,
        updated: false,
        ts_probe: 0,
        probe_wait: 0,
        dead_link: KCP_DEADLINK,
        incr: 0,
        snd_queue: Seq::empty(),
        rcv_queue: Seq::empty(),
        snd_buf: Seq::empty(),
        rcv_buf: Seq::empty(),
        acklist: Seq::empty(),
        buf: Seq::empty(),
        fastresend: 0,
        fastlimit: KCP_FASTACK_LIMIT,
        nocwnd: false,
        stream,
        input_conv: false,
        packets,
    }
}

/// The segments of `rcv_buf` lie ahead of `rcv_nxt` by strictly growing
/// distances below 2^16, so none occurs twice.
pub open spec fn receive_buffer_ordered(s: State) -> bool {
    &&& forall|i: int|
        0 <= i < s.rcv_buf.len() ==> ahead((#[trigger] s.rcv_buf[i]).sn, s.rcv_nxt) < 0x1_0000
    &&& forall|i: int, j: int|
        0 <= i < j < s.rcv_buf.len() ==> ahead((#[trigger] s.rcv_buf[i]).sn, s.rcv_nxt) < ahead(
            (#[trigger] s.rcv_buf[j]).sn,
            s.rcv_nxt,
        )
}

/// The segments of `rcv_queue` carry the sequence numbers just before
/// `rcv_nxt`, one after the other.
pub open spec fn receive_queue_in_order(s: State) -> bool {
    forall|i: int|
        0 <= i < s.rcv_queue.len() ==> (#[trigger] s.rcv_queue[i]).sn == plus(
            s.rcv_nxt,
            i - s.rcv_queue.len(),
        )
}

/// The segments of `snd_buf` lie in the window from `snd_una` to `snd_nxt`, by
/// strictly growing distances; `snd_una` is the first of them, or `snd_nxt`.
pub open spec fn send_buffer_ordered(s: State) -> bool {
    &&& ahead(s.snd_nxt, s.snd_una) < 0x1_0000
    &&& s.snd_buf.len() == 0 ==> s.snd_una == s.snd_nxt
    &&& s.snd_buf.len() > 0 ==> s.snd_buf[0].sn == s.snd_una
    &&& forall|i: int|
        0 <= i < s.snd_buf.len() ==> ahead((#[trigger] s.snd_buf[i]).sn, s.snd_una) < ahead(
            s.snd_nxt,
            s.snd_una,
        )
    &&& forall|i: int, j: int|
        0 <= i < j < s.snd_buf.len() ==> ahead((#[trigger] s.snd_buf[i]).sn, s.snd_una) < ahead(
            (#[trigger] s.snd_buf[j]).sn,
            s.snd_una,
        )
}

/// What holds of every state that the operations lead to.
pub open spec fn valid(s: State) -> bool {
    &&& s.mtu >= 50
    &&& s.mss == s.mtu - KCP_OVERHEAD
    &&& 10 <= s.interval <= 5000
    &&& s.probe_wait <= KCP_PROBE_LIMIT
    &&& s.snd_wnd >= 1
    &&& s.rcv_wnd >= KCP_WND_RCV
    &&& s.rcv_queue.len() <= 0xFFFF
    &&& forall|i: int|
        0 <= i < s.rcv_queue.len() ==> (#[trigger] s.rcv_queue[i]).data.len() <= u32::MAX
    &&& forall|i: int| 0 <= i < s.rcv_buf.len() ==> (#[trigger] s.rcv_buf[i]).data.len() <= u32::MAX
    &&& receive_buffer_ordered(s)
    &&& receive_queue_in_order(s)
    &&& send_buffer_ordered(s)
}

// ── receiving ───────────────────────────────────────────────────────────

/// Whether the first buffered segment can move into the queue.
pub open spec fn first_is_ready(s: State) -> bool {
    s.rcv_buf.len() > 0 && s.rcv_buf[0].sn == s.rcv_nxt && s.rcv_queue.len() < s.rcv_wnd
}

/// The segments that are next in order, as far as the window goes, moved from
/// `rcv_buf` into `rcv_queue`.
pub open spec fn moved(s: State) -> State
    decreases s.rcv_buf.len(),
{
    if first_is_ready(s) {
        moved(
            State {
                rcv_buf: s.rcv_buf.drop_first(),
                rcv_queue: s.rcv_queue.push(s.rcv_buf[0]),
                rcv_nxt: plus(s.rcv_nxt, 1),
                ..s
            },
        )
    } else {
        s
    }
}

/// How many segments the first message spans: up to the first with `frg` 0.
pub open spec fn message_end(q: Seq<Segment>) -> nat
    decreases q.len(),
{
    if q.len() == 0 {
        0
    } else if q[0].frg == 0 {
        1
    } else {
        1 + message_end(q.drop_first())
    }
}

/// The payloads of `q`, one behind the other.
pub open spec fn flattened(q: Seq<Segment>) -> Seq<u8>
    decreases q.len(),
{
    if q.len() == 0 {
        Seq::empty()
    } else {
        flattened(q.drop_last()) + q.last().data
    }
}

/// The first message of `q`.
pub open spec fn message(q: Seq<Segment>) -> Seq<u8> {
    flattened(q.take(message_end(q) as int))
}

/// Why the first message of `q` cannot be received, if it cannot.
pub open spec fn receive_error(q: Seq<Segment>) -> Option<Error> {
    if q.len() == 0 {
        Some(Error::RecvQueueEmpty)
    } else if q.len() < q[0].frg + 1 {
        Some(Error::ExpectingFragment)
    } else {
        None
    }
}

/// The state after the first message was taken: the queue refilled, and the
/// peer to be told the window where it was full and no longer is.
pub open spec fn received(s: State) -> State {
    let t = moved(
        State { rcv_queue: s.rcv_queue.skip(message_end(s.rcv_queue) as int), ..s },
    );
    if t.rcv_queue.len() < t.rcv_wnd && s.rcv_queue.len() >= s.rcv_wnd {
        State { probe: t.probe | KCP_ASK_TELL, ..t }
    } else {
        t
    }
}

// ── sending ─────────────────────────────────────────────────────────────

/// Bytes of `data` that still fit into the last queued segment.
pub open spec fn merged_len(s: State, data: Seq<u8>) -> int {
    if s.stream && s.snd_queue.len() > 0 && s.snd_queue.last().data.len() < s.mss {
        min(data.len() as int, s.mss - s.snd_queue.last().data.len())
    } else {
        0
    }
}

/// In stream mode, `data` appended to the last queued segment as far as it fits.
pub open spec fn merged(s: State, data: Seq<u8>) -> State {
    if s.stream && s.snd_queue.len() > 0 && s.snd_queue.last().data.len() < s.mss {
        let old = s.snd_queue.last();
        State {
            snd_queue: s.snd_queue.update(
                s.snd_queue.len() - 1,
                Segment { data: old.data + data.take(merged_len(s, data)), frg: 0, ..old },
            ),
            ..s
        }
    } else {
        s
    }
}

/// How many segments `n` bytes take.
pub open spec fn fragment_count(n: nat, mss: usize) -> int {
    if n <= mss {
        1
    } else {
        ceil_div(n as int, mss as int)
    }
}

/// Segment `i` of `data`: its `i`-th run of `mss` bytes, with the number of
/// segments that follow it in `frg` (0 in stream mode).
pub open spec fn fragment(data: Seq<u8>, mss: usize, stream: bool, i: int) -> Segment {
    Segment {
        frg: if stream {
            0
        } else {
            (fragment_count(data.len(), mss) - 1 - i) as u8
        },
        ..segment_of(
            data.subrange(
                min(i * mss, data.len() as int),
                min((i + 1) * mss, data.len() as int),
            ),
        )
    }
}

/// The segments of `data`.
pub open spec fn fragments(data: Seq<u8>, mss: usize, stream: bool) -> Seq<Segment> {
    Seq::new(
        fragment_count(data.len(), mss) as nat,
        |i: int| fragment(data, mss, stream, i),
    )
}

/// What `send` leaves in the queue, and whether it takes the data.
pub open spec fn sent(s: State, data: Seq<u8>) -> (State, bool) {
    let t = merged(s, data);
    let rest = data.skip(merged_len(s, data));
    if s.stream && rest.len() == 0 {
        (t, true)
    } else if fragment_count(rest.len(), s.mss) >= KCP_WND_RCV {
        (t, false)
    } else {
        (State { snd_queue: t.snd_queue + fragments(rest, s.mss, s.stream), ..t }, true)
    }
}

// ── acknowledgements ────────────────────────────────────────────────────

/// RFC 6298-style RTT smoothing.
pub open spec fn smoothed(s: State, rtt: int) -> State {
    let (srtt, rttval) = if s.rx_srtt == 0 {
        (rtt, rtt / 2)
    } else {
        let delta = if rtt < s.rx_srtt {
            s.rx_srtt - rtt
        } else {
            rtt - s.rx_srtt
        };
        (max((7 * s.rx_srtt + rtt) / 8, 1), (3 * s.rx_rttval + delta) / 4)
    };
    let rto = srtt + max(s.interval as int, 4 * rttval);
    State {
        rx_srtt: srtt as u32,
        rx_rttval: rttval as u32,
        rx_rto: min(max(s.rx_minrto as int, rto), KCP_RTO_MAX as int) as u32,
        ..s
    }
}

/// `snd_una` set to the first unacknowledged segment.
pub open spec fn shrunk(s: State) -> State {
    State {
        snd_una: if s.snd_buf.len() > 0 {
            s.snd_buf[0].sn
        } else {
            s.snd_nxt
        },
        ..s
    }
}

/// `b` without the segments before `una` that it starts with.
pub open spec fn from_una(b: Seq<Segment>, una: u32) -> Seq<Segment>
    decreases b.len(),
{
    if b.len() > 0 && difference(una, b[0].sn) > 0 {
        from_una(b.drop_first(), una)
    } else {
        b
    }
}

/// The first index from `i` on at which `b` has a sequence number not below `sn`.
pub open spec fn first_not_below(b: Seq<Segment>, sn: u32, i: int) -> int
    decreases b.len() - i,
{
    if i >= b.len() || b[i].sn >= sn {
        i
    } else {
        first_not_below(b, sn, i + 1)
    }
}

/// Whether `sn` is in flight.
pub open spec fn in_flight(s: State, sn: u32) -> bool {
    difference(sn, s.snd_una) >= 0 && difference(sn, s.snd_nxt) < 0
}

/// The segment `sn` taken out of the send buffer.
pub open spec fn acknowledged(s: State, sn: u32) -> State {
    let i = first_not_below(s.snd_buf, sn, 0);
    if in_flight(s, sn) && i < s.snd_buf.len() && s.snd_buf[i].sn == sn {
        State { snd_buf: s.snd_buf.remove(i), ..s }
    } else {
        s
    }
}

/// The first index from `i` on at which `b` lies behind `sn`.
pub open spec fn first_behind(b: Seq<Segment>, sn: u32, i: int) -> int
    decreases b.len() - i,
{
    if i >= b.len() || difference(sn, b[i].sn) < 0 {
        i
    } else {
        first_behind(b, sn, i + 1)
    }
}

/// The segments sent before the one that `sn` and `ts` acknowledge counted as
/// skipped once more.
pub open spec fn skipped(s: State, sn: u32, ts: u32) -> State {
    if in_flight(s, sn) {
        let b = s.snd_buf;
        let n = first_behind(b, sn, 0);
        State {
            snd_buf: Seq::new(
                b.len(),
                |i: int|
                    if i < n && b[i].sn != sn && difference(ts, b[i].ts) >= 0 {
                        Segment { fastack: plus(b[i].fastack, 1), ..b[i] }
                    } else {
                        b[i]
                    },
            ),
            ..s
        }
    } else {
        s
    }
}

// ── input ───────────────────────────────────────────────────────────────

/// Where among the first `i` segments of `b` the segment `sn` belongs; `None`
/// where it is there already.
pub open spec fn place(b: Seq<Segment>, sn: u32, i: int) -> Option<int>
    decreases i,
{
    if i <= 0 {
        Some(0)
    } else if b[i - 1].sn == sn {
        None
    } else if difference(sn, b[i - 1].sn) > 0 {
        Some(i)
    } else {
        place(b, sn, i - 1)
    }
}

/// Whether `sn` lies in the receive window.
pub open spec fn in_window(s: State, sn: u32) -> bool {
    difference(sn, plus(s.rcv_nxt, s.rcv_wnd as int)) < 0 && difference(sn, s.rcv_nxt) >= 0
}

/// The segment put in its place in the receive buffer, unless it is there or
/// outside the window, and what is ready moved on.
pub open spec fn stored(s: State, g: Segment) -> State {
    if in_window(s, g.sn) {
        moved(
            match place(s.rcv_buf, g.sn, s.rcv_buf.len() as int) {
                Some(i) => State { rcv_buf: s.rcv_buf.insert(i, g), ..s },
                None => s,
            },
        )
    } else {
        s
    }
}

/// The acknowledgement with the highest sequence number in a datagram.
#[derive(Clone, Copy)]
pub struct Acks {
    pub flag: bool,
    pub max_ack: u32,
    pub latest_ts: u32,
}

pub open spec fn noted(a: Acks, sn: u32, ts: u32) -> Acks {
    if !a.flag || (difference(sn, a.max_ack) > 0 && difference(ts, a.latest_ts) > 0) {
        Acks { flag: true, max_ack: sn, latest_ts: ts }
    } else {
        a
    }
}

/// What one segment of a datagram leads to.
pub enum Step {
    Fail(State, Error),
    Next(State, Acks, int),
}

/// The command of a segment carried out, the sender's window and `una` noted.
pub open spec fn command_step(s: State, a: Acks, g: Segment) -> Result<(State, Acks), (State, Error)> {
    if g.cmd == KCP_CMD_ACK {
        let rtt = difference(s.current, g.ts);
        let t = if rtt >= 0 {
            smoothed(s, rtt)
        } else {
            s
        };
        Ok((shrunk(acknowledged(t, g.sn)), noted(a, g.sn, g.ts)))
    } else if g.cmd == KCP_CMD_PUSH {
        if difference(g.sn, plus(s.rcv_nxt, s.rcv_wnd as int)) < 0 {
            let t = State { acklist: s.acklist.push((g.sn, g.ts)), ..s };
            if difference(g.sn, s.rcv_nxt) < 0 {
                Ok((t, a))
            } else if g.data.len() > s.mss {
                Err((t, Error::InvalidSegmentDataSize(s.mss, g.data.len() as usize)))
            } else {
                Ok((stored(t, g), a))
            }
        } else {
            Ok((s, a))
        }
    } else if g.cmd == KCP_CMD_WASK {
        Ok((State { probe: s.probe | KCP_ASK_TELL, ..s }, a))
    } else {
        Ok((s, a))
    }
}

/// The segment at `pos` of the datagram `d` taken in.
#[verifier::opaque]
pub open spec fn input_step(s0: State, a: Acks, d: Seq<u8>, pos: int) -> Step {
    let conv = bytes::le32_at(d, pos);
    if conv != s0.conv && !s0.input_conv {
        Step::Fail(s0, Error::ConvInconsistent(s0.conv, conv))
    } else {
        let s1 = if conv != s0.conv {
            State { conv, input_conv: false, ..s0 }
        } else {
            s0
        };
        let len = bytes::le32_at(d, pos + 20);
        let left = d.len() - pos - KCP_OVERHEAD;
        if left < len {
            Step::Fail(s1, Error::InvalidSegmentDataSize(len as usize, left as usize))
        } else {
            let g = header_at(d, pos, len as nat);
            let next = pos + KCP_OVERHEAD + len;
            if !(g.cmd == KCP_CMD_PUSH || g.cmd == KCP_CMD_ACK || g.cmd == KCP_CMD_WASK || g.cmd
                == KCP_CMD_WINS) {
                Step::Fail(s1, Error::UnsupportedCmd(g.cmd))
            } else {
                let s2 = shrunk(
                    State { rmt_wnd: g.wnd, snd_buf: from_una(s1.snd_buf, g.una), ..s1 },
                );
                match command_step(s2, a, g) {
                    Ok((t, b)) => Step::Next(t, b, next),
                    Err((t, e)) => Step::Fail(t, e),
                }
            }
        }
    }
}

/// Congestion window growth (slow start / congestion avoidance) after new data
/// was acknowledged.
pub open spec fn grown(s: State, old_una: u32) -> State {
    if difference(s.snd_una, old_una) > 0 && s.cwnd < s.rmt_wnd {
        let (cwnd, incr) = if s.cwnd < s.ssthresh {
            ((s.cwnd + 1) as u16, capped_sum(s.incr as int, s.mss as int))
        } else {
            let base = max(s.incr as int, s.mss as int);
            let incr = capped_sum(base, (s.mss * s.mss) / base + s.mss / 16);
            if (s.cwnd + 1) * s.mss <= incr {
                ((ceil_div(incr as int, s.mss as int) % 0x1_0000) as u16, incr)
            } else {
                (s.cwnd, incr)
            }
        };
        if cwnd > s.rmt_wnd {
            State {
                cwnd: s.rmt_wnd,
                incr: capped_product(s.rmt_wnd as int, s.mss as int),
                ..s
            }
        } else {
            State { cwnd, incr, ..s }
        }
    } else {
        s
    }
}

/// The rest of a datagram from `pos` on taken in: the state, and the number of
/// bytes consumed or the error that stopped it.
pub open spec fn input_from(s: State, a: Acks, d: Seq<u8>, pos: int, old_una: u32) -> (
    State,
    Result<int, Error>,
)
    decreases d.len() - pos,
{
    if d.len() - pos >= KCP_OVERHEAD {
        match input_step(s, a, d, pos) {
            Step::Fail(t, e) => (t, Err(e)),
            Step::Next(t, b, next) => if next <= pos || next > d.len() {
                (t, Ok(next))
            } else {
                input_from(t, b, d, next, old_una)
            },
        }
    } else {
        let t = if a.flag {
            skipped(s, a.max_ack, a.latest_ts)
        } else {
            s
        };
        (grown(t, old_una), Ok(pos))
    }
}

/// A datagram taken in.
pub open spec fn input_all(s: State, d: Seq<u8>) -> (State, Result<int, Error>) {
    if d.len() < KCP_OVERHEAD {
        (s, Err(Error::InvalidSegmentSize(d.len() as usize)))
    } else {
        input_from(s, Acks { flag: false, max_ack: 0, latest_ts: 0 }, d, 0, s.snd_una)
    }
}

// ── output ──────────────────────────────────────────────────────────────

/// Free places in the receive queue.
pub open spec fn unused_window(s: State) -> u16 {
    if s.rcv_queue.len() < s.rcv_wnd {
        (s.rcv_wnd - s.rcv_queue.len()) as u16
    } else {
        0
    }
}

/// The output buffer handed out as one packet, if there is anything in it.
pub open spec fn pushed_out(s: State) -> State {
    if s.buf.len() > 0 {
        State { packets: s.packets.push(s.buf), buf: Seq::empty(), ..s }
    } else {
        s
    }
}

/// A segment added to the output buffer, which is handed out first where the
/// segment no longer fits into the MTU.
pub open spec fn emitted(s: State, g: Segment) -> State {
    let t = if s.buf.len() + KCP_OVERHEAD + g.data.len() > s.mtu {
        pushed_out(s)
    } else {
        s
    };
    State { buf: t.buf + encoded(g), ..t }
}

/// The header that acknowledgements and probes are sent with.
pub open spec fn control_segment(s: State) -> Segment {
    Segment {
        conv: s.conv,
        cmd: KCP_CMD_ACK,
        wnd: unused_window(s),
        una: s.rcv_nxt,
        ..segment_of(Seq::empty())
    }
}

/// The header with the acknowledgement in it.
pub open spec fn ack_segment(g: Segment, ack: (u32, u32)) -> Segment {
    Segment { sn: ack.0, ts: ack.1, ..g }
}

/// The first `n` pending acknowledgements emitted.
pub open spec fn acks_emitted(s: State, g: Segment, n: nat) -> State
    decreases n,
{
    if n == 0 {
        s
    } else {
        emitted(acks_emitted(s, g, (n - 1) as nat), ack_segment(g, s.acklist[n - 1]))
    }
}

/// All pending acknowledgements emitted.
pub open spec fn acks_flushed(s: State) -> State {
    State {
        acklist: Seq::empty(),
        ..acks_emitted(s, control_segment(s), s.acklist.len())
    }
}

/// The header as the last acknowledgement left it.
pub open spec fn last_header(s: State) -> Segment {
    if s.acklist.len() > 0 {
        ack_segment(control_segment(s), s.acklist.last())
    } else {
        control_segment(s)
    }
}

/// Exponential-backoff window probing while the remote window is zero.
pub open spec fn probe_scheduled(s: State) -> State {
    if s.rmt_wnd != 0 {
        State { ts_probe: 0, probe_wait: 0, ..s }
    } else if s.probe_wait == 0 {
        State {
            probe_wait: KCP_PROBE_INIT,
            ts_probe: plus(s.current, KCP_PROBE_INIT as int),
            ..s
        }
    } else if difference(s.current, s.ts_probe) >= 0 {
        let base = max(s.probe_wait as int, KCP_PROBE_INIT as int);
        let wait = min(base + base / 2, KCP_PROBE_LIMIT as int) as u32;
        State {
            probe_wait: wait,
            ts_probe: plus(s.current, wait as int),
            probe: s.probe | KCP_ASK_SEND,
            ..s
        }
    } else {
        s
    }
}

/// The window probing commands that are due emitted.
pub open spec fn probes_flushed(s: State, g: Segment) -> State {
    let t = if s.probe & KCP_ASK_SEND != 0 {
        emitted(s, Segment { cmd: KCP_CMD_WASK, ..g })
    } else {
        s
    };
    let u = if s.probe & KCP_ASK_TELL != 0 {
        emitted(t, Segment { cmd: KCP_CMD_WINS, ..g })
    } else {
        t
    };
    State { probe: 0, ..u }
}

/// The effective congestion window.
pub open spec fn effective_window(s: State) -> u16 {
    let w = min(s.snd_wnd as int, s.rmt_wnd as int);
    (if s.nocwnd {
        w
    } else {
        min(s.cwnd as int, w)
    }) as u16
}

/// A queued segment given the next sequence number.
pub open spec fn numbered(s: State, g: Segment, wnd: u16) -> Segment {
    Segment {
        conv: s.conv,
        cmd: KCP_CMD_PUSH,
        wnd,
        ts: s.current,
        sn: s.snd_nxt,
        una: s.rcv_nxt,
        resendts: s.current,
        rto: s.rx_rto,
        fastack: 0,
        xmit: 0,
        ..g
    }
}

/// Queued segments moved into the send buffer as far as the window goes.
pub open spec fn admitted(s: State, cwnd: u16, wnd: u16) -> State
    decreases s.snd_queue.len(),
{
    if difference(s.snd_nxt, plus(s.snd_una, cwnd as int)) < 0 && s.snd_queue.len() > 0 {
        admitted(
            State {
                snd_queue: s.snd_queue.drop_first(),
                snd_buf: s.snd_buf.push(numbered(s, s.snd_queue[0], wnd)),
                snd_nxt: plus(s.snd_nxt, 1),
                ..s
            },
            cwnd,
            wnd,
        )
    } else {
        s
    }
}

/// Why a segment of the send buffer is sent in a flush, if it is.
pub enum Resend {
    Not,
    Initial,
    Fast,
    Early,
    Timeout,
}

/// The circumstances of a flush that decide on each segment.
pub struct Round {
    pub current: u32,
    pub rx_rto: u32,
    /// Fast-resend threshold.
    pub resent: u32,
    pub fastlimit: u32,
    /// Whether this flush moved segments into the send buffer.
    pub fresh: bool,
    pub nodelay: bool,
    pub wnd: u16,
    pub una: u32,
    pub dead_link: u32,
}

/// The order is that of kcp-go: initial, fast retransmit, early retransmit, RTO.
/// A segment that was fast retransmitted up to the limit is left to RTO.
pub open spec fn resend_kind(g: Segment, c: Round) -> Resend {
    if g.xmit == 0 {
        Resend::Initial
    } else if g.fastack >= c.resent {
        if g.xmit <= c.fastlimit || c.fastlimit == 0 {
            Resend::Fast
        } else if difference(c.current, g.resendts) >= 0 {
            Resend::Timeout
        } else {
            Resend::Not
        }
    } else if g.fastack > 0 && !c.fresh {
        Resend::Early
    } else if difference(c.current, g.resendts) >= 0 {
        Resend::Timeout
    } else {
        Resend::Not
    }
}

/// The retransmission timeout of a segment after it is sent.
pub open spec fn next_rto(g: Segment, c: Round) -> u32 {
    if resend_kind(g, c) is Timeout {
        if c.nodelay {
            plus(g.rto, (c.rx_rto / 2) as int)
        } else {
            plus(g.rto, max(g.rto as int, c.rx_rto as int))
        }
    } else {
        c.rx_rto
    }
}

/// A segment of the send buffer after a flush.
pub open spec fn after_round(g: Segment, c: Round) -> Segment {
    if resend_kind(g, c) is Not {
        g
    } else {
        Segment {
            xmit: plus(g.xmit, 1),
            rto: next_rto(g, c),
            resendts: plus(
                c.current,
                next_rto(g, c) + if resend_kind(g, c) is Initial && !c.nodelay {
                    (c.rx_rto / 8) as int
                } else {
                    0
                },
            ),
            fastack: if resend_kind(g, c) is Initial {
                g.fastack
            } else {
                0
            },
            ts: c.current,
            wnd: c.wnd,
            una: c.una,
            ..g
        }
    }
}

/// A segment of the send buffer sent where it is due; the buffer itself aside.
pub open spec fn sent_one(t: State, g: Segment, c: Round) -> State {
    if resend_kind(g, c) is Not {
        t
    } else {
        let h = after_round(g, c);
        emitted(
            State {
                xmit: if resend_kind(g, c) is Timeout {
                    plus(t.xmit, 1)
                } else {
                    t.xmit
                },
                dead: t.dead || h.xmit >= c.dead_link,
                ..t
            },
            h,
        )
    }
}

/// The first `n` segments of the send buffer gone through.
pub open spec fn transmitted(s: State, c: Round, n: nat) -> State
    decreases n,
{
    if n == 0 {
        s
    } else {
        let t = transmitted(s, c, (n - 1) as nat);
        let g = s.snd_buf[n - 1];
        sent_one(State { snd_buf: t.snd_buf.update(n - 1, after_round(g, c)), ..t }, g, c)
    }
}

/// Whether some segment of `b` is retransmitted before its timeout.
pub open spec fn some_fast(b: Seq<Segment>, c: Round) -> bool {
    exists|i: int|
        0 <= i < b.len() && (resend_kind(#[trigger] b[i], c) is Fast || resend_kind(
            b[i],
            c,
        ) is Early)
}

/// Whether some segment of `b` timed out.
pub open spec fn some_timeout(b: Seq<Segment>, c: Round) -> bool {
    exists|i: int| 0 <= i < b.len() && resend_kind(#[trigger] b[i], c) is Timeout
}

/// The congestion window after a flush.
pub open spec fn adjusted(s: State, fast: bool, lost: bool, cwnd: u16, resent: u32) -> State {
    let t = if fast {
        let ssthresh = max(
            (ahead(s.snd_nxt, s.snd_una) % 0x1_0000) / 2,
            KCP_THRESH_MIN as int,
        );
        let w = ((ssthresh + resent % 0x1_0000) % 0x1_0000) as u16;
        State {
            ssthresh: ssthresh as u16,
            cwnd: w,
            incr: capped_product(w as int, s.mss as int),
            ..s
        }
    } else {
        s
    };
    let u = if lost {
        State {
            ssthresh: max((cwnd / 2) as int, KCP_THRESH_MIN as int) as u16,
            cwnd: 1,
            incr: s.mss,
            ..t
        }
    } else {
        t
    };
    if u.cwnd < 1 {
        State { cwnd: 1, incr: s.mss, ..u }
    } else {
        u
    }
}

/// Acknowledgements and probes emitted, and queued segments admitted.
pub open spec fn prepared(s: State) -> State {
    let t = probes_flushed(probe_scheduled(acks_flushed(s)), last_header(s));
    admitted(t, effective_window(t), unused_window(s))
}

/// The circumstances of a flush of `s`.
pub open spec fn round_of(s: State) -> Round {
    let t = prepared(s);
    Round {
        current: s.current,
        rx_rto: s.rx_rto,
        resent: if s.fastresend > 0 {
            s.fastresend
        } else {
            u32::MAX
        },
        fastlimit: s.fastlimit,
        fresh: t.snd_buf.len() > s.snd_buf.len(),
        nodelay: s.nodelay,
        wnd: unused_window(s),
        una: s.rcv_nxt,
        dead_link: s.dead_link,
    }
}

/// Pending data flushed to the output.
#[verifier::opaque]
pub open spec fn flushed(s: State) -> State {
    let t = prepared(s);
    let c = round_of(s);
    adjusted(
        pushed_out(transmitted(t, c, t.snd_buf.len())),
        some_fast(t.snd_buf, c),
        some_timeout(t.snd_buf, c),
        effective_window(s),
        c.resent,
    )
}

/// When the next flush is due after an update at `current`, and whether one is
/// due now. A clock that jumped by ten seconds or more starts the timer anew.
pub open spec fn flush_time(updated: bool, ts_flush: u32, interval: u32, current: u32) -> (
    u32,
    bool,
) {
    let set = if updated {
        ts_flush
    } else {
        current
    };
    let slap = difference(current, set);
    let far = slap < -10_000 || slap >= 10_000;
    if far || slap >= 0 {
        let next = plus(
            if far {
                current
            } else {
                set
            },
            interval as int,
        );
        (
            if difference(current, next) >= 0 {
                plus(current, interval as int)
            } else {
                next
            },
            true,
        )
    } else {
        (set, false)
    }
}

/// The state at time `current`, with the flush timer set.
pub open spec fn timed(s: State, current: u32) -> State {
    State {
        current,
        updated: true,
        ts_flush: flush_time(s.updated, s.ts_flush, s.interval, current).0,
        ..s
    }
}

/// The state at time `current`, flushed where a flush is due.
pub open spec fn updated_at(s: State, current: u32) -> State {
    if flush_time(s.updated, s.ts_flush, s.interval, current).1 {
        flushed(timed(s, current))
    } else {
        timed(s, current)
    }
}

// ── settings ────────────────────────────────────────────────────────────

/// A state set to avoid delays or not, with the interval within its bounds; a
/// negative threshold leaves the threshold as it is.
pub open spec fn tuned(s: State, nodelay: bool, interval: int, resend: int, nc: bool) -> State {
    State {
        nodelay,
        rx_minrto: if nodelay {
            KCP_RTO_NDL
        } else {
            KCP_RTO_MIN
        },
        interval: min(max(interval, 10), 5000) as u32,
        fastresend: if resend >= 0 {
            resend as u32
        } else {
            s.fastresend
        },
        nocwnd: nc,
        ..s
    }
}

/// A state with windows of the given sizes; 0 leaves a window as it is.
pub open spec fn resized(s: State, sndwnd: u16, rcvwnd: u16) -> State {
    State {
        snd_wnd: if sndwnd > 0 {
            sndwnd
        } else {
            s.snd_wnd
        },
        rcv_wnd: if rcvwnd > 0 {
            max(rcvwnd as int, KCP_WND_RCV as int) as u16
        } else {
            s.rcv_wnd
        },
        ..s
    }
}

} // verus!
