//! What the ends of a link tell each other: headers on the wire,
//! acknowledgements, window sizes, and what is refused.
use vstd::prelude::*;

use super::laws;
use super::model;
use super::model::{Acks, Round, Segment, State, Step};
use super::protocol::Error;
use super::reliability;
use super::validity;
use crate::bytes;

verus! {

/// The number that four bytes make, lowest first.
pub open spec fn number4(e: Seq<u8>, i: int) -> int {
    e[i] + 256 * e[i + 1] + 65_536 * e[i + 2] + 16_777_216 * e[i + 3]
}

/// Where each field stands on the wire: conversation, command, fragment,
/// window, timestamp, number, next expected number and length in 24 bytes,
/// lowest byte first, then the payload.
pub proof fn law_header_layout(g: Segment)
    requires
        g.data.len() <= u32::MAX,
    ensures
        ({
            let e = model::encoded(g);
            &&& e.len() == 24 + g.data.len()
            &&& number4(e, 0) == g.conv
            &&& e[4] == g.cmd
            &&& e[5] == g.frg
            &&& e[6] + 256 * e[7] == g.wnd
            &&& number4(e, 8) == g.ts
            &&& number4(e, 12) == g.sn
            &&& number4(e, 16) == g.una
            &&& number4(e, 20) == g.data.len()
            &&& e.skip(24) == g.data
        }),
{
    let e = model::encoded(g);
    let none = Seq::<u8>::empty();
    laws::law_segment_roundtrip(none, g, none);
    assert(none + e + none =~= e);
    let h = model::header_at(e, 0, g.data.len());
    lemma_number4(e, 0);
    lemma_number4(e, 8);
    lemma_number4(e, 12);
    lemma_number4(e, 16);
    lemma_number4(e, 20);
    lemma_number4(e, 6);
    assert(e.skip(24) =~= h.data);
}

proof fn lemma_number4(e: Seq<u8>, i: int)
    ensures
        number4(e, i) == bytes::le32_at(e, i),
        bytes::le16_at(e, i) == e[i] + 256 * e[i + 1],
{
}

/// A fresh end of a link has the settings that its peers take for granted.
pub proof fn law_fresh_settings(conv: u32, stream: bool)
    ensures
        ({
            let s = model::initial(conv, stream, Seq::empty());
            &&& s.conv == conv && s.stream == stream
            &&& s.mtu == 1400 && s.mss == 1376
            &&& s.snd_wnd == 32 && s.rcv_wnd == 128 && s.rmt_wnd == 128
            &&& s.cwnd == 0 && s.ssthresh == 2 && !s.nocwnd
            &&& s.rx_rto == 200 && s.rx_minrto == 100 && s.rx_srtt == 0
            &&& s.interval == 100 && !s.nodelay && !s.updated
            &&& s.dead_link == 20 && !s.dead && s.fastresend == 0 && s.fastlimit == 5
            &&& s.snd_una == 0 && s.snd_nxt == 0 && s.rcv_nxt == 0
            &&& s.snd_queue.len() == 0 && s.snd_buf.len() == 0 && s.rcv_queue.len() == 0
                && s.rcv_buf.len() == 0 && s.acklist.len() == 0
        }),
{
}

// ── acknowledgements ────────────────────────────────────────────────────

/// A segment in the window, or before it, is acknowledged with its number and
/// its timestamp, however often it comes; one beyond the window is ignored.
/// Nothing else is acknowledged.
pub proof fn law_arrivals_are_acknowledged(s: State, a: Acks, g: Segment)
    requires
        model::ahead(g.sn, s.rcv_nxt) < 0x4000_0000 || model::ahead(s.rcv_nxt, g.sn) < 0x4000_0000,
    ensures
        ({
            let t = match model::command_step(s, a, g) {
                Ok((t, _)) => t,
                Err((t, _)) => t,
            };
            let old = 0 < model::ahead(s.rcv_nxt, g.sn) < 0x4000_0000;
            let near = model::ahead(g.sn, s.rcv_nxt) < s.rcv_wnd;
            &&& g.cmd == 81 && (old || near) ==> t.acklist == s.acklist.push((g.sn, g.ts))
            &&& g.cmd == 81 && !old && !near ==> t == s
            &&& g.cmd != 81 ==> t.acklist == s.acklist && t.rcv_queue == s.rcv_queue && t.rcv_buf
                == s.rcv_buf && t.rcv_nxt == s.rcv_nxt
        }),
{
    lemma_window_positions(g.sn, s.rcv_nxt, s.rcv_wnd);
    if g.cmd == 81 {
        validity::lemma_stored(State { acklist: s.acklist.push((g.sn, g.ts)), ..s }, g);
    }
}

proof fn lemma_window_positions(sn: u32, nxt: u32, wnd: u16)
    requires
        model::ahead(sn, nxt) < 0x4000_0000 || model::ahead(nxt, sn) < 0x4000_0000,
    ensures
        model::difference(sn, model::plus(nxt, wnd as int)) < 0 <==> 0 < model::ahead(nxt, sn)
            < 0x4000_0000 || model::ahead(sn, nxt) < wnd,
{
    let end = model::plus(nxt, wnd as int);
    if model::ahead(sn, nxt) < 0x4000_0000 {
        assert(model::difference(sn, end) == model::ahead(sn, nxt) - wnd);
    } else {
        assert(model::difference(sn, end) == -model::ahead(nxt, sn) - wnd);
    }
}

/// A segment that carries no payload: a command with a number and a timestamp,
/// the number that is next expected, and how many segments there is room for.
pub open spec fn told(s: State, cmd: u8, sn: u32, ts: u32) -> Segment {
    Segment {
        conv: s.conv,
        cmd,
        frg: 0,
        wnd: if s.rcv_queue.len() < s.rcv_wnd {
            (s.rcv_wnd - s.rcv_queue.len()) as u16
        } else {
            0
        },
        ts,
        sn,
        una: s.rcv_nxt,
        resendts: 0,
        rto: 0,
        fastack: 0,
        xmit: 0,
        data: Seq::empty(),
    }
}

proof fn lemma_acks_going(s: State, g: Segment, k: nat, j: int, n: int)
    requires
        0 <= j < k <= s.acklist.len(),
        0 <= n <= s.packets.len(),
    ensures
        reliability::going_out(
            model::acks_emitted(s, g, k),
            n,
            model::encoded(model::ack_segment(g, s.acklist[j])),
        ),
    decreases k,
{
    let k1 = (k - 1) as nat;
    let t = model::acks_emitted(s, g, k1);
    let e = model::encoded(model::ack_segment(g, s.acklist[j]));
    reliability::lemma_acks_grow(s, g, k1);
    if j < k1 {
        lemma_acks_going(s, g, k1, j, n);
    }
    reliability::lemma_emitted_going(t, model::ack_segment(g, s.acklist[k - 1]), n, e);
}

proof fn lemma_going_same_output(s: State, t: State, n: int, e: Seq<u8>)
    requires
        reliability::going_out(s, n, e),
        s.buf == t.buf,
        s.packets == t.packets,
    ensures
        reliability::going_out(t, n, e),
{
    if !reliability::within(t.buf, e) {
        let i = choose|i: int|
            n <= i < s.packets.len() && reliability::within(#[trigger] s.packets[i], e);
        assert(t.packets[i] == s.packets[i]);
    }
}

proof fn lemma_transmitted_still_going(s: State, c: Round, k: nat, n: int, e: Seq<u8>)
    requires
        k <= s.snd_buf.len(),
        0 <= n <= s.packets.len(),
        reliability::going_out(s, n, e),
        e.len() > 0,
    ensures
        reliability::going_out(model::transmitted(s, c, k), n, e),
    decreases k,
{
    if k > 0 {
        let k1 = (k - 1) as nat;
        lemma_transmitted_still_going(s, c, k1, n, e);
        reliability::lemma_packets_grow(s, c, k1);
        let t = model::transmitted(s, c, k1);
        let g = s.snd_buf[k - 1];
        let h = model::after_round(g, c);
        let v = State { snd_buf: t.snd_buf.update(k - 1, h), ..t };
        let u = State {
            xmit: if model::resend_kind(g, c) is Timeout {
                model::plus(t.xmit, 1)
            } else {
                t.xmit
            },
            dead: t.dead || h.xmit >= c.dead_link,
            ..v
        };
        lemma_going_same_output(t, v, n, e);
        lemma_going_same_output(t, u, n, e);
        if !(model::resend_kind(g, c) is Not) {
            reliability::lemma_emitted_going(u, h, n, e);
            assert(model::transmitted(s, c, k) == model::emitted(u, h));
        } else {
            assert(model::transmitted(s, c, k) == v);
        }
    }
}

/// What goes out before segments are admitted is in a packet after the flush.
proof fn lemma_flush_hands_out(s: State, e: Seq<u8>)
    requires
        e.len() > 0,
        model::prepared(s).packets.len() >= s.packets.len(),
        reliability::going_out(model::prepared(s), s.packets.len() as int, e),
    ensures
        exists|i: int|
            s.packets.len() <= i < model::flushed(s).packets.len() && reliability::within(
                #[trigger] model::flushed(s).packets[i],
                e,
            ),
{
    reveal(model::flushed);
    let p = model::prepared(s);
    let c = model::round_of(s);
    let n = s.packets.len() as int;
    lemma_transmitted_still_going(p, c, p.snd_buf.len(), n, e);
    reliability::lemma_packets_grow(p, c, p.snd_buf.len());
    let t = model::transmitted(p, c, p.snd_buf.len());
    reliability::lemma_pushed_out_going(t, n, e);
    let u = model::pushed_out(t);
    let i = choose|i: int|
        n <= i < u.packets.len() && reliability::within(#[trigger] u.packets[i], e);
    assert(model::flushed(s).packets[i] == u.packets[i]);
}

/// The states of a flush before segments are admitted, and what is on its way
/// out in each.
proof fn lemma_prepared_going(s: State, e: Seq<u8>)
    requires
        e.len() > 0,
        ({
            let s2 = model::probe_scheduled(model::acks_flushed(s));
            let h = model::last_header(s);
            let ask = Segment { cmd: 83, ..h };
            let tell = Segment { cmd: 84, ..h };
            ||| reliability::going_out(s2, s.packets.len() as int, e)
            ||| s2.probe & 1 != 0 && e == model::encoded(ask)
            ||| s2.probe & 2 != 0 && e == model::encoded(tell)
        }),
    ensures
        model::prepared(s).packets.len() >= s.packets.len(),
        reliability::going_out(model::prepared(s), s.packets.len() as int, e),
{
    let n = s.packets.len() as int;
    reliability::lemma_acks_grow(s, model::control_segment(s), s.acklist.len());
    let s2 = model::probe_scheduled(model::acks_flushed(s));
    let h = model::last_header(s);
    let ask = Segment { cmd: 83, ..h };
    let tell = Segment { cmd: 84, ..h };
    let t = if s2.probe & 1 != 0 {
        model::emitted(s2, ask)
    } else {
        s2
    };
    if s2.probe & 1 != 0 && (reliability::going_out(s2, n, e) || e == model::encoded(ask)) {
        reliability::lemma_emitted_going(s2, ask, n, e);
    }
    let u = if s2.probe & 2 != 0 {
        model::emitted(t, tell)
    } else {
        t
    };
    if s2.probe & 2 != 0 && (reliability::going_out(t, n, e) || e == model::encoded(tell)) {
        reliability::lemma_emitted_going(t, tell, n, e);
    }
    assert(reliability::going_out(u, n, e));
    let s3 = model::probes_flushed(s2, h);
    assert(s3 == State { probe: 0, ..u });
    lemma_going_same_output(u, s3, n, e);
    validity::lemma_admitted(s3, model::effective_window(s3), model::unused_window(s));
    lemma_going_same_output(s3, model::prepared(s), n, e);
}

/// A flush acknowledges every arrival that is not acknowledged yet, and then
/// none is left.
pub proof fn law_flush_acknowledges_arrivals(s: State, j: int)
    requires
        0 <= j < s.acklist.len(),
    ensures
        model::flushed(s).acklist.len() == 0,
        exists|i: int|
            s.packets.len() <= i < model::flushed(s).packets.len() && reliability::within(
                #[trigger] model::flushed(s).packets[i],
                model::encoded(told(s, 82, s.acklist[j].0, s.acklist[j].1)),
            ),
{
    let n = s.packets.len() as int;
    let g = model::control_segment(s);
    let e = model::encoded(model::ack_segment(g, s.acklist[j]));
    assert(model::ack_segment(g, s.acklist[j]) =~= told(
        s,
        82,
        s.acklist[j].0,
        s.acklist[j].1,
    ));
    lemma_acks_going(s, g, s.acklist.len(), j, n);
    let s0 = model::acks_emitted(s, g, s.acklist.len());
    lemma_going_same_output(s0, model::probe_scheduled(model::acks_flushed(s)), n, e);
    lemma_prepared_going(s, e);
    lemma_flush_hands_out(s, e);
    assert(model::flushed(s).acklist.len() == 0) by {
        reveal(model::flushed);
        let p = model::prepared(s);
        validity::lemma_prepared(s);
        validity::lemma_transmitted(p, model::round_of(s), p.snd_buf.len());
    }
}

/// Acknowledgements can go ahead of the next flush, all of them at once.
pub proof fn law_acknowledgements_go_ahead(s: State, j: int)
    requires
        0 <= j < s.acklist.len(),
    ensures
        model::acks_flushed(s).acklist.len() == 0,
        reliability::going_out(
            model::acks_flushed(s),
            s.packets.len() as int,
            model::encoded(told(s, 82, s.acklist[j].0, s.acklist[j].1)),
        ),
{
    let n = s.packets.len() as int;
    let g = model::control_segment(s);
    let e = model::encoded(model::ack_segment(g, s.acklist[j]));
    assert(model::ack_segment(g, s.acklist[j]) =~= told(
        s,
        82,
        s.acklist[j].0,
        s.acklist[j].1,
    ));
    lemma_acks_going(s, g, s.acklist.len(), j, n);
    lemma_going_same_output(
        model::acks_emitted(s, g, s.acklist.len()),
        model::acks_flushed(s),
        n,
        e,
    );
}

/// An acknowledgement takes the segment with its number out of the send buffer,
/// and no other; one that matches nothing in flight changes nothing.
pub proof fn law_acknowledged_segment_leaves(s: State, sn: u32, i: int)
    requires
        model::valid(s),
        s.snd_una <= s.snd_nxt,
        0 <= i < s.snd_buf.len(),
    ensures
        s.snd_buf[i].sn == sn ==> model::acknowledged(s, sn).snd_buf == s.snd_buf.remove(i),
        (forall|k: int| 0 <= k < s.snd_buf.len() ==> (#[trigger] s.snd_buf[k]).sn != sn)
            ==> model::acknowledged(s, sn) == s,
        model::acknowledged(s, sn) == (State { snd_buf: model::acknowledged(s, sn).snd_buf, ..s }),
{
    let b = s.snd_buf;
    if b[i].sn == sn {
        assert(model::ahead(b[i].sn, s.snd_una) < model::ahead(s.snd_nxt, s.snd_una));
        assert(forall|k: int|
            0 <= k < i ==> model::ahead((#[trigger] b[k]).sn, s.snd_una) < model::ahead(
                b[i].sn,
                s.snd_una,
            ));
        assert forall|k: int| 0 <= k < i implies (#[trigger] b[k]).sn < sn by {
            assert(model::ahead(b[k].sn, s.snd_una) < model::ahead(b[i].sn, s.snd_una));
        }
        lemma_first_not_below(b, sn, 0, i);
    }
    lemma_not_below_bounds(b, sn, 0);
}

proof fn lemma_first_not_below(b: Seq<Segment>, sn: u32, from: int, i: int)
    requires
        0 <= from <= i < b.len(),
        b[i].sn == sn,
        forall|k: int| from <= k < i ==> (#[trigger] b[k]).sn < sn,
    ensures
        model::first_not_below(b, sn, from) == i,
    decreases i - from,
{
    if from < i {
        lemma_first_not_below(b, sn, from + 1, i);
    }
}

proof fn lemma_not_below_bounds(b: Seq<Segment>, sn: u32, i: int)
    requires
        0 <= i <= b.len(),
    ensures
        i <= model::first_not_below(b, sn, i) <= b.len(),
    decreases b.len() - i,
{
    if i < b.len() && b[i].sn < sn {
        lemma_not_below_bounds(b, sn, i + 1);
    }
}

/// A segment in flight counts as overtaken once more if and only if a later one
/// is acknowledged that was not sent before it; nothing else about it changes.
pub proof fn law_overtaken_segments_are_counted(s: State, sn: u32, ts: u32, i: int)
    requires
        model::valid(s),
        0 <= i < s.snd_buf.len(),
        s.snd_buf[i].fastack < u32::MAX,
        model::ahead(sn, s.snd_una) < model::ahead(s.snd_nxt, s.snd_una),
    ensures
        ({
            let b = s.snd_buf[i];
            let t = model::skipped(s, sn, ts).snd_buf[i];
            let later = model::ahead(b.sn, s.snd_una) < model::ahead(sn, s.snd_una)
                && model::difference(ts, b.ts) >= 0;
            &&& later ==> t.fastack == b.fastack + 1
            &&& !later ==> t.fastack == b.fastack
            &&& t == (Segment { fastack: t.fastack, ..b })
            &&& model::skipped(s, sn, ts).snd_buf.len() == s.snd_buf.len()
        }),
{
    let b = s.snd_buf;
    lemma_first_behind(s, sn, 0);
    let n = model::first_behind(b, sn, 0);
    lemma_order(b[i].sn, sn, s.snd_una);
}

proof fn lemma_order(x: u32, y: u32, base: u32)
    requires
        model::ahead(x, base) < 0x1_0000,
        model::ahead(y, base) < 0x1_0000,
    ensures
        model::difference(x, y) == model::ahead(x, base) - model::ahead(y, base),
        x == y <==> model::ahead(x, base) == model::ahead(y, base),
{
}

proof fn lemma_first_behind(s: State, sn: u32, i: int)
    requires
        model::valid(s),
        model::ahead(sn, s.snd_una) < model::ahead(s.snd_nxt, s.snd_una),
        0 <= i <= s.snd_buf.len(),
        forall|k: int|
            0 <= k < i ==> model::ahead((#[trigger] s.snd_buf[k]).sn, s.snd_una) <= model::ahead(
                sn,
                s.snd_una,
            ),
    ensures
        forall|k: int|
            0 <= k < s.snd_buf.len() ==> (k < model::first_behind(s.snd_buf, sn, i)
                <==> model::ahead((#[trigger] s.snd_buf[k]).sn, s.snd_una) <= model::ahead(
                sn,
                s.snd_una,
            )),
    decreases s.snd_buf.len() - i,
{
    let b = s.snd_buf;
    if i < b.len() {
        lemma_order(sn, b[i].sn, s.snd_una);
        if model::difference(sn, b[i].sn) >= 0 {
            lemma_first_behind(s, sn, i + 1);
        } else {
            assert forall|k: int| i <= k < b.len() implies model::ahead(
                (#[trigger] b[k]).sn,
                s.snd_una,
            ) > model::ahead(sn, s.snd_una) by {
                if k > i {
                    assert(model::ahead(b[i].sn, s.snd_una) < model::ahead(b[k].sn, s.snd_una));
                }
            }
        }
    }
}

// ── windows ─────────────────────────────────────────────────────────────

/// The room that the peer is told of and what fills the queue make up the
/// receive window; a queue that is full leaves none.
pub proof fn law_told_window_is_free(s: State)
    ensures
        s.rcv_queue.len() <= s.rcv_wnd ==> model::unused_window(s) + s.rcv_queue.len() == s.rcv_wnd,
        s.rcv_queue.len() >= s.rcv_wnd ==> model::unused_window(s) == 0,
{
}

/// Every segment tells the window and the next expected number of its sender:
/// they are taken over from any command, and what is before that number is no
/// longer in flight.
pub proof fn law_headers_tell_the_window(s: State, a: Acks, g: Segment)
    requires
        model::valid(s),
        g.conv == s.conv,
        g.cmd == 83 || g.cmd == 84,
        g.data.len() == 0,
        model::ahead(g.una, s.snd_una) <= model::ahead(s.snd_nxt, s.snd_una),
    ensures
        ({
            let (t, r) = model::input_all(s, model::encoded(g));
            &&& r == Ok::<int, Error>(24)
            &&& t.rmt_wnd == g.wnd
            &&& t.snd_buf == model::from_una(s.snd_buf, g.una)
            &&& g.cmd == 83 ==> t.probe == s.probe | 2
            &&& g.cmd == 84 ==> t.probe == s.probe
            &&& t.rcv_queue == s.rcv_queue && t.rcv_buf == s.rcv_buf && t.acklist == s.acklist
        }),
{
    let d = model::encoded(g);
    let e = Seq::<u8>::empty();
    laws::law_segment_roundtrip(e, g, e);
    assert(e + d + e =~= d);
    let h = model::header_at(d, 0, 0);
    let a0 = Acks { flag: false, max_ack: 0, latest_ts: 0 };
    assert(bytes::le32_at(d, 0) == h.conv);
    let s2 = model::shrunk(
        State { rmt_wnd: g.wnd, snd_buf: model::from_una(s.snd_buf, g.una), ..s },
    );
    let t = model::command_step(s2, a0, h)->Ok_0.0;
    assert(model::input_step(s, a0, d, 0) == Step::Next(t, a0, 24)) by {
        reveal(model::input_step);
    }
    assert(model::input_from(s, a0, d, 0, s.snd_una) == model::input_from(t, a0, d, 24, s.snd_una));
}

/// A peer that asks for the window is told it by the next flush: a flush with
/// the answer pending puts it on the wire, with the room there is and the
/// number next expected.
pub proof fn law_asked_windows_are_told(s: State)
    requires
        s.probe & 2 != 0,
    ensures
        exists|i: int, sn: u32, ts: u32|
            s.packets.len() <= i < model::flushed(s).packets.len() && #[trigger] reliability::within(
                model::flushed(s).packets[i],
                model::encoded(told(s, 84, sn, ts)),
            ),
        model::flushed(s).probe == 0,
{
    let n = s.packets.len() as int;
    let h = model::last_header(s);
    let tell = Segment { cmd: 84, ..h };
    let e = model::encoded(tell);
    assert(tell =~= told(s, 84, h.sn, h.ts));
    lemma_scheduled_keeps(s);
    lemma_prepared_going(s, e);
    lemma_flush_hands_out(s, e);
    let i = choose|i: int|
        n <= i < model::flushed(s).packets.len() && reliability::within(
            #[trigger] model::flushed(s).packets[i],
            e,
        );
    assert(reliability::within(
        model::flushed(s).packets[i],
        model::encoded(told(s, 84, h.sn, h.ts)),
    ));
    lemma_probe_cleared(s);
}

/// A flush whose turn it is to ask a peer without room asks.
pub proof fn law_due_questions_are_asked(s: State)
    requires
        s.rmt_wnd == 0,
        s.probe_wait > 0,
        model::difference(s.current, s.ts_probe) >= 0,
    ensures
        exists|i: int, sn: u32, ts: u32|
            s.packets.len() <= i < model::flushed(s).packets.len() && #[trigger] reliability::within(
                model::flushed(s).packets[i],
                model::encoded(told(s, 83, sn, ts)),
            ),
        model::flushed(s).probe == 0,
{
    let n = s.packets.len() as int;
    let h = model::last_header(s);
    let ask = Segment { cmd: 83, ..h };
    let e = model::encoded(ask);
    assert(ask =~= told(s, 83, h.sn, h.ts));
    lemma_scheduled_keeps(s);
    lemma_prepared_going(s, e);
    lemma_flush_hands_out(s, e);
    let i = choose|i: int|
        n <= i < model::flushed(s).packets.len() && reliability::within(
            #[trigger] model::flushed(s).packets[i],
            e,
        );
    assert(reliability::within(
        model::flushed(s).packets[i],
        model::encoded(told(s, 83, h.sn, h.ts)),
    ));
    lemma_probe_cleared(s);
}

proof fn lemma_scheduled_keeps(s: State)
    ensures
        s.probe & 2 != 0 ==> model::probe_scheduled(model::acks_flushed(s)).probe & 2 != 0,
        s.rmt_wnd == 0 && s.probe_wait > 0 && model::difference(s.current, s.ts_probe) >= 0
            ==> model::probe_scheduled(model::acks_flushed(s)).probe & 1 != 0,
{
    validity::lemma_acks_emitted(s, model::control_segment(s), s.acklist.len());
    let p = s.probe;
    assert((p & 2 != 0 ==> (p | 1) & 2 != 0) && (p | 1) & 1 != 0) by (bit_vector);
}

proof fn lemma_probe_cleared(s: State)
    ensures
        model::flushed(s).probe == 0,
{
    reveal(model::flushed);
    let p = model::prepared(s);
    validity::lemma_prepared(s);
    validity::lemma_transmitted(p, model::round_of(s), p.snd_buf.len());
}

/// A reader that makes room where there was none has the peer told of it.
pub proof fn law_reopened_windows_are_told(s: State)
    requires
        s.rcv_queue.len() >= s.rcv_wnd,
        model::received(s).rcv_queue.len() < s.rcv_wnd,
    ensures
        model::received(s).probe & 2 != 0,
{
    validity::lemma_moved(
        State { rcv_queue: s.rcv_queue.skip(model::message_end(s.rcv_queue) as int), ..s },
    );
    let p = s.probe;
    assert((p | 2) & 2 != 0) by (bit_vector);
}

// ── refusals ────────────────────────────────────────────────────────────

/// A datagram of another conversation changes nothing, nor does one that is too
/// short; both are refused by name.
pub proof fn law_strangers_change_nothing(s: State, d: Seq<u8>)
    ensures
        d.len() < 24 ==> model::input_all(s, d) == (
            s,
            Err::<int, Error>(Error::InvalidSegmentSize(d.len() as usize)),
        ),
        d.len() >= 24 && number4(d, 0) != s.conv && !s.input_conv ==> model::input_all(s, d) == (
            s,
            Err::<int, Error>(Error::ConvInconsistent(s.conv, number4(d, 0) as u32)),
        ),
{
    reveal(model::input_step);
}

/// An end that waits for a conversation takes that of the first datagram, once.
pub proof fn law_first_conversation_is_taken(s: State, d: Seq<u8>)
    requires
        d.len() >= 24,
        s.input_conv,
        number4(d, 0) != s.conv,
        24 + number4(d, 20) == d.len(),
        81 <= d[4] <= 84,
    ensures
        model::input_all(s, d).0.conv == number4(d, 0),
        !model::input_all(s, d).0.input_conv,
{
    reveal(model::input_step);
    let a = Acks { flag: false, max_ack: 0, latest_ts: 0 };
    let len = bytes::le32_at(d, 20);
    let g = model::header_at(d, 0, len as nat);
    let s1 = State { conv: bytes::le32_at(d, 0), input_conv: false, ..s };
    let s2 = model::shrunk(
        State { rmt_wnd: g.wnd, snd_buf: model::from_una(s1.snd_buf, g.una), ..s1 },
    );
    if g.cmd == 81 {
        validity::lemma_stored(State { acklist: s2.acklist.push((g.sn, g.ts)), ..s2 }, g);
    }
    match model::command_step(s2, a, g) {
        Ok((t, b)) => {
            assert(t.conv == s1.conv && !t.input_conv);
            assert(model::input_from(s, a, d, 0, s.snd_una) == model::input_from(
                t,
                b,
                d,
                d.len() as int,
                s.snd_una,
            ));
        },
        Err((t, _)) => {
            assert(t.conv == s1.conv && !t.input_conv);
        },
    }
}

/// A segment that claims more than its datagram holds, or an unknown command,
/// is refused by name, and nothing that was received or is to be sent changes.
pub proof fn law_malformed_segments_are_refused(s: State, d: Seq<u8>)
    requires
        d.len() >= 24,
        number4(d, 0) == s.conv,
    ensures
        24 + number4(d, 20) > d.len() ==> model::input_all(s, d) == (
            s,
            Err::<int, Error>(
                Error::InvalidSegmentDataSize(number4(d, 20) as usize, (d.len() - 24) as usize),
            ),
        ),
        24 + number4(d, 20) <= d.len() && !(81 <= d[4] <= 84) ==> model::input_all(s, d) == (
            s,
            Err::<int, Error>(Error::UnsupportedCmd(d[4])),
        ),
{
    reveal(model::input_step);
}

/// A link is given up if and only if a segment was sent as often as the limit
/// allows: while no segment reaches it, a flush leaves the link alive.
pub proof fn law_dead_links_are_exhausted(s: State)
    requires
        !s.dead,
    ensures
        model::flushed(s).dead <==> exists|i: int|
            0 <= i < model::flushed(s).snd_buf.len() && (#[trigger] model::flushed(s).snd_buf[i]).xmit
                >= s.dead_link && model::flushed(s).snd_buf[i] != model::prepared(s).snd_buf[i],
{
    reveal(model::flushed);
    let p = model::prepared(s);
    let c = model::round_of(s);
    validity::lemma_prepared(s);
    validity::lemma_transmitted(p, c, p.snd_buf.len());
    lemma_dead(p, c, p.snd_buf.len());
    let t = model::transmitted(p, c, p.snd_buf.len());
    let f = model::flushed(s);
    assert(f.snd_buf == t.snd_buf && f.dead == t.dead);
    if t.dead {
        let i = choose|i: int|
            0 <= i < p.snd_buf.len() && !(model::resend_kind(#[trigger] p.snd_buf[i], c) is Not)
                && model::after_round(p.snd_buf[i], c).xmit >= c.dead_link;
        assert(f.snd_buf[i] == model::after_round(p.snd_buf[i], c));
        assert(f.snd_buf[i].xmit != p.snd_buf[i].xmit);
    }
    if exists|i: int|
        0 <= i < f.snd_buf.len() && (#[trigger] f.snd_buf[i]).xmit >= s.dead_link && f.snd_buf[i]
            != p.snd_buf[i] {
        let i = choose|i: int|
            0 <= i < f.snd_buf.len() && (#[trigger] f.snd_buf[i]).xmit >= s.dead_link
                && f.snd_buf[i] != p.snd_buf[i];
        assert(f.snd_buf[i] == model::after_round(p.snd_buf[i], c));
    }
}

proof fn lemma_dead(s: State, c: Round, k: nat)
    requires
        k <= s.snd_buf.len(),
        !s.dead,
    ensures
        model::transmitted(s, c, k).dead <==> exists|i: int|
            0 <= i < k && !(model::resend_kind(#[trigger] s.snd_buf[i], c) is Not)
                && model::after_round(s.snd_buf[i], c).xmit >= c.dead_link,
    decreases k,
{
    if k > 0 {
        let k1 = (k - 1) as nat;
        lemma_dead(s, c, k1);
        let t = model::transmitted(s, c, k1);
        let g = s.snd_buf[k - 1];
        let h = model::after_round(g, c);
        let v = State { snd_buf: t.snd_buf.update(k - 1, h), ..t };
        if !(model::resend_kind(g, c) is Not) {
            validity::lemma_emitted(
                State {
                    xmit: if model::resend_kind(g, c) is Timeout {
                        model::plus(v.xmit, 1)
                    } else {
                        v.xmit
                    },
                    dead: v.dead || h.xmit >= c.dead_link,
                    ..v
                },
                h,
            );
        }
        assert(model::transmitted(s, c, k).dead == (t.dead || (!(model::resend_kind(g, c) is Not)
            && h.xmit >= c.dead_link)));
    }
}

/// A payload that is longer than a segment may be is refused by name, and is
/// neither kept nor delivered.
pub proof fn law_oversized_segments_are_refused(s: State, a: Acks, g: Segment)
    requires
        g.cmd == 81,
        model::ahead(g.sn, s.rcv_nxt) < s.rcv_wnd,
        g.data.len() > s.mss,
    ensures
        model::command_step(s, a, g) matches Err((t, e)) && {
            &&& e == Error::InvalidSegmentDataSize(s.mss, g.data.len() as usize)
            &&& t.rcv_queue == s.rcv_queue && t.rcv_buf == s.rcv_buf && t.rcv_nxt == s.rcv_nxt
        },
{
    lemma_window_positions(g.sn, s.rcv_nxt, s.rcv_wnd);
}

/// Of the acknowledgements in a datagram the furthest one counts: a later one
/// for a later segment replaces it, any other leaves it.
pub proof fn law_furthest_acknowledgement_counts(a: Acks, sn: u32, ts: u32)
    ensures
        ({
            let b = model::noted(a, sn, ts);
            &&& b.flag
            &&& !a.flag ==> b.max_ack == sn && b.latest_ts == ts
            &&& a.flag ==> model::difference(b.max_ack, a.max_ack) >= 0
            &&& a.flag && model::difference(sn, a.max_ack) > 0 && model::difference(
                ts,
                a.latest_ts,
            ) > 0 ==> b.max_ack == sn && b.latest_ts == ts
            &&& a.flag && (model::difference(sn, a.max_ack) <= 0 || model::difference(
                ts,
                a.latest_ts,
            ) <= 0) ==> b == a
        }),
{
}

/// An acknowledgement is noted, and no other command is.
pub proof fn law_only_acknowledgements_are_noted(s: State, a: Acks, g: Segment)
    ensures
        g.cmd == 82 ==> model::command_step(s, a, g) is Ok && model::command_step(
            s,
            a,
            g,
        )->Ok_0.1 == model::noted(a, g.sn, g.ts),
        g.cmd != 82 ==> (model::command_step(s, a, g) matches Ok((t, b)) ==> b == a),
{
}

// ── acknowledgements that arrive ────────────────────────────────────────

proof fn lemma_una_is_known(s: State, wnd: u16)
    requires
        model::valid(s),
    ensures
        model::shrunk(
            State { rmt_wnd: wnd, snd_buf: model::from_una(s.snd_buf, s.snd_una), ..s },
        ) == (State { rmt_wnd: wnd, ..s }),
{
    assert(model::from_una(s.snd_buf, s.snd_una) == s.snd_buf);
}

/// The step that an acknowledgement alone makes: the round trip is measured, and
/// the segment leaves.
proof fn lemma_ack_step(s: State, g: Segment, i: int) -> (u: State)
    requires
        model::valid(s),
        s.snd_una <= s.snd_nxt,
        g.conv == s.conv,
        g.cmd == 82,
        g.data.len() == 0,
        g.una == s.snd_una,
        0 <= i < s.snd_buf.len(),
        s.snd_buf[i].sn == g.sn,
    ensures
        model::valid(u),
        u.snd_buf == s.snd_buf.remove(i),
        u.snd_nxt == s.snd_nxt,
        u.snd_una == (if u.snd_buf.len() > 0 {
            u.snd_buf[0].sn
        } else {
            u.snd_nxt
        }),
        model::input_all(s, model::encoded(g)) == (
            model::grown(model::skipped(u, g.sn, g.ts), s.snd_una),
            Ok::<int, Error>(24),
        ),
{
    let d = model::encoded(g);
    let e = Seq::<u8>::empty();
    laws::law_segment_roundtrip(e, g, e);
    assert(e + d + e =~= d);
    let h = model::header_at(d, 0, 0);
    let a0 = Acks { flag: false, max_ack: 0, latest_ts: 0 };
    assert(bytes::le32_at(d, 0) == h.conv);
    let s2 = State { rmt_wnd: g.wnd, ..s };
    lemma_una_is_known(s, g.wnd);
    validity::lemma_una_valid(s, s.snd_una, g.wnd);
    let rtt = model::difference(s2.current, g.ts);
    let t1 = if rtt >= 0 {
        model::smoothed(s2, rtt)
    } else {
        s2
    };
    if rtt >= 0 {
        validity::lemma_smoothed_valid(s2, rtt);
    }
    law_acknowledged_segment_leaves(t1, g.sn, i);
    validity::lemma_acknowledged_valid(t1, g.sn);
    let u = model::shrunk(model::acknowledged(t1, g.sn));
    let b = Acks { flag: true, max_ack: g.sn, latest_ts: g.ts };
    assert(model::command_step(s2, a0, h) == Ok::<(State, Acks), (State, Error)>((u, b)));
    assert(model::input_step(s, a0, d, 0) == Step::Next(u, b, 24)) by {
        reveal(model::input_step);
    }
    assert(model::input_from(s, a0, d, 0, s.snd_una) == model::input_from(u, b, d, 24, s.snd_una));
    u
}

/// An acknowledgement that arrives takes its segment out of what is in flight,
/// and counts the earlier ones that were not sent after it as overtaken once
/// more; the later ones stay as they are.
pub proof fn law_acknowledgement_arrives(s: State, g: Segment, i: int, j: int)
    requires
        model::valid(s),
        s.snd_una <= s.snd_nxt,
        g.conv == s.conv,
        g.cmd == 82,
        g.data.len() == 0,
        g.una == s.snd_una,
        0 <= i < s.snd_buf.len(),
        s.snd_buf[i].sn == g.sn,
        0 <= j < s.snd_buf.len(),
        j != i,
        s.snd_buf[j].fastack < u32::MAX,
    ensures
        ({
            let (t, r) = model::input_all(s, model::encoded(g));
            let b = s.snd_buf[j];
            let h = t.snd_buf[if j < i {
                j
            } else {
                j - 1
            }];
            &&& r == Ok::<int, Error>(24)
            &&& t.snd_buf.len() == s.snd_buf.len() - 1
            &&& j > i || model::difference(g.ts, b.ts) < 0 ==> h == b
            &&& j < i && model::difference(g.ts, b.ts) >= 0 ==> h == (Segment {
                fastack: (b.fastack + 1) as u32,
                ..b
            })
        }),
{
    let u = lemma_ack_step(s, g, i);
    let k = if j < i {
        j
    } else {
        j - 1
    };
    assert(u.snd_buf[k] == s.snd_buf[j]);
    let v = model::skipped(u, g.sn, g.ts);
    assert(model::grown(v, s.snd_una).snd_buf == v.snd_buf);
    let (bi, bj) = (s.snd_buf[i], s.snd_buf[j]);
    if j < i {
        assert(model::ahead(bj.sn, s.snd_una) < model::ahead(bi.sn, s.snd_una));
    } else {
        assert(model::ahead(bi.sn, s.snd_una) < model::ahead(bj.sn, s.snd_una));
    }
    if i > 0 {
        assert(u.snd_buf[0] == s.snd_buf[0]);
        assert(u.snd_una == s.snd_una);
        law_overtaken_segments_are_counted(u, g.sn, g.ts, k);
    } else {
        assert(u.snd_buf[0] == s.snd_buf[1]);
        assert(model::ahead(bi.sn, s.snd_una) < model::ahead(s.snd_buf[1].sn, s.snd_una));
        lemma_order(g.sn, u.snd_una, s.snd_una);
        assert(!model::in_flight(u, g.sn));
    }
}

} // verus!
