//! How fast a link sends: measured round trips, timeouts, retransmissions and
//! windows, as an observer of the link can tell them.
use vstd::prelude::*;

use super::config::KcpConfig;
use super::laws;
use super::model;
use super::model::{Acks, Round, Segment, State};
use super::session;
use super::validity;

verus! {

// ── round trips ─────────────────────────────────────────────────────────

/// A measured round trip moves the estimate an eighth of the way towards it and
/// the deviation a quarter of the way towards its distance from the estimate;
/// the first one is taken as it is. The timeout is at least the estimate and
/// leaves room for an interval and four deviations, at least the configured
/// minimum, at most a minute, and no longer than these ask for.
pub proof fn law_round_trip_sample(s: State, rtt: int)
    requires
        0 <= rtt < 0x8000_0000,
    ensures
        ({
            let t = model::smoothed(s, rtt);
            let gap = if rtt < s.rx_srtt {
                s.rx_srtt - rtt
            } else {
                rtt - s.rx_srtt
            };
            &&& s.rx_srtt == 0 ==> t.rx_srtt == rtt && 2 * t.rx_rttval <= rtt <= 2 * t.rx_rttval + 1
            &&& s.rx_srtt > 0 ==> {
                &&& t.rx_srtt >= 1
                &&& s.rx_srtt <= rtt ==> s.rx_srtt <= t.rx_srtt <= rtt
                &&& rtt <= s.rx_srtt ==> rtt <= t.rx_srtt <= s.rx_srtt || t.rx_srtt == 1
                &&& t.rx_srtt > 1 ==> gap - 8 < 8 * (if rtt < s.rx_srtt {
                    s.rx_srtt - t.rx_srtt
                } else {
                    t.rx_srtt - s.rx_srtt
                }) < gap + 8
                &&& 4 * t.rx_rttval <= 3 * s.rx_rttval + gap < 4 * t.rx_rttval + 4
            }
            &&& t.rx_rto <= 60_000
            &&& t.rx_rto >= s.rx_minrto || t.rx_rto == 60_000
            &&& t.rx_rto >= t.rx_srtt || t.rx_rto == 60_000
            &&& t.rx_rto >= t.rx_srtt + s.interval || t.rx_rto == 60_000
            &&& t.rx_rto >= t.rx_srtt + 4 * t.rx_rttval || t.rx_rto == 60_000
            &&& t.rx_rto <= s.rx_minrto || t.rx_rto <= t.rx_srtt + s.interval || t.rx_rto
                <= t.rx_srtt + 4 * t.rx_rttval
            &&& t == (State {
                rx_srtt: t.rx_srtt,
                rx_rttval: t.rx_rttval,
                rx_rto: t.rx_rto,
                ..s
            })
        }),
{
}

/// From a fresh state the timeout after the first sample is three times the
/// round trip, where that is long enough for the interval and the minimum.
pub proof fn law_first_round_trip(conv: u32, stream: bool, rtt: int, minrto: u32, interval: u32)
    requires
        minrto <= 3 * (rtt - rtt % 2) <= 57_000,
        0 <= rtt,
        interval <= 2 * (rtt - rtt % 2),
    ensures
        ({
            let s = State {
                rx_minrto: minrto,
                interval,
                ..model::initial(conv, stream, Seq::empty())
            };
            model::smoothed(s, rtt).rx_rto == 3 * rtt - 2 * (rtt % 2)
        }),
{
}

/// An acknowledgement measures the time since the segment that it echoes was
/// sent; one from the future measures nothing, and no other command does.
pub proof fn law_acks_measure_round_trips(s: State, a: Acks, g: Segment)
    ensures
        ({
            let t = match model::command_step(s, a, g) {
                Ok((t, _)) => t,
                Err((t, _)) => t,
            };
            let since = model::difference(s.current, g.ts);
            &&& g.cmd == 82 && since >= 0 ==> {
                &&& s.rx_srtt == 0 ==> t.rx_srtt == since
                &&& 0 < s.rx_srtt <= since ==> s.rx_srtt <= t.rx_srtt <= since
                &&& 0 < since <= s.rx_srtt ==> since <= t.rx_srtt <= s.rx_srtt
            }
            &&& g.cmd != 82 || since < 0 ==> t.rx_srtt == s.rx_srtt && t.rx_rttval == s.rx_rttval
                && t.rx_rto == s.rx_rto
        }),
{
    if g.cmd == 81 {
        validity::lemma_stored(State { acklist: s.acklist.push((g.sn, g.ts)), ..s }, g);
    }
}

// ── retransmission ──────────────────────────────────────────────────────

proof fn lemma_later(a: u32, d: int)
    requires
        0 <= d < 0x8000_0000,
    ensures
        model::difference(model::plus(a, d), a) == d,
        a + d < 0x1_0000_0000 ==> model::plus(a, d) == a + d,
{
}

/// How long a segment waits for its acknowledgement after a flush sent it.
pub open spec fn wait_of(h: Segment, c: Round) -> int {
    model::difference(h.resendts, c.current)
}

/// Whether a flush sent a segment: what goes out carries the time of the flush,
/// and tells the peer what is next expected of it and how much room there is;
/// the payload and its place stay as they are.
pub open spec fn went_out(g: Segment, h: Segment, c: Round) -> bool {
    &&& h.xmit == g.xmit + 1
    &&& h.ts == c.current
    &&& h.una == c.una
    &&& h.wnd == c.wnd
    &&& h.conv == g.conv && h.cmd == g.cmd && h.sn == g.sn && h.frg == g.frg && h.data == g.data
}

/// A new segment goes out in the first flush, and waits for the measured
/// timeout, an eighth longer unless delays are to be avoided.
pub proof fn law_first_transmission(g: Segment, c: Round)
    requires
        g.xmit == 0,
        c.rx_rto <= 60_000,
    ensures
        ({
            let h = model::after_round(g, c);
            &&& went_out(g, h, c)
            &&& c.nodelay ==> wait_of(h, c) == c.rx_rto
            &&& !c.nodelay ==> c.rx_rto + c.rx_rto < 8 * (wait_of(h, c) - c.rx_rto) + 8 + c.rx_rto
                && 8 * (wait_of(h, c) - c.rx_rto) <= c.rx_rto
            &&& h.rto == c.rx_rto
        }),
{
}

/// A segment whose time is up goes out again, and then waits longer than
/// before: by half the measured timeout where delays are to be avoided, else
/// at least twice as long and longer by the measured timeout.
pub proof fn law_timeouts_back_off(g: Segment, c: Round)
    requires
        0 < g.xmit < u32::MAX,
        g.fastack == 0 < c.resent,
        model::difference(c.current, g.resendts) >= 0,
        c.rx_rto <= 60_000,
        g.rto <= 0x2000_0000,
    ensures
        ({
            let h = model::after_round(g, c);
            let w = wait_of(h, c);
            &&& went_out(g, h, c)
            &&& h.rto == w
            &&& c.nodelay ==> c.rx_rto - 1 <= 2 * (w - g.rto) <= c.rx_rto
            &&& !c.nodelay ==> w >= 2 * g.rto && w >= g.rto + c.rx_rto && (w == 2 * g.rto || w
                == g.rto + c.rx_rto)
        }),
{
    let half = (c.rx_rto / 2) as int;
    let more = model::max(g.rto as int, c.rx_rto as int);
    lemma_later(g.rto, half);
    lemma_later(g.rto, more);
    assert(model::resend_kind(g, c) is Timeout);
    let rto = model::next_rto(g, c);
    assert(rto == g.rto + (if c.nodelay {
        half
    } else {
        more
    }));
    lemma_later(c.current, rto as int);
}

/// A segment that enough later ones have overtaken goes out again before its
/// time, unless it did so too often; it then waits for the measured timeout,
/// and its count starts anew.
pub proof fn law_overtaken_segments_go_early(g: Segment, c: Round)
    requires
        0 < g.xmit < u32::MAX,
        g.fastack > 0,
        g.fastack >= c.resent && (g.xmit <= c.fastlimit || c.fastlimit == 0) || (g.fastack
            < c.resent && !c.fresh),
        c.rx_rto <= 60_000,
    ensures
        ({
            let h = model::after_round(g, c);
            went_out(g, h, c) && h.fastack == 0 && wait_of(h, c) == c.rx_rto && h.rto == c.rx_rto
        }),
{
}

/// Nothing goes out twice without a reason: a segment that has time left stays
/// as it is while no later one has overtaken it, while too few have and there
/// is new data to send, or once it went out early too often.
pub proof fn law_waiting_segments_stay(g: Segment, c: Round)
    requires
        g.xmit > 0,
        model::difference(c.current, g.resendts) < 0,
        g.fastack == 0 < c.resent || (g.fastack < c.resent && c.fresh) || (g.fastack >= c.resent
            && g.xmit > c.fastlimit > 0),
    ensures
        model::after_round(g, c) == g,
{
}

/// A segment that just went out goes out again in a later flush if and only if
/// its wait is over by then, as long as no later segment overtook it.
pub proof fn law_waits_are_kept(g: Segment, c: Round, later: Round)
    requires
        g.xmit == 0 && g.fastack == 0,
        c.rx_rto <= 60_000,
        later.resent > 0,
        0 <= model::difference(later.current, c.current) < 0x4000_0000,
    ensures
        ({
            let h = model::after_round(g, c);
            let again = model::after_round(h, later);
            let passed = model::difference(later.current, c.current);
            &&& passed < c.rx_rto ==> again == h
            &&& passed >= c.rx_rto + c.rx_rto / 8 ==> went_out(h, again, later)
        }),
{
}

// ── windows ─────────────────────────────────────────────────────────────

proof fn lemma_admitted_fresh(s: State, cwnd: u16, wnd: u16)
    ensures
        ({
            let t = model::admitted(s, cwnd, wnd);
            let n = s.snd_buf.len();
            &&& t.snd_buf.len() - n + t.snd_queue.len() == s.snd_queue.len()
            &&& t.snd_buf.len() >= n
            &&& forall|i: int| 0 <= i < n ==> #[trigger] t.snd_buf[i] == s.snd_buf[i]
            &&& forall|i: int|
                n <= i < t.snd_buf.len() ==> (#[trigger] t.snd_buf[i]).xmit == 0
                    && t.snd_buf[i].fastack == 0 && t.snd_buf[i].cmd == 81 && t.snd_buf[i].conv
                    == s.conv && t.snd_buf[i].sn == model::plus(s.snd_nxt, i - n)
                    && t.snd_buf[i].frg == s.snd_queue[i - n].frg && t.snd_buf[i].data
                    == s.snd_queue[i - n].data
        }),
    decreases s.snd_queue.len(),
{
    if model::difference(s.snd_nxt, model::plus(s.snd_una, cwnd as int)) < 0 && s.snd_queue.len()
        > 0 {
        let g = model::numbered(s, s.snd_queue[0], wnd);
        let t = State {
            snd_queue: s.snd_queue.drop_first(),
            snd_buf: s.snd_buf.push(g),
            snd_nxt: model::plus(s.snd_nxt, 1),
            ..s
        };
        lemma_admitted_fresh(t, cwnd, wnd);
        let u = model::admitted(s, cwnd, wnd);
        let n = s.snd_buf.len() as int;
        assert(u.snd_buf[n] == t.snd_buf[n]);
        assert forall|i: int| 0 <= i < n implies #[trigger] u.snd_buf[i] == s.snd_buf[i] by {
            assert(t.snd_buf[i] == s.snd_buf[i]);
        }
    }
}

/// The send buffer as a flush goes through it: what was there, then new
/// segments from the front of the queue under the next numbers.
pub proof fn lemma_prepared_fresh(s: State)
    ensures
        ({
            let t = model::prepared(s);
            let n = s.snd_buf.len();
            &&& t.snd_buf.len() - n + t.snd_queue.len() == s.snd_queue.len()
            &&& t.snd_buf.len() >= n
            &&& forall|i: int| 0 <= i < n ==> #[trigger] t.snd_buf[i] == s.snd_buf[i]
            &&& forall|i: int|
                n <= i < t.snd_buf.len() ==> (#[trigger] t.snd_buf[i]).xmit == 0
                    && t.snd_buf[i].fastack == 0 && t.snd_buf[i].cmd == 81 && t.snd_buf[i].conv
                    == s.conv && t.snd_buf[i].sn == model::plus(s.snd_nxt, i - n)
                    && t.snd_buf[i].frg == s.snd_queue[i - n].frg && t.snd_buf[i].data
                    == s.snd_queue[i - n].data
        }),
{
    validity::lemma_acks_emitted(s, model::control_segment(s), s.acklist.len());
    let t = model::probes_flushed(
        model::probe_scheduled(model::acks_flushed(s)),
        model::last_header(s),
    );
    lemma_admitted_fresh(t, model::effective_window(t), model::unused_window(s));
}

proof fn lemma_flushed_window(s: State)
    ensures
        ({
            let p = model::prepared(s);
            let c = model::round_of(s);
            let t = model::flushed(s);
            let u = model::adjusted(
                State { snd_nxt: p.snd_nxt, ..s },
                model::some_fast(p.snd_buf, c),
                model::some_timeout(p.snd_buf, c),
                model::effective_window(s),
                c.resent,
            );
            &&& t.cwnd == u.cwnd
            &&& t.incr == u.incr
            &&& t.ssthresh == u.ssthresh
            &&& t.snd_nxt == p.snd_nxt
            &&& t.snd_una == s.snd_una
        }),
{
    reveal(model::flushed);
    let p = model::prepared(s);
    validity::lemma_prepared(s);
    validity::lemma_transmitted(p, model::round_of(s), p.snd_buf.len());
}

/// Where a timeout tells of loss, the congestion window closes to one segment,
/// to open again slowly up to half of what could be in flight, or two.
pub proof fn law_loss_closes_the_window(s: State, i: int)
    requires
        0 <= i < s.snd_buf.len(),
        s.snd_buf[i].xmit > 0,
        s.snd_buf[i].fastack == 0,
        model::difference(s.current, s.snd_buf[i].resendts) >= 0,
    ensures
        ({
            let t = model::flushed(s);
            &&& t.cwnd == 1
            &&& t.incr == s.mss
            &&& t.ssthresh >= 2
            &&& t.ssthresh == 2 || 2 * t.ssthresh <= s.snd_wnd && 2 * t.ssthresh <= s.rmt_wnd && (
            s.nocwnd || 2 * t.ssthresh <= s.cwnd)
            &&& 2 * t.ssthresh + 1 >= s.snd_wnd || 2 * t.ssthresh + 1 >= s.rmt_wnd || (!s.nocwnd
                && 2 * t.ssthresh + 1 >= s.cwnd)
        }),
{
    let p = model::prepared(s);
    let c = model::round_of(s);
    lemma_flushed_window(s);
    lemma_prepared_fresh(s);
    assert(model::resend_kind(p.snd_buf[i], c) is Timeout);
}

proof fn lemma_adjusted_fast(s: State, cwnd: u16, resent: u32)
    requires
        resent < 0x8000,
        model::ahead(s.snd_nxt, s.snd_una) < 0x1_0000,
    ensures
        ({
            let t = model::adjusted(s, true, false, cwnd, resent);
            let flying = model::ahead(s.snd_nxt, s.snd_una);
            &&& t.ssthresh >= 2
            &&& t.ssthresh == 2 || 2 * t.ssthresh <= flying
            &&& 2 * t.ssthresh + 1 >= flying
            &&& t.cwnd == t.ssthresh + resent
            &&& t.incr == model::capped_product(t.cwnd as int, s.mss as int)
        }),
{
}

/// Where segments were overtaken, and none timed out, half of what is in flight
/// becomes the slow start threshold, two at least, and the congestion window
/// lies above it by as many as overtook.
pub proof fn law_overtaking_halves_the_window(s: State, i: int)
    requires
        0 <= i < s.snd_buf.len(),
        0 < s.snd_buf[i].xmit <= s.fastlimit,
        0 < s.fastresend <= s.snd_buf[i].fastack,
        s.fastresend < 0x8000,
        forall|j: int|
            0 <= j < s.snd_buf.len() ==> model::difference(
                s.current,
                (#[trigger] s.snd_buf[j]).resendts,
            ) < 0,
        model::ahead(model::flushed(s).snd_nxt, s.snd_una) < 0x1_0000,
    ensures
        ({
            let t = model::flushed(s);
            let flying = model::ahead(t.snd_nxt, t.snd_una);
            &&& t.ssthresh >= 2
            &&& t.ssthresh == 2 || 2 * t.ssthresh <= flying
            &&& 2 * t.ssthresh + 1 >= flying
            &&& t.cwnd == t.ssthresh + s.fastresend
            &&& t.cwnd * s.mss <= usize::MAX ==> t.incr == t.cwnd * s.mss
        }),
{
    let p = model::prepared(s);
    let c = model::round_of(s);
    lemma_flushed_window(s);
    lemma_prepared_fresh(s);
    assert(model::resend_kind(p.snd_buf[i], c) is Fast);
    lemma_adjusted_fast(
        State { snd_nxt: p.snd_nxt, ..s },
        model::effective_window(s),
        c.resent,
    );
    assert forall|j: int| 0 <= j < p.snd_buf.len() implies !(model::resend_kind(
        #[trigger] p.snd_buf[j],
        c,
    ) is Timeout) by {
        if j < s.snd_buf.len() {
            assert(p.snd_buf[j] == s.snd_buf[j]);
        }
    }
}

/// Where nothing timed out and nothing was overtaken, a flush leaves the
/// congestion window as it is, but for opening it to one segment.
pub proof fn law_quiet_flush_keeps_the_window(s: State)
    requires
        forall|j: int|
            0 <= j < s.snd_buf.len() ==> (#[trigger] s.snd_buf[j]).fastack == 0 && (
            s.snd_buf[j].xmit == 0 || model::difference(s.current, s.snd_buf[j].resendts) < 0),
    ensures
        model::flushed(s).cwnd == (if s.cwnd == 0 {
            1
        } else {
            s.cwnd
        }),
        model::flushed(s).ssthresh == s.ssthresh,
{
    let p = model::prepared(s);
    let c = model::round_of(s);
    lemma_flushed_window(s);
    lemma_prepared_fresh(s);
    assert forall|j: int| 0 <= j < p.snd_buf.len() implies {
        &&& !(model::resend_kind(#[trigger] p.snd_buf[j], c) is Timeout)
        &&& !(model::resend_kind(p.snd_buf[j], c) is Fast)
        &&& !(model::resend_kind(p.snd_buf[j], c) is Early)
    } by {
        if j < s.snd_buf.len() {
            assert(p.snd_buf[j] == s.snd_buf[j]);
        }
    }
}

/// New acknowledgements open the congestion window: by one segment each time
/// below the slow start threshold, never beyond the peer's window, and never
/// without something newly acknowledged.
pub proof fn law_acknowledgements_open_the_window(s: State, old_una: u32)
    requires
        s.mss >= 1,
    ensures
        ({
            let t = model::grown(s, old_una);
            &&& model::difference(s.snd_una, old_una) <= 0 ==> t == s
            &&& s.cwnd >= s.rmt_wnd ==> t == s
            &&& s.cwnd < s.rmt_wnd ==> t.cwnd <= s.rmt_wnd
            &&& s.cwnd < s.rmt_wnd && s.cwnd < s.ssthresh && model::difference(s.snd_una, old_una)
                > 0 ==> t.cwnd == s.cwnd + 1 && (s.incr + s.mss <= usize::MAX ==> t.incr == s.incr
                + s.mss)
            &&& t == (State { cwnd: t.cwnd, incr: t.incr, ..s })
        }),
{
}

/// Above the slow start threshold the window opens slowly: the bytes counted
/// grow by a sixteenth of a segment, and by as much of a segment as a segment is
/// of what was counted; the window follows them, and opens once another segment
/// fits.
pub proof fn law_congestion_avoidance_is_slow(s: State, old_una: u32)
    requires
        1 <= s.mss <= 65_535,
        s.mss <= s.incr < (s.cwnd + 1) * s.mss,
        s.cwnd >= s.ssthresh,
        s.cwnd < s.rmt_wnd <= 65_000,
        model::difference(s.snd_una, old_una) > 0,
    ensures
        ({
            let t = model::grown(s, old_una);
            let step = t.incr - s.incr - s.mss / 16;
            &&& t.cwnd != s.rmt_wnd ==> 0 <= step <= s.mss
            &&& t.cwnd != s.rmt_wnd ==> step * s.incr <= s.mss * s.mss < (step + 1) * s.incr
            &&& s.cwnd <= t.cwnd <= s.rmt_wnd
            &&& s.cwnd < t.cwnd < s.rmt_wnd ==> (t.cwnd - 1) * s.mss < t.incr <= t.cwnd * s.mss
            &&& t.cwnd == s.cwnd ==> t.incr < (s.cwnd + 1) * s.mss
        }),
{
    let incr = s.incr as int;
    let m = s.mss as int;
    assert(0 <= (m * m) / incr <= m) by (nonlinear_arith)
        requires
            1 <= m <= incr,
    ;
    let share = (m * m) / incr;
    assert(share * incr <= m * m < (share + 1) * incr) by (nonlinear_arith)
        requires
            share == (m * m) / incr,
            1 <= incr,
    ;
    let step = share + m / 16;
    assert(model::max(incr, m) == incr);
    let total = incr + step;
    let w = s.cwnd as int;
    assert((w + 1) * m <= 65_000 * 65_535) by (nonlinear_arith)
        requires
            0 <= w < 65_000,
            1 <= m <= 65_535,
    ;
    assert(model::capped_sum(incr, step) == total);
    if (s.cwnd + 1) * m <= total {
        let q = model::ceil_div(total, m);
        assert((q - 1) * m < total <= q * m) by (nonlinear_arith)
            requires
                m >= 1,
                q == (if total % m == 0 {
                    total / m
                } else {
                    total / m + 1
                }),
        ;
        assert(w + 1 <= q <= w + 3) by (nonlinear_arith)
            requires
                m >= 1,
                (q - 1) * m < total <= q * m,
                (w + 1) * m <= total < (w + 1) * m + m + m,
        ;
        assert(s.cwnd + 1 == w + 1);
    }
}

/// A flush leaves nothing in the queue that the windows have room for: what is
/// left waits because as much is in flight as the send window, the peer's
/// window or the congestion window allows.
pub proof fn law_flush_fills_the_window(s: State)
    requires
        model::valid(s),
    ensures
        ({
            let t = model::flushed(s);
            let flying = model::ahead(t.snd_nxt, t.snd_una);
            t.snd_queue.len() == 0 || flying >= s.snd_wnd || flying >= s.rmt_wnd || (!s.nocwnd
                && flying >= s.cwnd)
        }),
{
    reveal(model::flushed);
    let p = model::prepared(s);
    validity::lemma_prepared(s);
    validity::lemma_transmitted(p, model::round_of(s), p.snd_buf.len());
    validity::lemma_before_admission(s);
    validity::lemma_acks_emitted(s, model::control_segment(s), s.acklist.len());
    validity::lemma_probes_valid(s);
    let t = model::probes_flushed(
        model::probe_scheduled(model::acks_flushed(s)),
        model::last_header(s),
    );
    lemma_admitted_full(t, model::effective_window(t), model::unused_window(s));
}

proof fn lemma_admitted_full(s: State, cwnd: u16, wnd: u16)
    requires
        model::valid(s),
    ensures
        ({
            let t = model::admitted(s, cwnd, wnd);
            t.snd_queue.len() == 0 || model::ahead(t.snd_nxt, s.snd_una) >= cwnd
        }),
    decreases s.snd_queue.len(),
{
    if model::difference(s.snd_nxt, model::plus(s.snd_una, cwnd as int)) < 0 && s.snd_queue.len()
        > 0 {
        let g = model::numbered(s, s.snd_queue[0], wnd);
        let t = State {
            snd_queue: s.snd_queue.drop_first(),
            snd_buf: s.snd_buf.push(g),
            snd_nxt: model::plus(s.snd_nxt, 1),
            ..s
        };
        validity::lemma_one_more_valid(s, g, cwnd);
        lemma_admitted_full(t, cwnd, wnd);
    }
}

// ── timers ──────────────────────────────────────────────────────────────

/// Flushes come at the configured interval: one is due when the timer runs out
/// or the clock jumped, the first at once, and the next then lies ahead by at
/// most an interval; before that the timer stays.
pub proof fn law_flushes_keep_the_interval(s: State, current: u32)
    requires
        10 <= s.interval <= 5000,
    ensures
        ({
            let t = model::timed(s, current);
            let due = model::flush_time(s.updated, s.ts_flush, s.interval, current).1;
            let late = model::difference(current, s.ts_flush);
            &&& t.current == current && t.updated
            &&& !s.updated ==> due
            &&& s.updated ==> (due <==> late >= 0 || late < -10_000)
            &&& due ==> 0 < model::difference(t.ts_flush, current) <= s.interval
            &&& !due ==> t.ts_flush == s.ts_flush
            &&& s.updated && 0 <= late < s.interval ==> model::difference(t.ts_flush, s.ts_flush)
                == s.interval
            &&& !s.updated ==> model::difference(t.ts_flush, current) == s.interval
            &&& model::updated_at(s, current) == (if due {
                model::flushed(t)
            } else {
                t
            })
        }),
{
    let i = s.interval as int;
    let late = model::difference(current, s.ts_flush);
    lemma_later(current, i);
    lemma_later(s.ts_flush, i);
    if s.updated && 0 <= late < 10_000 {
        lemma_differences(current, model::plus(s.ts_flush, i), s.ts_flush);
        lemma_opposite(current, model::plus(s.ts_flush, i));
    }
    lemma_opposite(current, model::plus(current, i));
}

proof fn lemma_opposite(a: u32, b: u32)
    requires
        -0x4000_0000 < model::difference(a, b) < 0x4000_0000 || -0x4000_0000 < model::difference(
            b,
            a,
        ) < 0x4000_0000,
    ensures
        model::difference(b, a) == -model::difference(a, b),
{
}

/// An update as late as the timer says flushes, and the one after it an
/// interval later does too: no data waits longer than an interval.
pub proof fn law_no_flush_is_skipped(s: State, current: u32, later: u32)
    requires
        10 <= s.interval <= 5000,
        model::flush_time(s.updated, s.ts_flush, s.interval, current).1,
        s.interval <= model::difference(later, current) < 0x4000_0000,
    ensures
        model::flush_time(true, model::timed(s, current).ts_flush, s.interval, later).1,
{
    law_flushes_keep_the_interval(s, current);
    lemma_differences(later, model::timed(s, current).ts_flush, current);
}

proof fn lemma_differences(a: u32, b: u32, base: u32)
    requires
        0 <= model::difference(a, base) < 0x4000_0000,
        0 <= model::difference(b, base) < 0x4000_0000,
    ensures
        model::difference(a, b) == model::difference(a, base) - model::difference(b, base),
{
}

/// While the peer has no room it is asked now and then: first after seven
/// seconds, then at intervals that grow by half up to two minutes; as soon as
/// it has room the asking ends.
pub proof fn law_closed_windows_are_probed(s: State)
    requires
        s.probe_wait <= 120_000,
    ensures
        ({
            let t = model::probe_scheduled(s);
            let due = model::difference(s.current, s.ts_probe) >= 0;
            &&& s.rmt_wnd > 0 ==> t.probe_wait == 0 && t.ts_probe == 0 && t.probe == s.probe
            &&& s.rmt_wnd == 0 && s.probe_wait == 0 ==> t.probe_wait == 7_000 && t.probe == s.probe
                && model::difference(t.ts_probe, s.current) == 7_000
            &&& s.rmt_wnd == 0 && s.probe_wait > 0 && !due ==> t == s
            &&& s.rmt_wnd == 0 && s.probe_wait > 0 && due ==> {
                &&& t.probe == s.probe | 1
                &&& model::difference(t.ts_probe, s.current) == t.probe_wait
                &&& s.probe_wait <= t.probe_wait <= 120_000
                &&& t.probe_wait == 120_000 || (2 * t.probe_wait <= 3 * s.probe_wait || s.probe_wait
                    < 7_000) && 2 * t.probe_wait + 1 >= 3 * s.probe_wait && t.probe_wait >= 10_500
            }
        }),
{
}

// ── whole flushes ───────────────────────────────────────────────────────

proof fn lemma_flushed_segment(s: State, j: int)
    requires
        0 <= j < model::prepared(s).snd_buf.len(),
    ensures
        model::flushed(s).snd_buf.len() == model::prepared(s).snd_buf.len(),
        model::flushed(s).snd_buf[j] == model::after_round(
            model::prepared(s).snd_buf[j],
            model::round_of(s),
        ),
{
    reveal(model::flushed);
    let p = model::prepared(s);
    validity::lemma_prepared(s);
    validity::lemma_transmitted(p, model::round_of(s), p.snd_buf.len());
}

/// Whether a segment went out in a flush of `s`: counted once more, stamped with
/// the time, and telling what its sender expects next and has room for.
pub open spec fn sent_in(s: State, g: Segment, h: Segment) -> bool {
    &&& h.xmit == g.xmit + 1
    &&& h.ts == s.current
    &&& h.una == s.rcv_nxt
    &&& h.wnd == (if s.rcv_queue.len() < s.rcv_wnd {
        s.rcv_wnd - s.rcv_queue.len()
    } else {
        0
    })
    &&& h.conv == g.conv && h.cmd == g.cmd && h.sn == g.sn && h.frg == g.frg && h.data == g.data
}

/// The circumstances of a flush as far as they are those of the state.
proof fn lemma_round(s: State)
    ensures
        ({
            let c = model::round_of(s);
            &&& c.current == s.current && c.rx_rto == s.rx_rto && c.nodelay == s.nodelay
            &&& c.una == s.rcv_nxt && c.fastlimit == s.fastlimit && c.resent > 0
            &&& c.wnd == (if s.rcv_queue.len() < s.rcv_wnd {
                s.rcv_wnd - s.rcv_queue.len()
            } else {
                0
            })
        }),
{
}

proof fn lemma_flushed_len(s: State)
    ensures
        model::flushed(s).snd_buf.len() == model::prepared(s).snd_buf.len(),
{
    reveal(model::flushed);
    let p = model::prepared(s);
    validity::lemma_prepared(s);
    validity::lemma_transmitted(p, model::round_of(s), p.snd_buf.len());
}

/// Whether a flush of `s` goes by the circumstances `c`.
spec fn goes_by(s: State, c: Round) -> bool {
    &&& c.current == s.current && c.rx_rto == s.rx_rto && c.nodelay == s.nodelay
    &&& c.una == s.rcv_nxt && c.resent > 0
    &&& c.wnd == (if s.rcv_queue.len() < s.rcv_wnd {
        s.rcv_wnd - s.rcv_queue.len()
    } else {
        0
    })
}

proof fn lemma_new_goes_out(s: State, g: Segment, c: Round)
    requires
        goes_by(s, c),
        g.xmit == 0,
        s.rx_rto <= 60_000,
    ensures
        ({
            let h = model::after_round(g, c);
            let w = model::difference(h.resendts, s.current);
            &&& sent_in(s, g, h)
            &&& h.rto == s.rx_rto
            &&& if s.nodelay {
                w == s.rx_rto
            } else {
                w == s.rx_rto + s.rx_rto / 8
            }
        }),
{
}

proof fn lemma_old_goes_out(s: State, g: Segment, c: Round)
    requires
        goes_by(s, c),
        0 < g.xmit < u32::MAX,
        g.fastack == 0,
        s.rx_rto <= 60_000,
        g.rto <= 0x2000_0000,
    ensures
        ({
            let h = model::after_round(g, c);
            let w = model::difference(h.resendts, s.current);
            let due = model::difference(s.current, g.resendts) >= 0;
            &&& !due ==> h == g
            &&& due ==> sent_in(s, g, h)
            &&& due && s.nodelay ==> s.rx_rto - 1 <= 2 * (w - g.rto) <= s.rx_rto
            &&& due && !s.nodelay ==> w >= 2 * g.rto && w >= g.rto + s.rx_rto && (w == 2 * g.rto
                || w == g.rto + s.rx_rto)
        }),
{
    if model::difference(s.current, g.resendts) >= 0 {
        law_timeouts_back_off(g, c);
    }
}

/// What a flush takes from the queue goes out at once, under the next numbers
/// and in the order of the queue, and waits for the measured timeout.
pub proof fn law_flush_sends_new_data(s: State, j: int)
    requires
        s.snd_buf.len() <= j < model::flushed(s).snd_buf.len(),
        s.rx_rto <= 60_000,
    ensures
        ({
            let h = model::flushed(s).snd_buf[j];
            let k = j - s.snd_buf.len();
            let w = model::difference(h.resendts, s.current);
            &&& k < s.snd_queue.len()
            &&& h.data == s.snd_queue[k].data && h.frg == s.snd_queue[k].frg
            &&& h.sn == model::plus(s.snd_nxt, k) && h.cmd == 81 && h.conv == s.conv
            &&& sent_in(s, Segment { xmit: 0, ..h }, h)
            &&& h.rto == s.rx_rto
            &&& if s.nodelay {
                w == s.rx_rto
            } else {
                w == s.rx_rto + s.rx_rto / 8
            }
        }),
{
    lemma_flushed_len(s);
    lemma_prepared_fresh(s);
    lemma_flushed_segment(s, j);
    lemma_round(s);
    lemma_new_goes_out(s, model::prepared(s).snd_buf[j], model::round_of(s));
}

/// What timed out goes out again, and then waits longer; what has time left and
/// was not overtaken stays as it is.
pub proof fn law_flush_resends_what_timed_out(s: State, j: int)
    requires
        0 <= j < s.snd_buf.len(),
        0 < s.snd_buf[j].xmit < u32::MAX,
        s.snd_buf[j].fastack == 0,
        s.rx_rto <= 60_000,
        s.snd_buf[j].rto <= 0x2000_0000,
    ensures
        ({
            let g = s.snd_buf[j];
            let h = model::flushed(s).snd_buf[j];
            let w = model::difference(h.resendts, s.current);
            let due = model::difference(s.current, g.resendts) >= 0;
            &&& !due ==> h == g
            &&& due ==> sent_in(s, g, h)
            &&& due && s.nodelay ==> s.rx_rto - 1 <= 2 * (w - g.rto) <= s.rx_rto
            &&& due && !s.nodelay ==> w >= 2 * g.rto && w >= g.rto + s.rx_rto && (w == 2 * g.rto
                || w == g.rto + s.rx_rto)
        }),
{
    lemma_prepared_fresh(s);
    lemma_flushed_segment(s, j);
    lemma_round(s);
    lemma_old_goes_out(s, s.snd_buf[j], model::round_of(s));
}

/// What enough later segments overtook goes out again before its time: as many
/// as configured, or a single one where the flush has nothing new to send.
pub proof fn law_flush_resends_what_was_overtaken(s: State, j: int)
    requires
        0 <= j < s.snd_buf.len(),
        0 < s.snd_buf[j].xmit < u32::MAX,
        s.snd_buf[j].fastack > 0,
        s.rx_rto <= 60_000,
        (0 < s.fastresend <= s.snd_buf[j].fastack && s.snd_buf[j].xmit <= s.fastlimit) || ((
        s.fastresend == 0 || s.snd_buf[j].fastack < s.fastresend) && s.snd_buf[j].fastack
            < u32::MAX && s.snd_queue.len() == 0),
    ensures
        ({
            let h = model::flushed(s).snd_buf[j];
            sent_in(s, s.snd_buf[j], h) && h.fastack == 0 && model::difference(
                h.resendts,
                s.current,
            ) == s.rx_rto
        }),
{
    lemma_prepared_fresh(s);
    lemma_flushed_segment(s, j);
}

// ── settings ────────────────────────────────────────────────────────────

/// A link without delays takes 30 ms as the least timeout, another 100 ms; the
/// interval stays between 10 ms and 5 s; a negative threshold changes nothing.
pub proof fn law_tuning(s: State, nodelay: bool, interval: int, resend: int, nc: bool)
    requires
        -0x8000_0000 <= interval < 0x8000_0000,
        -0x8000_0000 <= resend < 0x8000_0000,
    ensures
        ({
            let t = model::tuned(s, nodelay, interval, resend, nc);
            &&& t.rx_minrto == (if nodelay {
                30int
            } else {
                100
            })
            &&& 10 <= t.interval <= 5000
            &&& 10 <= interval <= 5000 ==> t.interval == interval
            &&& interval < 10 ==> t.interval == 10
            &&& interval > 5000 ==> t.interval == 5000
            &&& resend >= 0 ==> t.fastresend == resend
            &&& resend < 0 ==> t.fastresend == s.fastresend
            &&& t.nodelay == nodelay && t.nocwnd == nc
        }),
{
}

/// A window of zero stays as it was; the receive window holds at least the 128
/// segments of the longest message.
pub proof fn law_resizing(s: State, snd: u16, rcv: u16)
    ensures
        ({
            let t = model::resized(s, snd, rcv);
            &&& snd > 0 ==> t.snd_wnd == snd
            &&& snd == 0 ==> t.snd_wnd == s.snd_wnd
            &&& rcv >= 128 ==> t.rcv_wnd == rcv
            &&& 0 < rcv < 128 ==> t.rcv_wnd == 128
            &&& rcv == 0 ==> t.rcv_wnd == s.rcv_wnd
        }),
{
}

/// A new session is a fresh end of a link, tuned and sized as its configuration
/// says.
pub proof fn law_sessions_are_configured(conv: u32, config: KcpConfig)
    requires
        config.mtu >= 50,
    ensures
        session::fresh(conv, config).kcp == model::resized(
            model::tuned(
                State {
                    mtu: config.mtu,
                    mss: (config.mtu - 24) as usize,
                    ..model::initial(conv, config.stream, Seq::empty())
                },
                config.nodelay.nodelay,
                config.nodelay.interval as int,
                config.nodelay.resend as int,
                config.nodelay.nc,
            ),
            config.wnd_size.0,
            config.wnd_size.1,
        ),
{
}

/// No window is exceeded: what a flush adds to what is in flight stays within
/// the send window, the peer's window, and the congestion window unless that is
/// switched off.
pub proof fn law_flush_exceeds_no_window(s: State)
    requires
        model::valid(s),
    ensures
        ({
            let before = model::ahead(s.snd_nxt, s.snd_una);
            let after = model::ahead(model::flushed(s).snd_nxt, model::flushed(s).snd_una);
            after > before ==> after <= s.snd_wnd && after <= s.rmt_wnd && (s.nocwnd || after
                <= s.cwnd)
        }),
{
    laws::law_flush_respects_the_window(s);
    assert(model::effective_window(s) <= s.snd_wnd && model::effective_window(s) <= s.rmt_wnd && (
    s.nocwnd || model::effective_window(s) <= s.cwnd));
}

} // verus!
