//! How writes become segments and segments become datagrams: nothing is sent in
//! more pieces than it has to be.
use vstd::prelude::*;

use super::answers;
use super::laws;
use super::model;
use super::model::{Round, Segment, State};
use super::validity;

verus! {

// ── segments ────────────────────────────────────────────────────────────

/// A message is taken if and only if it fits into 127 segments.
pub proof fn law_long_messages_are_refused(s: State, data: Seq<u8>)
    requires
        s.mss >= 1,
        !s.stream,
    ensures
        model::sent(s, data).1 <==> data.len() <= 127 * s.mss,
        !model::sent(s, data).1 ==> model::sent(s, data).0 == s,
{
    let n = data.len() as int;
    let m = s.mss as int;
    assert(data.skip(0) =~= data);
    lemma_count(n, m);
}

proof fn lemma_count(n: int, m: int)
    requires
        n >= 0,
        m >= 1,
    ensures
        n > m ==> {
            let q = model::ceil_div(n, m);
            (q - 1) * m < n <= q * m && (q < 128 <==> n <= 127 * m)
        },
{
    if n > m {
        let q = model::ceil_div(n, m);
        assert((q - 1) * m < n <= q * m) by (nonlinear_arith)
            requires
                m >= 1,
                q == (if n % m == 0 {
                    n / m
                } else {
                    n / m + 1
                }),
        ;
        assert(q < 128 <==> n <= 127 * m) by (nonlinear_arith)
            requires
                m >= 1,
                (q - 1) * m < n <= q * m,
        ;
    }
}

/// In stream mode segments are filled before new ones begin: of those that a
/// write touches, all but the last are full, and none is marked as a part.
pub proof fn law_stream_writes_fill_segments(s: State, data: Seq<u8>, i: int)
    requires
        s.mss >= 1,
        s.stream,
        s.snd_queue.len() > 0 ==> s.snd_queue.last().data.len() <= s.mss,
        model::sent(s, data).1,
        0 <= i,
        s.snd_queue.len() - 1 <= i < model::sent(s, data).0.snd_queue.len() - 1,
    ensures
        model::sent(s, data).0.snd_queue[i].data.len() == s.mss,
        i >= s.snd_queue.len() ==> model::sent(s, data).0.snd_queue[i].frg == 0,
{
    let t = model::merged(s, data);
    let rest = data.skip(model::merged_len(s, data));
    let u = model::sent(s, data).0;
    let m = s.mss as int;
    let n = rest.len() as int;
    let k = i - s.snd_queue.len();
    assert(t.snd_queue.len() == s.snd_queue.len());
    lemma_count(n, m);
    if rest.len() == 0 {
        assert(u == t);
    } else {
        let f = model::fragments(rest, s.mss, true);
        assert(u.snd_queue == t.snd_queue + f);
        if k >= 0 {
            let q = f.len() as int;
            assert(u.snd_queue[i] == model::fragment(rest, s.mss, true, k));
            assert(n > m);
            assert((k + 1) * m <= (q - 1) * m && (k + 1) * m - k * m == m && 0 <= k * m)
                by (nonlinear_arith)
                requires
                    0 <= k < q - 1,
                    m >= 1,
            ;
        } else {
            assert(u.snd_queue[i] == t.snd_queue[i]);
        }
    }
}

// ── datagrams ───────────────────────────────────────────────────────────

/// How long the first segment of a datagram is.
pub open spec fn first_len(x: Seq<u8>) -> int {
    24 + answers::number4(x, 20)
}

/// Whether the packets from index `n` on, and what waits to become one, are
/// filled: none has room for the segment that the next one starts with.
#[verifier::opaque]
pub open spec fn filled(s: State, n: int) -> bool {
    &&& 0 <= n <= s.packets.len()
    &&& s.buf.len() == 0 || s.buf.len() >= 24
    &&& s.buf.len() == 0 ==> s.packets.len() == n
    &&& forall|i: int|
        n <= i < s.packets.len() - 1 ==> (#[trigger] s.packets[i]).len() + first_len(
            s.packets[i + 1],
        ) > s.mtu
    &&& s.packets.len() > n ==> s.packets.last().len() + first_len(s.buf) > s.mtu
}

proof fn lemma_emitted_filled(s: State, g: Segment, n: int)
    requires
        filled(s, n),
        s.mss + 24 == s.mtu,
        g.data.len() <= s.mss,
        s.mss <= u32::MAX,
    ensures
        filled(model::emitted(s, g), n),
{
    reveal(filled);
    let e = model::encoded(g);
    answers::law_header_layout(g);
    let u = model::emitted(s, g);
    if s.buf.len() + 24 + g.data.len() > s.mtu {
        assert(s.buf.len() > 0);
        assert(u.packets == s.packets.push(s.buf));
        assert(u.buf =~= e);
        assert(first_len(u.buf) == 24 + g.data.len());
        assert forall|i: int| n <= i < u.packets.len() - 1 implies (#[trigger] u.packets[i]).len()
            + first_len(u.packets[i + 1]) > u.mtu by {
            if i < s.packets.len() - 1 {
                assert(u.packets[i] == s.packets[i] && u.packets[i + 1] == s.packets[i + 1]);
            }
        }
    } else {
        assert(u.packets == s.packets);
        assert(u.buf == s.buf + e);
        if s.buf.len() > 0 {
            assert(u.buf[20] == s.buf[20] && u.buf[21] == s.buf[21] && u.buf[22] == s.buf[22]
                && u.buf[23] == s.buf[23]);
            assert(first_len(u.buf) == first_len(s.buf));
        }
    }
}

proof fn lemma_filled_same(s: State, t: State, n: int)
    requires
        filled(s, n),
        t.buf == s.buf,
        t.packets == s.packets,
        t.mtu == s.mtu,
    ensures
        filled(t, n),
{
    reveal(filled);
    assert forall|i: int| n <= i < t.packets.len() - 1 implies (#[trigger] t.packets[i]).len()
        + first_len(t.packets[i + 1]) > t.mtu by {
        assert(t.packets[i] == s.packets[i]);
    }
}

proof fn lemma_acks_filled(s: State, g: Segment, k: nat, n: int)
    requires
        filled(s, n),
        s.mss + 24 == s.mtu,
        s.mss <= u32::MAX,
        g.data.len() == 0,
    ensures
        filled(model::acks_emitted(s, g, k), n),
    decreases k,
{
    if k > 0 {
        lemma_acks_filled(s, g, (k - 1) as nat, n);
        validity::lemma_acks_emitted(s, g, (k - 1) as nat);
        lemma_emitted_filled(
            model::acks_emitted(s, g, (k - 1) as nat),
            model::ack_segment(g, s.acklist[k - 1]),
            n,
        );
    }
}

proof fn lemma_transmitted_filled(s: State, c: Round, k: nat, n: int)
    requires
        filled(s, n),
        s.mss + 24 == s.mtu,
        s.mss <= u32::MAX,
        laws::payloads_fit(s),
        k <= s.snd_buf.len(),
    ensures
        filled(model::transmitted(s, c, k), n),
    decreases k,
{
    if k > 0 {
        let k1 = (k - 1) as nat;
        lemma_transmitted_filled(s, c, k1, n);
        validity::lemma_transmitted(s, c, k1);
        let t = model::transmitted(s, c, k1);
        let g = s.snd_buf[k - 1];
        let h = model::after_round(g, c);
        let v = State { snd_buf: t.snd_buf.update(k - 1, h), ..t };
        let u = State {
            xmit: if model::resend_kind(g, c) is Timeout {
                model::plus(t.xmit, 1)
            } else {
                t.xmit
            },
            dead: t.dead || h.xmit >= c.dead_link,
            ..v
        };
        lemma_filled_same(t, v, n);
        lemma_filled_same(t, u, n);
        if !(model::resend_kind(g, c) is Not) {
            assert(h.data.len() <= s.mss);
            lemma_emitted_filled(u, h, n);
            assert(model::transmitted(s, c, k) == model::emitted(u, h));
        } else {
            assert(model::transmitted(s, c, k) == v);
        }
    }
}

proof fn lemma_probes_filled(s2: State, h: Segment, n: int)
    requires
        filled(s2, n),
        s2.mss + 24 == s2.mtu,
        s2.mss <= u32::MAX,
        h.data.len() == 0,
    ensures
        filled(model::probes_flushed(s2, h), n),
{
    let ask = Segment { cmd: model::KCP_CMD_WASK, ..h };
    let tell = Segment { cmd: model::KCP_CMD_WINS, ..h };
    let t = if s2.probe & model::KCP_ASK_SEND != 0 {
        model::emitted(s2, ask)
    } else {
        s2
    };
    lemma_emitted_filled(s2, ask, n);
    validity::lemma_emitted(s2, ask);
    lemma_emitted_filled(t, tell, n);
    let u = if s2.probe & model::KCP_ASK_TELL != 0 {
        model::emitted(t, tell)
    } else {
        t
    };
    lemma_filled_same(u, State { probe: 0, ..u }, n);
}

proof fn lemma_prepared_filled(s: State)
    requires
        laws::payloads_fit(s),
        s.buf.len() == 0,
        s.mss + 24 == s.mtu,
        s.mss <= u32::MAX,
    ensures
        filled(model::prepared(s), s.packets.len() as int),
        laws::payloads_fit(model::prepared(s)),
        model::prepared(s).mtu == s.mtu,
        model::prepared(s).mss == s.mss,
{
    let n = s.packets.len() as int;
    let g = model::control_segment(s);
    assert(filled(s, n)) by {
        reveal(filled);
    }
    lemma_acks_filled(s, g, s.acklist.len(), n);
    validity::lemma_acks_emitted(s, g, s.acklist.len());
    let s0 = model::acks_emitted(s, g, s.acklist.len());
    let s2 = model::probe_scheduled(model::acks_flushed(s));
    lemma_filled_same(s0, s2, n);
    let h = model::last_header(s);
    lemma_probes_filled(s2, h, n);
    let s3 = model::probes_flushed(s2, h);
    validity::lemma_before_admission(s);
    assert(s3.snd_queue == s.snd_queue && s3.snd_buf == s.snd_buf && s3.mss == s.mss);
    laws::lemma_admitted_fits(s3, model::effective_window(s3), model::unused_window(s));
    validity::lemma_admitted(s3, model::effective_window(s3), model::unused_window(s));
    lemma_filled_same(s3, model::prepared(s), n);
}

proof fn lemma_flushed_packets(s: State)
    ensures
        ({
            let p = model::prepared(s);
            let t = model::transmitted(p, model::round_of(s), p.snd_buf.len());
            model::flushed(s).packets == model::pushed_out(t).packets
        }),
{
    reveal(model::flushed);
}

proof fn lemma_pushed_out_filled(t: State, n: int, i: int)
    requires
        filled(t, n),
        n <= i < model::pushed_out(t).packets.len() - 1,
    ensures
        ({
            let u = model::pushed_out(t);
            u.packets[i].len() + first_len(u.packets[i + 1]) > t.mtu
        }),
{
    reveal(filled);
    let u = model::pushed_out(t);
    if i < t.packets.len() - 1 {
        assert(u.packets[i] == t.packets[i] && u.packets[i + 1] == t.packets[i + 1]);
    } else {
        assert(u.packets[i] == t.packets.last());
        assert(u.packets[i + 1] == t.buf);
    }
}

/// A flush sends no more datagrams than it has to: none of those that it hands
/// out has room for the segment that the next one starts with.
pub proof fn law_datagrams_are_filled(s: State, i: int)
    requires
        model::valid(s),
        laws::payloads_fit(s),
        s.buf.len() == 0,
        s.mss <= u32::MAX,
        s.packets.len() <= i < model::flushed(s).packets.len() - 1,
    ensures
        model::flushed(s).packets[i].len() + first_len(model::flushed(s).packets[i + 1]) > s.mtu,
{
    let p = model::prepared(s);
    let c = model::round_of(s);
    let k = p.snd_buf.len();
    let t = model::transmitted(p, c, k);
    lemma_flushed_packets(s);
    assert(filled(t, s.packets.len() as int)) by {
        lemma_prepared_filled(s);
        lemma_transmitted_filled(p, c, k, s.packets.len() as int);
    }
    assert(t.mtu == s.mtu) by {
        lemma_prepared_filled(s);
        validity::lemma_transmitted(p, c, k);
    }
    lemma_pushed_out_filled(t, s.packets.len() as int, i);
}

} // verus!
