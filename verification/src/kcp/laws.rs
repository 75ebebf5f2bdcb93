//! What holds of the KCP state machine as a whole.
use vstd::prelude::*;

use super::model;
use super::model::{
    Acks, Round, Segment, State, Step, KCP_CMD_PUSH, KCP_CMD_WASK, KCP_CMD_WINS,
    KCP_OVERHEAD, KCP_WND_RCV,
};
use super::protocol::Error;
use super::validity;
use crate::bytes;

verus! {

// ── wire format ─────────────────────────────────────────────────────────

/// A segment read back from its wire form, wherever that stands in a datagram,
/// has the header and the payload that were written.
#[verifier::spinoff_prover]
#[verifier::rlimit(40)]
pub proof fn law_segment_roundtrip(before: Seq<u8>, g: Segment, behind: Seq<u8>)
    requires
        g.data.len() <= u32::MAX,
    ensures
        ({
            let d = before + model::encoded(g) + behind;
            let pos = before.len() as int;
            &&& model::encoded(g).len() == KCP_OVERHEAD + g.data.len()
            &&& bytes::le32_at(d, pos + 20) == g.data.len()
            &&& model::header_at(d, pos, g.data.len()) == (Segment {
                resendts: 0,
                rto: 0,
                fastack: 0,
                xmit: 0,
                ..g
            })
        }),
{
    let e = model::encoded(g);
    let d = before + e + behind;
    let pos = before.len() as int;
    let n = g.data.len();
    lemma_encoded_parts(g);
    assert(d.subrange(pos, pos + e.len()) =~= e);
    assert forall|a: int, b: int| 0 <= a <= b <= e.len() implies #[trigger] d.subrange(
        pos + a,
        pos + b,
    ) == e.subrange(a, b) by {
        assert(d.subrange(pos + a, pos + b) =~= e.subrange(a, b));
    }
    assert(d.subrange(pos + 0, pos + 4) == bytes::le32(g.conv));
    assert(d.subrange(pos + 6, pos + 8) == bytes::le16(g.wnd));
    assert(d.subrange(pos + 8, pos + 12) == bytes::le32(g.ts));
    assert(d.subrange(pos + 12, pos + 16) == bytes::le32(g.sn));
    assert(d.subrange(pos + 16, pos + 20) == bytes::le32(g.una));
    assert(d.subrange(pos + 20, pos + 24) == bytes::le32(n as u32));
    assert(d.subrange(pos + 24, pos + (24 + n)) == g.data);
    assert(d[pos + 4] == e[4] && d[pos + 5] == e[5]);
    bytes::law_little_endian_roundtrip(d, pos, 0, g.conv);
    bytes::law_little_endian_roundtrip(d, pos + 6, g.wnd, 0);
    bytes::law_little_endian_roundtrip(d, pos + 8, 0, g.ts);
    bytes::law_little_endian_roundtrip(d, pos + 12, 0, g.sn);
    bytes::law_little_endian_roundtrip(d, pos + 16, 0, g.una);
    bytes::law_little_endian_roundtrip(d, pos + 20, 0, n as u32);
}

proof fn lemma_encoded_parts(g: Segment)
    ensures
        ({
            let e = model::encoded(g);
            &&& e.len() == KCP_OVERHEAD + g.data.len()
            &&& e.subrange(0, 4) == bytes::le32(g.conv)
            &&& e[4] == g.cmd
            &&& e[5] == g.frg
            &&& e.subrange(6, 8) == bytes::le16(g.wnd)
            &&& e.subrange(8, 12) == bytes::le32(g.ts)
            &&& e.subrange(12, 16) == bytes::le32(g.sn)
            &&& e.subrange(16, 20) == bytes::le32(g.una)
            &&& e.subrange(20, 24) == bytes::le32((g.data.len() % 0x1_0000_0000) as u32)
            &&& e.subrange(24, 24 + g.data.len() as int) == g.data
        }),
{
    let e = model::encoded(g);
    assert(e.subrange(0, 4) =~= bytes::le32(g.conv));
    assert(e.subrange(6, 8) =~= bytes::le16(g.wnd));
    assert(e.subrange(8, 12) =~= bytes::le32(g.ts));
    assert(e.subrange(12, 16) =~= bytes::le32(g.sn));
    assert(e.subrange(16, 20) =~= bytes::le32(g.una));
    assert(e.subrange(20, 24) =~= bytes::le32((g.data.len() % 0x1_0000_0000) as u32));
    assert(e.subrange(24, 24 + g.data.len() as int) =~= g.data);
}

// ── fragmentation ───────────────────────────────────────────────────────

proof fn lemma_flattened_push(q: Seq<Segment>, g: Segment)
    ensures
        model::flattened(q.push(g)) == model::flattened(q) + g.data,
{
    assert(q.push(g).drop_last() =~= q);
}

pub proof fn lemma_flattened_concat(p: Seq<Segment>, q: Seq<Segment>)
    ensures
        model::flattened(p + q) == model::flattened(p) + model::flattened(q),
    decreases q.len(),
{
    if q.len() == 0 {
        assert(p + q =~= p);
        assert(model::flattened(p + q) =~= model::flattened(p) + model::flattened(q));
    } else {
        lemma_flattened_concat(p, q.drop_last());
        assert((p + q).drop_last() =~= p + q.drop_last());
        assert(model::flattened(p + q) =~= model::flattened(p) + model::flattened(q));
    }
}

proof fn lemma_fragments_prefix(data: Seq<u8>, mss: usize, stream: bool, n: nat)
    requires
        mss > 0,
        n <= model::fragment_count(data.len(), mss),
    ensures
        model::flattened(model::fragments(data, mss, stream).take(n as int)) == data.take(
            model::min(n * mss, data.len() as int),
        ),
    decreases n,
{
    let all = model::fragments(data, mss, stream);
    if n == 0 {
        assert(all.take(0) =~= Seq::<Segment>::empty());
        assert(n * mss == 0) by (nonlinear_arith)
            requires
                n == 0,
        ;
        assert(data.take(0) =~= Seq::<u8>::empty());
    } else {
        let m = (n - 1) as nat;
        lemma_fragments_prefix(data, mss, stream, m);
        assert(all.take(n as int) =~= all.take(m as int).push(all[m as int]));
        lemma_flattened_push(all.take(m as int), all[m as int]);
        assert(n * mss == m * mss + mss) by (nonlinear_arith)
            requires
                n == m + 1,
        ;
        assert(0 <= m * mss) by (nonlinear_arith);
        assert((m + 1) * mss == n * mss);
        let (a, b) = (
            model::min(m * mss, data.len() as int),
            model::min(n * mss, data.len() as int),
        );
        assert(data.take(b) =~= data.take(a) + data.subrange(a, b));
    }
}

proof fn lemma_count_reaches(n: int, mss: int)
    requires
        mss > 0,
        n >= 0,
    ensures
        (if n <= mss {
            1
        } else {
            model::ceil_div(n, mss)
        }) * mss >= n,
        n > mss ==> model::ceil_div(n, mss) >= 1,
{
    vstd::arithmetic::div_mod::lemma_fundamental_div_mod(n, mss);
    vstd::arithmetic::div_mod::lemma_mod_bound(n, mss);
    let q = n / mss;
    assert((q + 1) * mss == q * mss + mss && mss * q == q * mss && 1 * mss == mss)
        by (nonlinear_arith);
    if n > mss && q <= 0 {
        assert(mss * q <= 0) by (nonlinear_arith)
            requires
                q <= 0,
                mss > 0,
        ;
    }
}

/// Splitting loses nothing: the fragments of `data`, joined, are `data`.
pub proof fn law_fragments_hold_the_data(data: Seq<u8>, mss: usize, stream: bool)
    requires
        mss > 0,
    ensures
        model::flattened(model::fragments(data, mss, stream)) == data,
        model::fragments(data, mss, stream).len() >= 1,
        forall|i: int|
            0 <= i < model::fragments(data, mss, stream).len() ==> (#[trigger] model::fragments(
                data,
                mss,
                stream,
            )[i]).data.len() <= mss,
{
    let all = model::fragments(data, mss, stream);
    let n = all.len();
    lemma_count_reaches(data.len() as int, mss as int);
    lemma_fragments_prefix(data, mss, stream, n);
    assert(all.take(n as int) =~= all);
    assert(data.take(data.len() as int) =~= data);
    assert forall|i: int| 0 <= i < n implies (#[trigger] all[i]).data.len() <= mss by {
        assert((i + 1) * mss == i * mss + mss && 0 <= i * mss) by (nonlinear_arith)
            requires
                i >= 0,
        ;
    }
}

/// A message that `send` takes in message mode, once all of its fragments are
/// at the front of a receive queue, is received as it was sent, and the
/// queue behind it is untouched.
pub proof fn law_message_reassembles(data: Seq<u8>, mss: usize, q: Seq<Segment>, rest: Seq<Segment>)
    requires
        mss > 0,
        model::fragment_count(data.len(), mss) < KCP_WND_RCV,
        q.len() == model::fragments(data, mss, false).len(),
        forall|i: int|
            0 <= i < q.len() ==> (#[trigger] q[i]).frg == model::fragments(data, mss, false)[i].frg
                && q[i].data == model::fragments(data, mss, false)[i].data,
    ensures
        model::receive_error(q + rest) is None,
        model::message(q + rest) == data,
        (q + rest).skip(model::message_end(q + rest) as int) == rest,
{
    let all = model::fragments(data, mss, false);
    let w = q + rest;
    law_fragments_hold_the_data(data, mss, false);
    let n = q.len() as int;
    assert forall|i: int| 0 <= i < n implies (#[trigger] w[i]).frg == n - 1 - i by {
        assert(w[i] == q[i]);
        assert(q[i].frg == all[i].frg);
    }
    lemma_countdown_ends(w, n);
    assert(w.take(n) =~= q);
    lemma_same_payloads(q, all);
    assert(w.skip(n) =~= rest);
}

proof fn lemma_countdown_ends(w: Seq<Segment>, n: int)
    requires
        0 < n <= w.len(),
        forall|i: int| 0 <= i < n ==> (#[trigger] w[i]).frg == n - 1 - i,
    ensures
        model::message_end(w) == n,
    decreases n,
{
    assert(w[0].frg == n - 1);
    if n > 1 {
        let t = w.drop_first();
        assert forall|i: int| 0 <= i < n - 1 implies (#[trigger] t[i]).frg == n - 1 - 1 - i by {
            assert(t[i] == w[i + 1]);
        }
        lemma_countdown_ends(t, n - 1);
    }
}

proof fn lemma_same_payloads(p: Seq<Segment>, q: Seq<Segment>)
    requires
        p.len() == q.len(),
        forall|i: int| 0 <= i < p.len() ==> (#[trigger] p[i]).data == q[i].data,
    ensures
        model::flattened(p) == model::flattened(q),
    decreases p.len(),
{
    if p.len() > 0 {
        assert forall|i: int| 0 <= i < p.len() - 1 implies (#[trigger] p.drop_last()[i]).data
            == q.drop_last()[i].data by {
            assert(p.drop_last()[i] == p[i]);
        }
        lemma_same_payloads(p.drop_last(), q.drop_last());
        assert(p[p.len() - 1].data == q[q.len() - 1].data);
    }
}

/// Data that `send` takes is queued behind what was queued, every byte of it
/// and nothing else; in stream mode too, where it fills the last segment first.
pub proof fn law_send_appends_the_data(s: State, data: Seq<u8>)
    requires
        model::valid(s),
        model::sent(s, data).1,
    ensures
        model::flattened(model::sent(s, data).0.snd_queue) == model::flattened(s.snd_queue) + data,
{
    let n = model::merged_len(s, data);
    let t = model::merged(s, data);
    let rest = data.skip(n);
    assert(model::flattened(t.snd_queue) == model::flattened(s.snd_queue) + data.take(n)) by {
        if s.stream && s.snd_queue.len() > 0 && s.snd_queue.last().data.len() < s.mss {
            assert(t.snd_queue.drop_last() =~= s.snd_queue.drop_last());
            assert(model::flattened(t.snd_queue) =~= model::flattened(s.snd_queue) + data.take(n));
        } else {
            assert(data.take(0) =~= Seq::<u8>::empty());
            assert(model::flattened(t.snd_queue) =~= model::flattened(s.snd_queue) + data.take(n));
        }
    }
    let w = model::sent(s, data).0;
    if s.stream && rest.len() == 0 {
        assert(data.take(n) =~= data);
    } else {
        law_fragments_hold_the_data(rest, s.mss, s.stream);
        lemma_flattened_concat(t.snd_queue, model::fragments(rest, s.mss, s.stream));
        assert(model::flattened(w.snd_queue) =~= model::flattened(s.snd_queue) + data);
    }
}

// ── receiving ───────────────────────────────────────────────────────────

/// `t` has what `s` has in its receive queue, and behind it the segments that
/// followed, one after the other.
pub open spec fn continues(s: State, t: State) -> bool {
    &&& t.rcv_queue.len() >= s.rcv_queue.len()
    &&& t.rcv_queue.take(s.rcv_queue.len() as int) == s.rcv_queue
    &&& t.rcv_nxt == model::plus(s.rcv_nxt, t.rcv_queue.len() - s.rcv_queue.len())
}

proof fn lemma_plus_twice(a: u32, m: int, n: int)
    ensures
        model::plus(model::plus(a, m), n) == model::plus(a, m + n),
{
    let x = (a + m) % 0x1_0000_0000;
    assert((x + n) % 0x1_0000_0000 == (a + m + n) % 0x1_0000_0000);
}

proof fn lemma_prefix_transitive(p: Seq<Segment>, q: Seq<Segment>, r: Seq<Segment>)
    requires
        p.len() <= q.len() <= r.len(),
        q.take(p.len() as int) == p,
        r.take(q.len() as int) == q,
    ensures
        r.take(p.len() as int) == p,
{
    assert forall|i: int| 0 <= i < p.len() implies r[i] == p[i] by {
        assert(r.take(q.len() as int)[i] == q[i]);
        assert(q.take(p.len() as int)[i] == p[i]);
    }
    assert(r.take(p.len() as int) =~= p);
}

proof fn lemma_continues_transitive(s: State, t: State, u: State)
    requires
        continues(s, t),
        continues(t, u),
    ensures
        continues(s, u),
{
    lemma_prefix_transitive(s.rcv_queue, t.rcv_queue, u.rcv_queue);
    lemma_plus_twice(
        s.rcv_nxt,
        t.rcv_queue.len() - s.rcv_queue.len(),
        u.rcv_queue.len() - t.rcv_queue.len(),
    );
}

proof fn lemma_same_continues(s: State, t: State)
    requires
        t.rcv_queue == s.rcv_queue,
        t.rcv_nxt == s.rcv_nxt,
    ensures
        continues(s, t),
{
    assert(t.rcv_queue.take(s.rcv_queue.len() as int) =~= s.rcv_queue);
}

proof fn lemma_moved_continues(s: State)
    ensures
        continues(s, model::moved(s)),
    decreases s.rcv_buf.len(),
{
    if model::first_is_ready(s) {
        let t = State {
            rcv_buf: s.rcv_buf.drop_first(),
            rcv_queue: s.rcv_queue.push(s.rcv_buf[0]),
            rcv_nxt: model::plus(s.rcv_nxt, 1),
            ..s
        };
        lemma_moved_continues(t);
        assert(t.rcv_queue.take(s.rcv_queue.len() as int) =~= s.rcv_queue);
        lemma_continues_transitive(s, t, model::moved(s));
    } else {
        lemma_same_continues(s, s);
    }
}

proof fn lemma_step_continues(s: State, a: Acks, d: Seq<u8>, pos: int)
    ensures
        match model::input_step(s, a, d, pos) {
            Step::Fail(t, _) => continues(s, t),
            Step::Next(t, _, _) => continues(s, t),
        },
{
    reveal(model::input_step);
    let conv = bytes::le32_at(d, pos);
    let len = bytes::le32_at(d, pos + 20);
    let g = model::header_at(d, pos, len as nat);
    let s1 = if conv != s.conv {
        State { conv, input_conv: false, ..s }
    } else {
        s
    };
    let s2 = model::shrunk(
        State { rmt_wnd: g.wnd, snd_buf: model::from_una(s1.snd_buf, g.una), ..s1 },
    );
    let s4 = State { acklist: s2.acklist.push((g.sn, g.ts)), ..s2 };
    lemma_same_continues(s, s);
    lemma_same_continues(s, s1);
    lemma_same_continues(s, s2);
    lemma_same_continues(s, s4);
    lemma_stored_continues(s4, g);
    lemma_continues_transitive(s, s4, model::stored(s4, g));
    let rtt = model::difference(s2.current, g.ts);
    let s3 = if rtt >= 0 {
        model::smoothed(s2, rtt)
    } else {
        s2
    };
    lemma_same_continues(s, model::shrunk(model::acknowledged(s3, g.sn)));
    lemma_same_continues(s, State { probe: s2.probe | model::KCP_ASK_TELL, ..s2 });
}

proof fn lemma_stored_continues(s: State, g: Segment)
    ensures
        continues(s, model::stored(s, g)),
{
    lemma_same_continues(s, s);
    if model::in_window(s, g.sn) {
        match model::place(s.rcv_buf, g.sn, s.rcv_buf.len() as int) {
            Some(k) => {
                let t = State { rcv_buf: s.rcv_buf.insert(k, g), ..s };
                lemma_moved_continues(t);
                lemma_same_continues(s, t);
                lemma_continues_transitive(s, t, model::moved(t));
            },
            None => {
                lemma_moved_continues(s);
            },
        }
    }
}

proof fn lemma_input_continues(s: State, a: Acks, d: Seq<u8>, pos: int, old_una: u32)
    ensures
        continues(s, model::input_from(s, a, d, pos, old_una).0),
    decreases d.len() - pos,
{
    if d.len() - pos >= KCP_OVERHEAD {
        lemma_step_continues(s, a, d, pos);
        match model::input_step(s, a, d, pos) {
            Step::Fail(t, e) => {},
            Step::Next(t, b, next) => {
                if next > pos && next <= d.len() {
                    lemma_input_continues(t, b, d, next, old_una);
                    lemma_continues_transitive(
                        s,
                        t,
                        model::input_from(t, b, d, next, old_una).0,
                    );
                }
            },
        }
    } else {
        let t = if a.flag {
            model::skipped(s, a.max_ack, a.latest_ts)
        } else {
            s
        };
        lemma_same_continues(s, model::grown(t, old_una));
    }
}

/// Delivery is in order and without gaps or repeats, whatever arrives: a
/// datagram only appends to the receive queue, and the queue carries the
/// sequence numbers up to `rcv_nxt`, one after the other.
pub proof fn law_delivery_in_order(s: State, d: Seq<u8>)
    requires
        model::valid(s),
    ensures
        continues(s, model::input_all(s, d).0),
        model::receive_queue_in_order(model::input_all(s, d).0),
        model::valid(model::input_all(s, d).0),
{
    lemma_same_continues(s, s);
    if d.len() >= KCP_OVERHEAD {
        let a = Acks { flag: false, max_ack: 0, latest_ts: 0 };
        lemma_input_continues(s, a, d, 0, s.snd_una);
        validity::lemma_input_from_valid(s, a, d, 0, s.snd_una);
    }
}

/// No sequence number is in the receive queue twice.
pub proof fn law_no_duplicate_delivery(s: State, i: int, j: int)
    requires
        model::valid(s),
        0 <= i < j < s.rcv_queue.len(),
    ensures
        s.rcv_queue[i].sn != s.rcv_queue[j].sn,
{
    assert(s.rcv_queue[i].sn == model::plus(s.rcv_nxt, i - s.rcv_queue.len()));
    assert(s.rcv_queue[j].sn == model::plus(s.rcv_nxt, j - s.rcv_queue.len()));
}

/// A segment that was delivered, or is buffered, already is dropped when it
/// arrives again.
pub proof fn law_repeated_segment_is_dropped(s: State, g: Segment)
    requires
        model::valid(s),
        !model::first_is_ready(s),
        model::difference(g.sn, s.rcv_nxt) < 0 || exists|i: int|
            0 <= i < s.rcv_buf.len() && (#[trigger] s.rcv_buf[i]).sn == g.sn,
    ensures
        model::stored(s, g) == s,
{
    if model::in_window(s, g.sn) {
        let i = choose|i: int| 0 <= i < s.rcv_buf.len() && (#[trigger] s.rcv_buf[i]).sn == g.sn;
        lemma_place_finds(s, g.sn, i, s.rcv_buf.len() as int);
    }
}

proof fn lemma_place_finds(s: State, sn: u32, i: int, n: int)
    requires
        model::valid(s),
        0 <= i < n <= s.rcv_buf.len(),
        s.rcv_buf[i].sn == sn,
    ensures
        model::place(s.rcv_buf, sn, n) is None,
    decreases n,
{
    let b = s.rcv_buf;
    if i < n - 1 {
        // Later segments lie ahead of sn.
        let (x, y) = (model::ahead(b[i].sn, s.rcv_nxt), model::ahead(b[n - 1].sn, s.rcv_nxt));
        assert(x < y < 0x1_0000);
        assert(model::difference(sn, b[n - 1].sn) == x - y);
        lemma_place_finds(s, sn, i, n - 1);
    }
}

/// The next segment in order is delivered at once: a datagram that holds it
/// puts its payload behind the queue, as it was sent, and has it acknowledged.
pub proof fn law_next_segment_is_delivered(s: State, g: Segment)
    requires
        model::valid(s),
        s.rcv_buf.len() == 0,
        s.rcv_queue.len() < s.rcv_wnd,
        g.conv == s.conv,
        g.cmd == KCP_CMD_PUSH,
        g.sn == s.rcv_nxt,
        g.data.len() <= s.mss,
        g.data.len() <= u32::MAX,
    ensures
        ({
            let (t, r) = model::input_all(s, model::encoded(g));
            &&& r == Ok::<int, Error>((KCP_OVERHEAD + g.data.len()) as int)
            &&& t.rcv_queue == s.rcv_queue.push(
                Segment { resendts: 0, rto: 0, fastack: 0, xmit: 0, ..g },
            )
            &&& t.rcv_nxt == model::plus(s.rcv_nxt, 1)
            &&& t.rcv_buf.len() == 0
            &&& t.acklist == s.acklist.push((g.sn, g.ts))
        }),
{
    let d = model::encoded(g);
    let e = Seq::<u8>::empty();
    law_segment_roundtrip(e, g, e);
    assert(e + d + e =~= d);
    let h = model::header_at(d, 0, g.data.len());
    let a = Acks { flag: false, max_ack: 0, latest_ts: 0 };
    let s2 = model::shrunk(
        State { rmt_wnd: g.wnd, snd_buf: model::from_una(s.snd_buf, g.una), ..s },
    );
    lemma_push_in_order(s2, a, h);
    let n = d.len() as int;
    assert(bytes::le32_at(d, 0) == h.conv);
    let t = model::command_step(s2, a, h)->Ok_0.0;
    assert(model::input_step(s, a, d, 0) == Step::Next(t, a, n)) by {
        reveal(model::input_step);
    }
    assert(model::input_from(s, a, d, 0, s.snd_una) == model::input_from(t, a, d, n, s.snd_una));
}

proof fn lemma_push_in_order(s: State, a: Acks, h: Segment)
    requires
        s.rcv_buf.len() == 0,
        s.rcv_queue.len() < s.rcv_wnd,
        h.cmd == KCP_CMD_PUSH,
        h.sn == s.rcv_nxt,
        h.data.len() <= s.mss,
    ensures
        model::command_step(s, a, h) matches Ok((t, b)) && {
            &&& b == a
            &&& t.rcv_queue == s.rcv_queue.push(h)
            &&& t.rcv_nxt == model::plus(s.rcv_nxt, 1)
            &&& t.rcv_buf.len() == 0
            &&& t.acklist == s.acklist.push((h.sn, h.ts))
        },
{
    let s4 = State { acklist: s.acklist.push((h.sn, h.ts)), ..s };
    assert(model::difference(h.sn, model::plus(s.rcv_nxt, s.rcv_wnd as int)) < 0);
    assert(model::difference(h.sn, s.rcv_nxt) == 0);
    let s5 = State { rcv_buf: s4.rcv_buf.insert(0, h), ..s4 };
    assert(model::stored(s4, h) == model::moved(s5));
    assert(s5.rcv_buf =~= seq![h]);
    let s6 = State {
        rcv_buf: s5.rcv_buf.drop_first(),
        rcv_queue: s5.rcv_queue.push(h),
        rcv_nxt: model::plus(s5.rcv_nxt, 1),
        ..s5
    };
    assert(model::first_is_ready(s5));
    assert(model::moved(s5) == model::moved(s6));
    assert(s6.rcv_buf.len() == 0);
    assert(model::moved(s6) == s6);
}

// ── sending ─────────────────────────────────────────────────────────────

/// A cumulative acknowledgement takes exactly the segments before `una` out of
/// the send buffer.
pub proof fn law_una_acknowledges_all_before(s: State, una: u32, i: int)
    requires
        model::valid(s),
        model::ahead(una, s.snd_una) <= model::ahead(s.snd_nxt, s.snd_una),
        0 <= i < s.snd_buf.len(),
    ensures
        model::from_una(s.snd_buf, una).contains(s.snd_buf[i]) <==> model::ahead(
            s.snd_buf[i].sn,
            s.snd_una,
        ) >= model::ahead(una, s.snd_una),
{
    let b = s.snd_buf;
    let c = model::from_una(b, una);
    let k = lemma_from_una_cut(b, s.snd_una, una, 0);
    assert(b.skip(0) =~= b);
    assert(c == b.skip(k));
    if i >= k {
        assert(c[i - k] == b[i]);
    } else if c.contains(b[i]) {
        let j = choose|j: int| 0 <= j < c.len() && c[j] == b[i];
        assert(c[j] == b[j + k]);
    }
}

/// Where the segments from `una` on start, at or behind index `i`.
proof fn lemma_from_una_cut(b: Seq<Segment>, base: u32, una: u32, i: int) -> (k: int)
    requires
        model::ahead(una, base) < 0x1_0000,
        forall|j: int| 0 <= j < b.len() ==> model::ahead((#[trigger] b[j]).sn, base) < 0x1_0000,
        forall|j: int, l: int|
            0 <= j < l < b.len() ==> model::ahead((#[trigger] b[j]).sn, base) < model::ahead(
                (#[trigger] b[l]).sn,
                base,
            ),
        0 <= i <= b.len(),
    ensures
        i <= k <= b.len(),
        model::from_una(b.skip(i), una) == b.skip(k),
        forall|j: int|
            i <= j < b.len() ==> (j >= k <==> model::ahead((#[trigger] b[j]).sn, base)
                >= model::ahead(una, base)),
    decreases b.len() - i,
{
    if i < b.len() {
        let t = b.skip(i);
        assert(t[0] == b[i]);
        assert(t.drop_first() =~= b.skip(i + 1));
        lemma_gap(una, b[i].sn, base);
        if model::difference(una, b[i].sn) > 0 {
            lemma_from_una_cut(b, base, una, i + 1)
        } else {
            i
        }
    } else {
        i
    }
}

proof fn lemma_gap(a: u32, b: u32, base: u32)
    requires
        model::ahead(a, base) < 0x1_0000,
        model::ahead(b, base) < 0x1_0000,
    ensures
        model::difference(a, b) == model::ahead(a, base) - model::ahead(b, base),
{
}

/// What is in flight stays within the window: a flush admits new segments only
/// while fewer are in flight than the send window, the peer's window and,
/// unless it is switched off, the congestion window allow.
pub proof fn law_flush_respects_the_window(s: State)
    requires
        model::valid(s),
    ensures
        ({
            let t = model::flushed(s);
            &&& t.snd_una == s.snd_una
            &&& model::ahead(t.snd_nxt, t.snd_una) <= model::max(
                model::ahead(s.snd_nxt, s.snd_una),
                model::effective_window(s) as int,
            )
        }),
{
    reveal(model::flushed);
    validity::lemma_prepared(s);
    let p = model::prepared(s);
    validity::lemma_transmitted(p, model::round_of(s), p.snd_buf.len());
    validity::lemma_before_admission(s);
    let t = model::probes_flushed(
        model::probe_scheduled(model::acks_flushed(s)),
        model::last_header(s),
    );
    validity::lemma_acks_emitted(s, model::control_segment(s), s.acklist.len());
    validity::lemma_probes_valid(s);
    lemma_admitted_window(t, model::effective_window(t), model::unused_window(s));
}

proof fn lemma_admitted_window(s: State, cwnd: u16, wnd: u16)
    requires
        model::valid(s),
    ensures
        ({
            let t = model::admitted(s, cwnd, wnd);
            model::ahead(t.snd_nxt, s.snd_una) <= model::max(
                model::ahead(s.snd_nxt, s.snd_una),
                cwnd as int,
            )
        }),
    decreases s.snd_queue.len(),
{
    if model::difference(s.snd_nxt, model::plus(s.snd_una, cwnd as int)) < 0 && s.snd_queue.len()
        > 0 {
        let g = model::numbered(s, s.snd_queue[0], wnd);
        let t = State {
            snd_queue: s.snd_queue.drop_first(),
            snd_buf: s.snd_buf.push(g),
            snd_nxt: model::plus(s.snd_nxt, 1),
            ..s
        };
        validity::lemma_one_more_valid(s, g, cwnd);
        assert(model::ahead(s.snd_nxt, s.snd_una) < cwnd);
        assert(model::ahead(t.snd_nxt, t.snd_una) == model::ahead(s.snd_nxt, s.snd_una) + 1);
        lemma_admitted_window(t, cwnd, wnd);
    }
}

/// Data stays until it is acknowledged: a flush keeps every segment of the
/// send buffer, in its place and with its payload, and admits from the front
/// of the queue what it adds.
pub proof fn law_flush_keeps_the_data(s: State)
    requires
        model::valid(s),
    ensures
        ({
            let t = model::flushed(s);
            &&& t.snd_buf.len() >= s.snd_buf.len()
            &&& forall|i: int|
                0 <= i < s.snd_buf.len() ==> (#[trigger] t.snd_buf[i]).sn == s.snd_buf[i].sn
                    && t.snd_buf[i].data == s.snd_buf[i].data && t.snd_buf[i].frg
                    == s.snd_buf[i].frg
            &&& model::flattened(t.snd_buf) + model::flattened(t.snd_queue) == model::flattened(
                s.snd_buf,
            ) + model::flattened(s.snd_queue)
        }),
{
    reveal(model::flushed);
    validity::lemma_prepared(s);
    let p = model::prepared(s);
    let c = model::round_of(s);
    validity::lemma_transmitted(p, c, p.snd_buf.len());
    validity::lemma_before_admission(s);
    validity::lemma_acks_emitted(s, model::control_segment(s), s.acklist.len());
    let t = model::probes_flushed(
        model::probe_scheduled(model::acks_flushed(s)),
        model::last_header(s),
    );
    validity::lemma_probes_valid(s);
    lemma_admitted_data(t, model::effective_window(t), model::unused_window(s));
    let f = model::flushed(s);
    assert(f.snd_queue == p.snd_queue);
    assert forall|i: int| 0 <= i < p.snd_buf.len() implies (#[trigger] f.snd_buf[i]).data
        == p.snd_buf[i].data && f.snd_buf[i].sn == p.snd_buf[i].sn && f.snd_buf[i].frg
        == p.snd_buf[i].frg by {
        assert(f.snd_buf[i] == model::after_round(p.snd_buf[i], c));
    }
    lemma_same_payloads(f.snd_buf, p.snd_buf);
}

proof fn lemma_admitted_data(s: State, cwnd: u16, wnd: u16)
    ensures
        ({
            let t = model::admitted(s, cwnd, wnd);
            &&& t.snd_buf.len() >= s.snd_buf.len()
            &&& t.snd_buf.take(s.snd_buf.len() as int) == s.snd_buf
            &&& model::flattened(t.snd_buf) + model::flattened(t.snd_queue) == model::flattened(
                s.snd_buf,
            ) + model::flattened(s.snd_queue)
        }),
    decreases s.snd_queue.len(),
{
    assert(s.snd_buf.take(s.snd_buf.len() as int) =~= s.snd_buf);
    if model::difference(s.snd_nxt, model::plus(s.snd_una, cwnd as int)) < 0 && s.snd_queue.len()
        > 0 {
        let g = model::numbered(s, s.snd_queue[0], wnd);
        let t = State {
            snd_queue: s.snd_queue.drop_first(),
            snd_buf: s.snd_buf.push(g),
            snd_nxt: model::plus(s.snd_nxt, 1),
            ..s
        };
        lemma_admitted_data(t, cwnd, wnd);
        let u = model::admitted(s, cwnd, wnd);
        assert(u.snd_buf.take(s.snd_buf.len() as int) =~= s.snd_buf) by {
            assert forall|i: int| 0 <= i < s.snd_buf.len() implies u.snd_buf[i]
                == s.snd_buf[i] by {
                assert(u.snd_buf.take(t.snd_buf.len() as int)[i] == t.snd_buf[i]);
            }
        }
        lemma_flattened_push(s.snd_buf, g);
        assert(s.snd_queue =~= seq![s.snd_queue[0]] + t.snd_queue);
        lemma_flattened_concat(seq![s.snd_queue[0]], t.snd_queue);
        lemma_flattened_push(Seq::empty(), s.snd_queue[0]);
        assert(Seq::<Segment>::empty().push(s.snd_queue[0]) =~= seq![s.snd_queue[0]]);
        assert(model::flattened(s.snd_buf) + model::flattened(s.snd_queue) =~= model::flattened(
            t.snd_buf,
        ) + model::flattened(t.snd_queue));
    }
}

/// Every packet of `s` from index `n` on fits into the MTU and is not empty.
pub open spec fn packets_fit(s: State, n: int) -> bool {
    forall|i: int| 0 <= n <= i < s.packets.len() ==> 0 < (#[trigger] s.packets[i]).len() <= s.mtu
}

/// The queued payloads are within the segment size.
pub open spec fn payloads_fit(s: State) -> bool {
    &&& forall|i: int| 0 <= i < s.snd_buf.len() ==> (#[trigger] s.snd_buf[i]).data.len() <= s.mss
    &&& forall|i: int|
        0 <= i < s.snd_queue.len() ==> (#[trigger] s.snd_queue[i]).data.len() <= s.mss
}

proof fn lemma_encoded_len(g: Segment)
    ensures
        model::encoded(g).len() == KCP_OVERHEAD + g.data.len(),
{
}

proof fn lemma_emitted_fits(s: State, g: Segment, n: int)
    requires
        model::valid(s),
        packets_fit(s, n),
        s.buf.len() <= s.mtu,
        g.data.len() <= s.mss,
    ensures
        packets_fit(model::emitted(s, g), n),
        model::emitted(s, g).buf.len() <= s.mtu,
{
    lemma_encoded_len(g);
    let t = model::emitted(s, g);
    assert forall|i: int| 0 <= n <= i < t.packets.len() implies 0 < (#[trigger] t.packets[i]).len()
        <= t.mtu by {
        if i < s.packets.len() {
            assert(t.packets[i] == s.packets[i]);
        }
    }
}

proof fn lemma_acks_fit(s: State, g: Segment, k: nat, n: int)
    requires
        model::valid(s),
        packets_fit(s, n),
        s.buf.len() <= s.mtu,
        g.data.len() == 0,
    ensures
        packets_fit(model::acks_emitted(s, g, k), n),
        model::acks_emitted(s, g, k).buf.len() <= s.mtu,
    decreases k,
{
    if k > 0 {
        lemma_acks_fit(s, g, (k - 1) as nat, n);
        validity::lemma_acks_emitted(s, g, (k - 1) as nat);
        lemma_emitted_fits(
            model::acks_emitted(s, g, (k - 1) as nat),
            model::ack_segment(g, s.acklist[k - 1]),
            n,
        );
    }
}

pub proof fn lemma_admitted_fits(s: State, cwnd: u16, wnd: u16)
    requires
        payloads_fit(s),
    ensures
        payloads_fit(model::admitted(s, cwnd, wnd)),
    decreases s.snd_queue.len(),
{
    if model::difference(s.snd_nxt, model::plus(s.snd_una, cwnd as int)) < 0 && s.snd_queue.len()
        > 0 {
        let g = model::numbered(s, s.snd_queue[0], wnd);
        let t = State {
            snd_queue: s.snd_queue.drop_first(),
            snd_buf: s.snd_buf.push(g),
            snd_nxt: model::plus(s.snd_nxt, 1),
            ..s
        };
        assert forall|i: int| 0 <= i < t.snd_buf.len() implies (#[trigger] t.snd_buf[i]).data.len()
            <= t.mss by {
            if i < s.snd_buf.len() {
                assert(t.snd_buf[i] == s.snd_buf[i]);
            } else {
                assert(s.snd_queue[0].data.len() <= s.mss);
            }
        }
        assert forall|i: int| 0 <= i < t.snd_queue.len() implies (
        #[trigger] t.snd_queue[i]).data.len() <= t.mss by {
            assert(t.snd_queue[i] == s.snd_queue[i + 1]);
        }
        lemma_admitted_fits(t, cwnd, wnd);
    }
}

proof fn lemma_transmitted_fits(s: State, c: Round, k: nat, n: int)
    requires
        model::valid(s),
        payloads_fit(s),
        packets_fit(s, n),
        s.buf.len() <= s.mtu,
        k <= s.snd_buf.len(),
    ensures
        packets_fit(model::transmitted(s, c, k), n),
        model::transmitted(s, c, k).buf.len() <= s.mtu,
    decreases k,
{
    if k > 0 {
        let k1 = (k - 1) as nat;
        lemma_transmitted_fits(s, c, k1, n);
        validity::lemma_transmitted(s, c, k1);
        let t = model::transmitted(s, c, k1);
        let g = s.snd_buf[k - 1];
        let h = model::after_round(g, c);
        assert(t.snd_buf[k - 1] == g);
        let u = State {
            snd_buf: t.snd_buf.update(k - 1, h),
            xmit: if model::resend_kind(g, c) is Timeout {
                model::plus(t.xmit, 1)
            } else {
                t.xmit
            },
            dead: t.dead || h.xmit >= c.dead_link,
            ..t
        };
        if !(model::resend_kind(g, c) is Not) {
            validity::lemma_sent_one(State { snd_buf: t.snd_buf.update(k - 1, h), ..t }, g, c);
            assert(packets_fit(u, n));
            lemma_emitted_fits_plain(u, h, n);
            assert(model::transmitted(s, c, k) == model::emitted(u, h));
        }
    }
}

proof fn lemma_emitted_fits_plain(s: State, g: Segment, n: int)
    requires
        s.mss + KCP_OVERHEAD == s.mtu,
        packets_fit(s, n),
        s.buf.len() <= s.mtu,
        g.data.len() <= s.mss,
    ensures
        packets_fit(model::emitted(s, g), n),
        model::emitted(s, g).buf.len() <= s.mtu,
{
    lemma_encoded_len(g);
    let t = model::emitted(s, g);
    assert forall|i: int| 0 <= n <= i < t.packets.len() implies 0 < (#[trigger] t.packets[i]).len()
        <= t.mtu by {
        if i < s.packets.len() {
            assert(t.packets[i] == s.packets[i]);
        }
    }
}

/// No datagram outgrows the MTU: where the queued payloads are within the
/// segment size, the packets that a flush hands out are within the MTU, and
/// nothing is left behind in the output buffer.
pub proof fn law_packets_fit_the_mtu(s: State)
    requires
        model::valid(s),
        payloads_fit(s),
        s.buf.len() <= s.mtu,
    ensures
        packets_fit(model::flushed(s), s.packets.len() as int),
        model::flushed(s).buf.len() == 0,
{
    reveal(model::flushed);
    let n = s.packets.len() as int;
    let g = model::control_segment(s);
    lemma_acks_fit(s, g, s.acklist.len(), n);
    validity::lemma_acks_emitted(s, g, s.acklist.len());
    let s1 = model::acks_flushed(s);
    let s2 = model::probe_scheduled(s1);
    let h = model::last_header(s);
    let ask = Segment { cmd: KCP_CMD_WASK, ..h };
    let tell = Segment { cmd: KCP_CMD_WINS, ..h };
    assert(packets_fit(s2, n));
    lemma_emitted_fits_plain(s2, ask, n);
    lemma_emitted_fits_plain(s2, tell, n);
    lemma_emitted_fits_plain(model::emitted(s2, ask), tell, n);
    let s3 = model::probes_flushed(s2, h);
    assert(packets_fit(s3, n) && s3.buf.len() <= s3.mtu);
    validity::lemma_probes_valid(s);
    validity::lemma_before_admission(s);
    lemma_admitted_fits(s3, model::effective_window(s3), model::unused_window(s));
    validity::lemma_prepared(s);
    validity::lemma_admitted(s3, model::effective_window(s3), model::unused_window(s));
    let p = model::prepared(s);
    let c = model::round_of(s);
    assert(packets_fit(p, n));
    lemma_transmitted_fits(p, c, p.snd_buf.len(), n);
    validity::lemma_transmitted(p, c, p.snd_buf.len());
    let t = model::transmitted(p, c, p.snd_buf.len());
    let u = model::pushed_out(t);
    assert forall|i: int| n <= i < u.packets.len() implies 0 < (#[trigger] u.packets[i]).len()
        <= u.mtu by {
        if i < t.packets.len() {
            assert(u.packets[i] == t.packets[i]);
        }
    }
}

} // verus!
