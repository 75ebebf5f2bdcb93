//! Two endpoints and a network that loses, repeats and reorders: what is read at
//! one end is what was written at the other.
use vstd::prelude::*;

use super::laws;
use super::model;
use super::model::{Acks, Round, Segment, State, Step, KCP_CMD_ACK, KCP_CMD_PUSH, KCP_CMD_WASK, KCP_CMD_WINS, KCP_OVERHEAD};
use super::validity;
use crate::bytes;

verus! {

// ── what was sent ───────────────────────────────────────────────────────

/// What a sequence number stands for.
#[verifier::ext_equal]
pub struct Content {
    pub frg: u8,
    pub data: Seq<u8>,
}

/// What a segment carries.
pub open spec fn content(g: Segment) -> Content {
    Content { frg: g.frg, data: g.data }
}

/// The payloads of the book, one behind the other.
pub open spec fn joined(book: Seq<Content>) -> Seq<u8>
    decreases book.len(),
{
    if book.len() == 0 {
        Seq::empty()
    } else {
        joined(book.drop_last()) + book.last().data
    }
}

/// Whether a segment, if it carries data, carries what the book has under its
/// number.
pub open spec fn agrees(g: Segment, book: Seq<Content>) -> bool {
    g.cmd == KCP_CMD_PUSH ==> g.sn < book.len() && book[g.sn as int] == content(g)
}

/// Whether all segments agree with the book.
pub open spec fn all_agree(gs: Seq<Segment>, book: Seq<Content>) -> bool {
    forall|i: int| 0 <= i < gs.len() ==> #[trigger] agrees(gs[i], book)
}

/// Whether all segments carry data that the book has under their numbers.
pub open spec fn all_booked(gs: Seq<Segment>, book: Seq<Content>) -> bool {
    forall|i: int|
        0 <= i < gs.len() ==> (#[trigger] gs[i]).cmd == KCP_CMD_PUSH && agrees(gs[i], book)
}

proof fn lemma_agrees_longer(g: Segment, book: Seq<Content>, more: Seq<Content>)
    requires
        agrees(g, book),
    ensures
        agrees(g, book + more),
{
}

// ── datagrams ───────────────────────────────────────────────────────────

/// Whether the segments that a datagram holds from `pos` on agree with the
/// book.
pub open spec fn speaks(d: Seq<u8>, pos: int, book: Seq<Content>) -> bool
    decreases d.len() - pos,
{
    if d.len() - pos < KCP_OVERHEAD {
        true
    } else {
        let len = bytes::le32_at(d, pos + 20);
        let next = pos + KCP_OVERHEAD + len;
        if next > d.len() {
            true
        } else {
            agrees(model::header_at(d, pos, len as nat), book) && speaks(d, next, book)
        }
    }
}

proof fn lemma_speaks_longer(d: Seq<u8>, pos: int, book: Seq<Content>, more: Seq<Content>)
    requires
        speaks(d, pos, book),
    ensures
        speaks(d, pos, book + more),
    decreases d.len() - pos,
{
    if d.len() - pos >= KCP_OVERHEAD {
        let len = bytes::le32_at(d, pos + 20);
        let next = pos + KCP_OVERHEAD + len;
        if next <= d.len() {
            lemma_agrees_longer(model::header_at(d, pos, len as nat), book, more);
            lemma_speaks_longer(d, next, book, more);
        }
    }
}

/// The wire forms of segments, one behind the other.
pub open spec fn wire_of(gs: Seq<Segment>) -> Seq<u8>
    decreases gs.len(),
{
    if gs.len() == 0 {
        Seq::empty()
    } else {
        wire_of(gs.drop_last()) + model::encoded(gs.last())
    }
}

/// Bytes that are the wire forms of segments that agree with the book.
pub open spec fn composed_of(x: Seq<u8>, gs: Seq<Segment>, book: Seq<Content>) -> bool {
    &&& x == wire_of(gs)
    &&& all_agree(gs, book)
    &&& forall|i: int| 0 <= i < gs.len() ==> (#[trigger] gs[i]).data.len() <= u32::MAX
}

/// Bytes that are the wire forms of some segments that agree with the book.
pub open spec fn composed(x: Seq<u8>, book: Seq<Content>) -> bool {
    exists|gs: Seq<Segment>| composed_of(x, gs, book)
}

pub proof fn lemma_wire_concat(p: Seq<Segment>, q: Seq<Segment>)
    ensures
        wire_of(p + q) == wire_of(p) + wire_of(q),
    decreases q.len(),
{
    if q.len() == 0 {
        assert(p + q =~= p);
        assert(wire_of(p) + wire_of(q) =~= wire_of(p));
    } else {
        lemma_wire_concat(p, q.drop_last());
        assert((p + q).drop_last() =~= p + q.drop_last());
        assert(wire_of(p + q) =~= wire_of(p) + wire_of(q));
    }
}

proof fn lemma_wire_speaks(gs: Seq<Segment>, k: int, book: Seq<Content>)
    requires
        composed_of(wire_of(gs), gs, book),
        0 <= k <= gs.len(),
    ensures
        speaks(wire_of(gs), wire_of(gs.take(k)).len() as int, book),
    decreases gs.len() - k,
{
    let d = wire_of(gs);
    if k == gs.len() {
        assert(gs.take(k) =~= gs);
    } else {
        let g = gs[k];
        let before = wire_of(gs.take(k));
        let behind = wire_of(gs.skip(k + 1));
        assert(gs.take(k + 1).drop_last() =~= gs.take(k));
        assert(gs.take(k + 1).last() == g);
        assert(gs.take(k + 1) + gs.skip(k + 1) =~= gs);
        lemma_wire_concat(gs.take(k + 1), gs.skip(k + 1));
        assert(d =~= before + model::encoded(g) + behind);
        laws::law_segment_roundtrip(before, g, behind);
        lemma_wire_speaks(gs, k + 1, book);
        assert(agrees(g, book));
    }
}

proof fn lemma_composed_speaks(x: Seq<u8>, book: Seq<Content>)
    requires
        composed(x, book),
    ensures
        speaks(x, 0, book),
{
    let gs = choose|gs: Seq<Segment>| composed_of(x, gs, book);
    assert(gs.take(0) =~= Seq::empty());
    lemma_wire_speaks(gs, 0, book);
}

proof fn lemma_composed_empty(book: Seq<Content>)
    ensures
        composed(Seq::empty(), book),
{
    let gs = Seq::<Segment>::empty();
    assert(composed_of(Seq::empty(), gs, book));
}

proof fn lemma_composed_push(x: Seq<u8>, g: Segment, book: Seq<Content>)
    requires
        composed(x, book),
        agrees(g, book),
        g.data.len() <= u32::MAX,
    ensures
        composed(x + model::encoded(g), book),
{
    let gs = choose|gs: Seq<Segment>| composed_of(x, gs, book);
    let hs = gs.push(g);
    assert(hs.drop_last() =~= gs);
    assert(forall|i: int| 0 <= i < hs.len() ==> #[trigger] agrees(hs[i], book));
    assert(composed_of(x + model::encoded(g), hs, book));
}

// ── output ──────────────────────────────────────────────────────────────

/// All packets from index `n` on, and what waits to become one, are made of
/// segments that agree with the book.
pub open spec fn truthful(s: State, n: int, book: Seq<Content>) -> bool {
    &&& n <= s.packets.len()
    &&& composed(s.buf, book)
    &&& forall|i: int| n <= i < s.packets.len() ==> #[trigger] composed(s.packets[i], book)
}

proof fn lemma_pushed_out_truthful(s: State, n: int, book: Seq<Content>)
    requires
        0 <= n,
        truthful(s, n, book),
    ensures
        truthful(model::pushed_out(s), n, book),
        model::pushed_out(s).buf.len() == 0,
{
    lemma_composed_empty(book);
    let t = model::pushed_out(s);
    assert forall|i: int| n <= i < t.packets.len() implies #[trigger] composed(
        t.packets[i],
        book,
    ) by {
        if i < s.packets.len() {
            assert(t.packets[i] == s.packets[i]);
        }
    }
}

proof fn lemma_emitted_truthful(s: State, g: Segment, n: int, book: Seq<Content>)
    requires
        0 <= n,
        truthful(s, n, book),
        agrees(g, book),
        g.data.len() <= u32::MAX,
    ensures
        truthful(model::emitted(s, g), n, book),
{
    lemma_pushed_out_truthful(s, n, book);
    let t = if s.buf.len() + KCP_OVERHEAD + g.data.len() > s.mtu {
        model::pushed_out(s)
    } else {
        s
    };
    lemma_composed_push(t.buf, g, book);
}

proof fn lemma_acks_truthful(s: State, g: Segment, k: nat, n: int, book: Seq<Content>)
    requires
        0 <= n,
        truthful(s, n, book),
        g.data.len() == 0,
        g.cmd == KCP_CMD_ACK,
    ensures
        truthful(model::acks_emitted(s, g, k), n, book),
    decreases k,
{
    if k > 0 {
        lemma_acks_truthful(s, g, (k - 1) as nat, n, book);
        lemma_emitted_truthful(
            model::acks_emitted(s, g, (k - 1) as nat),
            model::ack_segment(g, s.acklist[k - 1]),
            n,
            book,
        );
    }
}

proof fn lemma_transmitted_truthful(s: State, c: Round, k: nat, n: int, book: Seq<Content>)
    requires
        0 <= n,
        truthful(s, n, book),
        all_booked(s.snd_buf, book),
        forall|i: int| 0 <= i < s.snd_buf.len() ==> (#[trigger] s.snd_buf[i]).data.len() <= u32::MAX,
        k <= s.snd_buf.len(),
    ensures
        truthful(model::transmitted(s, c, k), n, book),
    decreases k,
{
    if k > 0 {
        let k1 = (k - 1) as nat;
        lemma_transmitted_truthful(s, c, k1, n, book);
        let t = model::transmitted(s, c, k1);
        let g = s.snd_buf[k - 1];
        let h = model::after_round(g, c);
        assert(agrees(g, book));
        assert(agrees(h, book));
        let u = State {
            snd_buf: t.snd_buf.update(k - 1, h),
            xmit: if model::resend_kind(g, c) is Timeout {
                model::plus(t.xmit, 1)
            } else {
                t.xmit
            },
            dead: t.dead || h.xmit >= c.dead_link,
            ..t
        };
        if !(model::resend_kind(g, c) is Not) {
            assert(truthful(u, n, book));
            lemma_emitted_truthful(u, h, n, book);
            assert(model::transmitted(s, c, k) == model::emitted(u, h));
        }
    }
}

/// What a flush puts on the wire: its packets carry the segments of the send
/// buffer as they are in the book, and acknowledgements and probes besides.
pub proof fn law_flush_puts_the_book_on_the_wire(s: State, book: Seq<Content>)
    requires
        model::valid(s),
        s.buf.len() == 0,
        all_booked(model::prepared(s).snd_buf, book),
        forall|i: int|
            0 <= i < model::prepared(s).snd_buf.len() ==> (#[trigger] model::prepared(
                s,
            ).snd_buf[i]).data.len() <= u32::MAX,
    ensures
        ({
            let t = model::flushed(s);
            &&& t.buf.len() == 0
            &&& t.packets.len() >= s.packets.len()
            &&& forall|i: int|
                s.packets.len() <= i < t.packets.len() ==> speaks(#[trigger] t.packets[i], 0, book)
        }),
{
    reveal(model::flushed);
    let n = s.packets.len() as int;
    let g = model::control_segment(s);
    assert(s.buf =~= Seq::empty());
    lemma_composed_empty(book);
    lemma_acks_truthful(s, g, s.acklist.len(), n, book);
    validity::lemma_acks_emitted(s, g, s.acklist.len());
    let s1 = model::acks_flushed(s);
    let s2 = model::probe_scheduled(s1);
    let h = model::last_header(s);
    let ask = Segment { cmd: KCP_CMD_WASK, ..h };
    let tell = Segment { cmd: KCP_CMD_WINS, ..h };
    assert(truthful(s2, n, book));
    lemma_emitted_truthful(s2, ask, n, book);
    lemma_emitted_truthful(s2, tell, n, book);
    lemma_emitted_truthful(model::emitted(s2, ask), tell, n, book);
    let s3 = model::probes_flushed(s2, h);
    assert(truthful(s3, n, book));
    validity::lemma_admitted(s3, model::effective_window(s3), model::unused_window(s));
    let p = model::prepared(s);
    let c = model::round_of(s);
    assert(truthful(p, n, book));
    lemma_transmitted_truthful(p, c, p.snd_buf.len(), n, book);
    let t = model::transmitted(p, c, p.snd_buf.len());
    lemma_pushed_out_truthful(t, n, book);
    let u = model::flushed(s);
    assert(u.packets == model::pushed_out(t).packets);
    assert forall|i: int| n <= i < u.packets.len() implies speaks(
        #[trigger] u.packets[i],
        0,
        book,
    ) by {
        assert(composed(model::pushed_out(t).packets[i], book));
        lemma_composed_speaks(u.packets[i], book);
    }
}

// ── retransmission ──────────────────────────────────────────────────────

/// Whether `e` stands in `x` at `at`.
pub open spec fn stands_at(x: Seq<u8>, at: int, e: Seq<u8>) -> bool {
    0 <= at && at + e.len() <= x.len() && x.subrange(at, at + e.len()) == e
}

/// Whether `e` stands somewhere in `x`.
pub open spec fn within(x: Seq<u8>, e: Seq<u8>) -> bool {
    exists|at: int| stands_at(x, at, e)
}

/// Whether `e` is in a packet from index `n` on, or waits to be.
pub open spec fn going_out(s: State, n: int, e: Seq<u8>) -> bool {
    ||| within(s.buf, e)
    ||| exists|i: int| n <= i < s.packets.len() && within(#[trigger] s.packets[i], e)
}

proof fn lemma_within_longer(x: Seq<u8>, e: Seq<u8>, y: Seq<u8>)
    requires
        within(x, e),
    ensures
        within(x + y, e),
{
    let at = choose|at: int| stands_at(x, at, e);
    assert((x + y).subrange(at, at + e.len()) =~= x.subrange(at, at + e.len()));
    assert(stands_at(x + y, at, e));
}

pub proof fn lemma_pushed_out_going(s: State, n: int, e: Seq<u8>)
    requires
        0 <= n <= s.packets.len(),
        going_out(s, n, e),
        e.len() > 0,
    ensures
        going_out(model::pushed_out(s), n, e),
        exists|i: int|
            n <= i < model::pushed_out(s).packets.len() && within(
                #[trigger] model::pushed_out(s).packets[i],
                e,
            ),
{
    let t = model::pushed_out(s);
    if within(s.buf, e) {
        let at = choose|at: int| stands_at(s.buf, at, e);
        assert(s.buf.len() > 0);
        assert(t.packets[s.packets.len() as int] == s.buf);
    } else {
        let i = choose|i: int| n <= i < s.packets.len() && within(#[trigger] s.packets[i], e);
        assert(t.packets[i] == s.packets[i]);
    }
}

pub proof fn lemma_emitted_going(s: State, g: Segment, n: int, e: Seq<u8>)
    requires
        0 <= n <= s.packets.len(),
        going_out(s, n, e) || e == model::encoded(g),
        e.len() > 0,
    ensures
        going_out(model::emitted(s, g), n, e),
        n <= model::emitted(s, g).packets.len(),
{
    let t = if s.buf.len() + KCP_OVERHEAD + g.data.len() > s.mtu {
        model::pushed_out(s)
    } else {
        s
    };
    let u = model::emitted(s, g);
    if e == model::encoded(g) {
        let at = t.buf.len() as int;
        assert(u.buf.subrange(at, at + e.len()) =~= e);
        assert(stands_at(u.buf, at, e));
    } else {
        if s.buf.len() + KCP_OVERHEAD + g.data.len() > s.mtu {
            lemma_pushed_out_going(s, n, e);
        }
        if within(t.buf, e) {
            lemma_within_longer(t.buf, e, model::encoded(g));
        } else {
            let i = choose|i: int| n <= i < t.packets.len() && within(#[trigger] t.packets[i], e);
            assert(u.packets[i] == t.packets[i]);
        }
    }
}

proof fn lemma_transmitted_going(s: State, c: Round, k: nat, j: int, n: int)
    requires
        0 <= j < k <= s.snd_buf.len(),
        0 <= n <= s.packets.len(),
        !(model::resend_kind(s.snd_buf[j], c) is Not),
    ensures
        going_out(
            model::transmitted(s, c, k),
            n,
            model::encoded(model::after_round(s.snd_buf[j], c)),
        ),
        n <= model::transmitted(s, c, k).packets.len(),
    decreases k,
{
    let k1 = (k - 1) as nat;
    let e = model::encoded(model::after_round(s.snd_buf[j], c));
    let t = model::transmitted(s, c, k1);
    let g = s.snd_buf[k - 1];
    let h = model::after_round(g, c);
    lemma_packets_grow(s, c, k1);
    let u = State {
        snd_buf: t.snd_buf.update(k - 1, h),
        xmit: if model::resend_kind(g, c) is Timeout {
            model::plus(t.xmit, 1)
        } else {
            t.xmit
        },
        dead: t.dead || h.xmit >= c.dead_link,
        ..t
    };
    if j < k1 {
        lemma_transmitted_going(s, c, k1, j, n);
        assert(going_out(u, n, e)) by {
            if !within(u.buf, e) {
                let i = choose|i: int|
                    n <= i < t.packets.len() && within(#[trigger] t.packets[i], e);
                assert(u.packets[i] == t.packets[i]);
            }
        }
    }
    if !(model::resend_kind(g, c) is Not) {
        lemma_emitted_going(u, h, n, e);
        assert(model::transmitted(s, c, k) == model::emitted(u, h));
    } else {
        let v = State { snd_buf: t.snd_buf.update(k - 1, h), ..t };
        assert(model::transmitted(s, c, k) == v);
        assert(going_out(v, n, e)) by {
            if !within(v.buf, e) {
                let i = choose|i: int|
                    n <= i < t.packets.len() && within(#[trigger] t.packets[i], e);
                assert(v.packets[i] == t.packets[i]);
            }
        }
    }
}

pub proof fn lemma_packets_grow(s: State, c: Round, k: nat)
    requires
        k <= s.snd_buf.len(),
    ensures
        model::transmitted(s, c, k).packets.len() >= s.packets.len(),
    decreases k,
{
    if k > 0 {
        lemma_packets_grow(s, c, (k - 1) as nat);
    }
}

pub proof fn lemma_acks_grow(s: State, g: Segment, k: nat)
    ensures
        model::acks_emitted(s, g, k).packets.len() >= s.packets.len(),
    decreases k,
{
    if k > 0 {
        lemma_acks_grow(s, g, (k - 1) as nat);
    }
}

proof fn lemma_prepared_grows(s: State)
    ensures
        model::prepared(s).packets.len() >= s.packets.len(),
{
    lemma_acks_grow(s, model::control_segment(s), s.acklist.len());
    let s3 = model::probes_flushed(
        model::probe_scheduled(model::acks_flushed(s)),
        model::last_header(s),
    );
    validity::lemma_admitted(s3, model::effective_window(s3), model::unused_window(s));
}

/// Nothing in flight is forgotten: a flush sends every segment that is new,
/// that later ones have overtaken, or whose time is up, as it now stands in the
/// send buffer.
pub proof fn law_due_segments_are_sent(s: State, j: int)
    requires
        model::valid(s),
        0 <= j < model::prepared(s).snd_buf.len(),
        !(model::resend_kind(model::prepared(s).snd_buf[j], model::round_of(s)) is Not),
    ensures
        model::flushed(s).snd_buf[j] == model::after_round(
            model::prepared(s).snd_buf[j],
            model::round_of(s),
        ),
        exists|i: int|
            s.packets.len() <= i < model::flushed(s).packets.len() && within(
                #[trigger] model::flushed(s).packets[i],
                model::encoded(model::flushed(s).snd_buf[j]),
            ),
{
    reveal(model::flushed);
    let p = model::prepared(s);
    let c = model::round_of(s);
    let n = s.packets.len() as int;
    let e = model::encoded(model::after_round(p.snd_buf[j], c));
    lemma_prepared_grows(s);
    validity::lemma_transmitted(p, c, p.snd_buf.len());
    lemma_transmitted_going(p, c, p.snd_buf.len(), j, n);
    let t = model::transmitted(p, c, p.snd_buf.len());
    lemma_pushed_out_going(t, n, e);
    let u = model::pushed_out(t);
    let i = choose|i: int| n <= i < u.packets.len() && within(#[trigger] u.packets[i], e);
    assert(model::flushed(s).packets[i] == u.packets[i]);
}

/// A segment whose time is up is due, and so is one that was never sent.
/// Whatever was skipped or resent before, a time that is up is never missed.
pub proof fn law_timed_out_segments_are_due(g: Segment, c: Round)
    ensures
        g.xmit == 0 ==> model::resend_kind(g, c) is Initial,
        model::difference(c.current, g.resendts) >= 0 ==> !(model::resend_kind(g, c) is Not),
        g.xmit != 0 && g.fastack == 0 && 0 < c.resent && model::difference(c.current, g.resendts)
            >= 0 ==> model::resend_kind(g, c) is Timeout,
        g.xmit > c.fastlimit && c.fastlimit > 0 && g.fastack >= c.resent && model::difference(
            c.current,
            g.resendts,
        ) >= 0 ==> model::resend_kind(g, c) is Timeout,
{
}

// ── the receiving end ───────────────────────────────────────────────────

/// What was read and what can be read make up the book up to the next expected
/// number, and what is held back agrees with the book.
pub open spec fn in_step(b: State, book: Seq<Content>, taken: Seq<u8>) -> bool {
    &&& book.len() < 0x1_0000_0000
    &&& b.rcv_nxt <= book.len()
    &&& all_booked(b.rcv_buf, book)
    &&& taken + model::flattened(b.rcv_queue) == joined(book.take(b.rcv_nxt as int))
}

proof fn lemma_joined_next(book: Seq<Content>, n: int)
    requires
        0 <= n < book.len(),
    ensures
        joined(book.take(n + 1)) == joined(book.take(n)) + book[n].data,
{
    assert(book.take(n + 1).drop_last() =~= book.take(n));
}

proof fn lemma_moved_in_step(b: State, book: Seq<Content>, taken: Seq<u8>)
    requires
        in_step(b, book, taken),
    ensures
        in_step(model::moved(b), book, taken),
    decreases b.rcv_buf.len(),
{
    if model::first_is_ready(b) {
        let g = b.rcv_buf[0];
        let t = State {
            rcv_buf: b.rcv_buf.drop_first(),
            rcv_queue: b.rcv_queue.push(g),
            rcv_nxt: model::plus(b.rcv_nxt, 1),
            ..b
        };
        let n = b.rcv_nxt as int;
        assert(agrees(g, book));
        lemma_joined_next(book, n);
        assert(t.rcv_queue.drop_last() =~= b.rcv_queue);
        assert(taken + model::flattened(t.rcv_queue) =~= joined(book.take(n + 1)));
        assert forall|i: int| 0 <= i < t.rcv_buf.len() implies (#[trigger] t.rcv_buf[i]).cmd
            == KCP_CMD_PUSH && agrees(t.rcv_buf[i], book) by {
            assert(t.rcv_buf[i] == b.rcv_buf[i + 1]);
        }
        lemma_moved_in_step(t, book, taken);
    }
}

proof fn lemma_place_bounded(b: Seq<Segment>, sn: u32, i: int)
    requires
        0 <= i <= b.len(),
    ensures
        model::place(b, sn, i) matches Some(k) ==> 0 <= k <= i,
    decreases i,
{
    if i > 0 {
        lemma_place_bounded(b, sn, i - 1);
    }
}

proof fn lemma_stored_in_step(b: State, g: Segment, book: Seq<Content>, taken: Seq<u8>)
    requires
        in_step(b, book, taken),
        g.cmd == KCP_CMD_PUSH,
        agrees(g, book),
    ensures
        in_step(model::stored(b, g), book, taken),
{
    if model::in_window(b, g.sn) {
        lemma_place_bounded(b.rcv_buf, g.sn, b.rcv_buf.len() as int);
        match model::place(b.rcv_buf, g.sn, b.rcv_buf.len() as int) {
            Some(k) => {
                let t = State { rcv_buf: b.rcv_buf.insert(k, g), ..b };
                assert forall|i: int| 0 <= i < t.rcv_buf.len() implies (
                #[trigger] t.rcv_buf[i]).cmd == KCP_CMD_PUSH && agrees(t.rcv_buf[i], book) by {
                    if i < k {
                        assert(t.rcv_buf[i] == b.rcv_buf[i]);
                    } else if i > k {
                        assert(t.rcv_buf[i] == b.rcv_buf[i - 1]);
                    }
                }
                lemma_moved_in_step(t, book, taken);
            },
            None => {
                lemma_moved_in_step(b, book, taken);
            },
        }
    }
}

proof fn lemma_step_in_step(
    b: State,
    a: Acks,
    d: Seq<u8>,
    pos: int,
    book: Seq<Content>,
    taken: Seq<u8>,
)
    requires
        in_step(b, book, taken),
        0 <= pos,
        d.len() - pos >= KCP_OVERHEAD,
        speaks(d, pos, book),
    ensures
        match model::input_step(b, a, d, pos) {
            Step::Fail(t, _) => in_step(t, book, taken),
            Step::Next(t, _, next) => in_step(t, book, taken) && pos < next <= d.len() && speaks(
                d,
                next,
                book,
            ),
        },
{
    reveal(model::input_step);
    let conv = bytes::le32_at(d, pos);
    let len = bytes::le32_at(d, pos + 20);
    let g = model::header_at(d, pos, len as nat);
    let s1 = if conv != b.conv {
        State { conv, input_conv: false, ..b }
    } else {
        b
    };
    let s2 = model::shrunk(
        State { rmt_wnd: g.wnd, snd_buf: model::from_una(s1.snd_buf, g.una), ..s1 },
    );
    let s4 = State { acklist: s2.acklist.push((g.sn, g.ts)), ..s2 };
    if g.cmd == KCP_CMD_PUSH && pos + KCP_OVERHEAD + len <= d.len() {
        lemma_stored_in_step(s4, g, book, taken);
    }
}

proof fn lemma_input_in_step(
    b: State,
    a: Acks,
    d: Seq<u8>,
    pos: int,
    old_una: u32,
    book: Seq<Content>,
    taken: Seq<u8>,
)
    requires
        in_step(b, book, taken),
        0 <= pos,
        speaks(d, pos, book),
    ensures
        in_step(model::input_from(b, a, d, pos, old_una).0, book, taken),
    decreases d.len() - pos,
{
    if d.len() - pos >= KCP_OVERHEAD {
        lemma_step_in_step(b, a, d, pos, book, taken);
        match model::input_step(b, a, d, pos) {
            Step::Fail(_, _) => {},
            Step::Next(t, e, next) => {
                lemma_input_in_step(t, e, d, next, old_una, book, taken);
            },
        }
    }
}

/// What arrives is what was sent: a datagram whose segments agree with the
/// book, however late, repeated or out of order, leaves the receiving end in
/// step with the book.
pub proof fn law_arrivals_stay_in_step(b: State, d: Seq<u8>, book: Seq<Content>, taken: Seq<u8>)
    requires
        in_step(b, book, taken),
        speaks(d, 0, book),
    ensures
        in_step(model::input_all(b, d).0, book, taken),
{
    if d.len() >= KCP_OVERHEAD {
        lemma_input_in_step(
            b,
            Acks { flag: false, max_ack: 0, latest_ts: 0 },
            d,
            0,
            b.snd_una,
            book,
            taken,
        );
    }
}

proof fn lemma_message_end_bounded(q: Seq<Segment>)
    ensures
        model::message_end(q) <= q.len(),
    decreases q.len(),
{
    if q.len() > 0 {
        lemma_message_end_bounded(q.drop_first());
    }
}

/// A read hands out what comes next, and leaves the receiving end in step.
pub proof fn law_reads_stay_in_step(b: State, book: Seq<Content>, taken: Seq<u8>)
    requires
        in_step(b, book, taken),
    ensures
        in_step(model::received(b), book, taken + model::message(b.rcv_queue)),
{
    let q = b.rcv_queue;
    let n = model::message_end(q) as int;
    lemma_message_end_bounded(q);
    laws::lemma_flattened_concat(q.take(n), q.skip(n));
    assert(q.take(n) + q.skip(n) =~= q);
    let t = State { rcv_queue: q.skip(n), ..b };
    assert((taken + model::message(q)) + model::flattened(t.rcv_queue) =~= taken
        + model::flattened(q));
    lemma_moved_in_step(t, book, taken + model::message(q));
}

proof fn lemma_in_step_longer(
    b: State,
    book: Seq<Content>,
    more: Seq<Content>,
    taken: Seq<u8>,
)
    requires
        in_step(b, book, taken),
        book.len() + more.len() < 0x1_0000_0000,
    ensures
        in_step(b, book + more, taken),
{
    assert((book + more).take(b.rcv_nxt as int) =~= book.take(b.rcv_nxt as int));
    assert forall|i: int| 0 <= i < b.rcv_buf.len() implies (#[trigger] b.rcv_buf[i]).cmd
        == KCP_CMD_PUSH && agrees(b.rcv_buf[i], book + more) by {
        lemma_agrees_longer(b.rcv_buf[i], book, more);
    }
}

/// A flush changes nothing of what was received.
proof fn lemma_flushed_receive_side(s: State)
    ensures
        model::flushed(s).rcv_nxt == s.rcv_nxt,
        model::flushed(s).rcv_buf == s.rcv_buf,
        model::flushed(s).rcv_queue == s.rcv_queue,
        model::flushed(s).mss == s.mss,
{
    reveal(model::flushed);
    validity::lemma_prepared(s);
    let p = model::prepared(s);
    validity::lemma_transmitted(p, model::round_of(s), p.snd_buf.len());
}

// ── the sending end ─────────────────────────────────────────────────────

/// The book holds what was numbered so far; it and the queue make up all that
/// was written.
pub open spec fn keeps_the_book(a: State, book: Seq<Content>, written: Seq<u8>) -> bool {
    &&& book.len() < 0x1_0000_0000
    &&& a.snd_nxt == book.len()
    &&& a.mss <= u32::MAX
    &&& a.buf.len() == 0
    &&& laws::payloads_fit(a)
    &&& all_booked(a.snd_buf, book)
    &&& joined(book) + model::flattened(a.snd_queue) == written
}

/// What a flush numbers.
pub open spec fn newly_booked(a: State) -> Seq<Content> {
    let n = a.snd_queue.len() - model::prepared(a).snd_queue.len();
    Seq::new(n as nat, |i: int| content(a.snd_queue[i]))
}

proof fn lemma_joined_concat(p: Seq<Content>, q: Seq<Content>)
    ensures
        joined(p + q) == joined(p) + joined(q),
    decreases q.len(),
{
    if q.len() == 0 {
        assert(p + q =~= p);
        assert(joined(p) + joined(q) =~= joined(p));
    } else {
        lemma_joined_concat(p, q.drop_last());
        assert((p + q).drop_last() =~= p + q.drop_last());
        assert(joined(p + q) =~= joined(p) + joined(q));
    }
}

proof fn lemma_admitted_books(a: State, cwnd: u16, wnd: u16, book: Seq<Content>, written: Seq<u8>)
    requires
        keeps_the_book_but_buf(a, book, written),
        book.len() + a.snd_queue.len() < 0x1_0000_0000,
    ensures
        ({
            let t = model::admitted(a, cwnd, wnd);
            let n = a.snd_queue.len() - t.snd_queue.len();
            let more = Seq::new(n as nat, |i: int| content(a.snd_queue[i]));
            &&& 0 <= n <= a.snd_queue.len()
            &&& keeps_the_book_but_buf(t, book + more, written)
        }),
    decreases a.snd_queue.len(),
{
    let u = model::admitted(a, cwnd, wnd);
    if model::difference(a.snd_nxt, model::plus(a.snd_una, cwnd as int)) < 0 && a.snd_queue.len()
        > 0 {
        let q = a.snd_queue[0];
        let g = model::numbered(a, q, wnd);
        let t = State {
            snd_queue: a.snd_queue.drop_first(),
            snd_buf: a.snd_buf.push(g),
            snd_nxt: model::plus(a.snd_nxt, 1),
            ..a
        };
        let longer = book.push(content(q));
        assert(longer.drop_last() =~= book);
        assert(a.snd_queue =~= seq![q] + t.snd_queue);
        laws::lemma_flattened_concat(seq![q], t.snd_queue);
        assert(seq![q].drop_last() =~= Seq::<Segment>::empty());
        assert(model::flattened(seq![q]) =~= q.data) by {
            reveal_with_fuel(model::flattened, 2);
        }
        assert(joined(longer) + model::flattened(t.snd_queue) =~= written);
        assert forall|i: int| 0 <= i < t.snd_buf.len() implies (#[trigger] t.snd_buf[i]).cmd
            == KCP_CMD_PUSH && agrees(t.snd_buf[i], longer) && t.snd_buf[i].data.len()
            <= t.mss by {
            if i < a.snd_buf.len() {
                assert(t.snd_buf[i] == a.snd_buf[i]);
                assert(agrees(a.snd_buf[i], book));
            }
        }
        assert forall|i: int| 0 <= i < t.snd_queue.len() implies (
        #[trigger] t.snd_queue[i]).data.len() <= t.mss by {
            assert(t.snd_queue[i] == a.snd_queue[i + 1]);
        }
        lemma_admitted_books(t, cwnd, wnd, longer, written);
        let n = a.snd_queue.len() - u.snd_queue.len();
        let rest = Seq::new((n - 1) as nat, |i: int| content(t.snd_queue[i]));
        let more = Seq::new(n as nat, |i: int| content(a.snd_queue[i]));
        assert(longer + rest =~= book + more);
    } else {
        assert(book + Seq::new(0, |i: int| content(a.snd_queue[i])) =~= book);
    }
}

/// What `keeps_the_book` says, whatever waits in the output buffer.
pub open spec fn keeps_the_book_but_buf(a: State, book: Seq<Content>, written: Seq<u8>) -> bool {
    keeps_the_book(State { buf: Seq::empty(), ..a }, book, written)
}

/// A flush enters what it numbers into the book, and puts on the wire what the
/// book says.
pub proof fn law_flush_keeps_the_book(a: State, book: Seq<Content>, written: Seq<u8>)
    requires
        model::valid(a),
        keeps_the_book(a, book, written),
        book.len() + a.snd_queue.len() < 0x1_0000_0000,
    ensures
        ({
            let t = model::flushed(a);
            let longer = book + newly_booked(a);
            &&& longer.len() < 0x1_0000_0000
            &&& keeps_the_book(t, longer, written)
            &&& t.packets.len() >= a.packets.len()
            &&& forall|i: int|
                a.packets.len() <= i < t.packets.len() ==> speaks(#[trigger] t.packets[i], 0, longer)
        }),
{
    let s3 = model::probes_flushed(
        model::probe_scheduled(model::acks_flushed(a)),
        model::last_header(a),
    );
    validity::lemma_probes_valid(a);
    assert(keeps_the_book_but_buf(s3, book, written));
    lemma_admitted_books(
        s3,
        model::effective_window(s3),
        model::unused_window(a),
        book,
        written,
    );
    let p = model::prepared(a);
    let more = newly_booked(a);
    let longer = book + more;
    assert(keeps_the_book_but_buf(p, longer, written));
    law_flush_puts_the_book_on_the_wire(a, longer);
    validity::lemma_prepared(a);
    let c = model::round_of(a);
    validity::lemma_transmitted(p, c, p.snd_buf.len());
    let t = model::flushed(a);
    reveal(model::flushed);
    assert(t.snd_queue == p.snd_queue && t.snd_nxt == p.snd_nxt && t.mss == p.mss);
    assert forall|i: int| 0 <= i < t.snd_buf.len() implies (#[trigger] t.snd_buf[i]).cmd
        == KCP_CMD_PUSH && agrees(t.snd_buf[i], longer) && t.snd_buf[i].data.len() <= t.mss by {
        assert(t.snd_buf[i] == model::after_round(p.snd_buf[i], c));
        assert(agrees(p.snd_buf[i], longer));
    }
}

/// Whether segments in flight are in the book and within the segment size.
pub open spec fn kept(b: Seq<Segment>, book: Seq<Content>, mss: usize) -> bool {
    forall|i: int|
        0 <= i < b.len() ==> (#[trigger] b[i]).cmd == KCP_CMD_PUSH && agrees(b[i], book)
            && b[i].data.len() <= mss
}

proof fn lemma_from_una_kept(b: Seq<Segment>, una: u32, book: Seq<Content>, mss: usize)
    requires
        kept(b, book, mss),
    ensures
        kept(model::from_una(b, una), book, mss),
    decreases b.len(),
{
    if b.len() > 0 && model::difference(una, b[0].sn) > 0 {
        let t = b.drop_first();
        assert forall|i: int| 0 <= i < t.len() implies (#[trigger] t[i]).cmd == KCP_CMD_PUSH
            && agrees(t[i], book) && t[i].data.len() <= mss by {
            assert(t[i] == b[i + 1]);
        }
        lemma_from_una_kept(t, una, book, mss);
    }
}

proof fn lemma_acknowledged_kept(s: State, sn: u32, book: Seq<Content>)
    requires
        kept(s.snd_buf, book, s.mss),
    ensures
        kept(model::acknowledged(s, sn).snd_buf, book, s.mss),
{
    let b = s.snd_buf;
    let k = model::first_not_below(b, sn, 0);
    lemma_first_not_below(b, sn, 0);
    if model::in_flight(s, sn) && k < b.len() && b[k].sn == sn {
        let t = b.remove(k);
        assert forall|i: int| 0 <= i < t.len() implies (#[trigger] t[i]).cmd == KCP_CMD_PUSH
            && agrees(t[i], book) && t[i].data.len() <= s.mss by {
            if i < k {
                assert(t[i] == b[i]);
            } else {
                assert(t[i] == b[i + 1]);
            }
        }
    }
}

pub proof fn lemma_first_not_below(b: Seq<Segment>, sn: u32, i: int)
    ensures
        model::first_not_below(b, sn, i) >= i,
    decreases b.len() - i,
{
    if !(i >= b.len() || b[i].sn >= sn) {
        lemma_first_not_below(b, sn, i + 1);
    }
}

proof fn lemma_skipped_kept(s: State, sn: u32, ts: u32, book: Seq<Content>)
    requires
        kept(s.snd_buf, book, s.mss),
    ensures
        kept(model::skipped(s, sn, ts).snd_buf, book, s.mss),
{
    let t = model::skipped(s, sn, ts);
    assert forall|i: int| 0 <= i < t.snd_buf.len() implies (#[trigger] t.snd_buf[i]).cmd
        == KCP_CMD_PUSH && agrees(t.snd_buf[i], book) && t.snd_buf[i].data.len() <= s.mss by {
        assert(agrees(s.snd_buf[i], book));
        assert(s.snd_buf[i].cmd == KCP_CMD_PUSH);
    }
}

/// Whether `t` has the queue, the numbering and the output of `s`.
pub open spec fn sends_alike(s: State, t: State) -> bool {
    &&& t.snd_nxt == s.snd_nxt
    &&& t.snd_queue == s.snd_queue
    &&& t.mss == s.mss
    &&& t.buf == s.buf
    &&& t.packets == s.packets
}

proof fn lemma_step_kept(a: State, acks: Acks, d: Seq<u8>, pos: int, book: Seq<Content>)
    requires
        kept(a.snd_buf, book, a.mss),
    ensures
        match model::input_step(a, acks, d, pos) {
            Step::Fail(t, _) => kept(t.snd_buf, book, t.mss) && sends_alike(a, t),
            Step::Next(t, _, _) => kept(t.snd_buf, book, t.mss) && sends_alike(a, t),
        },
{
    reveal(model::input_step);
    let conv = bytes::le32_at(d, pos);
    let len = bytes::le32_at(d, pos + 20);
    let g = model::header_at(d, pos, len as nat);
    let s1 = if conv != a.conv {
        State { conv, input_conv: false, ..a }
    } else {
        a
    };
    lemma_from_una_kept(s1.snd_buf, g.una, book, a.mss);
    let s2 = model::shrunk(
        State { rmt_wnd: g.wnd, snd_buf: model::from_una(s1.snd_buf, g.una), ..s1 },
    );
    let s4 = State { acklist: s2.acklist.push((g.sn, g.ts)), ..s2 };
    validity::lemma_stored(s4, g);
    let rtt = model::difference(s2.current, g.ts);
    let s3 = if rtt >= 0 {
        model::smoothed(s2, rtt)
    } else {
        s2
    };
    lemma_acknowledged_kept(s3, g.sn, book);
}

proof fn lemma_input_kept(
    a: State,
    acks: Acks,
    d: Seq<u8>,
    pos: int,
    old_una: u32,
    book: Seq<Content>,
)
    requires
        kept(a.snd_buf, book, a.mss),
    ensures
        ({
            let t = model::input_from(a, acks, d, pos, old_una).0;
            kept(t.snd_buf, book, t.mss) && sends_alike(a, t)
        }),
    decreases d.len() - pos,
{
    if d.len() - pos >= KCP_OVERHEAD {
        lemma_step_kept(a, acks, d, pos, book);
        match model::input_step(a, acks, d, pos) {
            Step::Fail(_, _) => {},
            Step::Next(t, e, next) => {
                if next > pos && next <= d.len() {
                    lemma_input_kept(t, e, d, next, old_una, book);
                }
            },
        }
    } else if acks.flag {
        lemma_skipped_kept(a, acks.max_ack, acks.latest_ts, book);
    }
}

/// Whatever arrives at the sending end, it keeps the book.
pub proof fn law_arrivals_keep_the_book(
    a: State,
    d: Seq<u8>,
    book: Seq<Content>,
    written: Seq<u8>,
)
    requires
        keeps_the_book(a, book, written),
    ensures
        keeps_the_book(model::input_all(a, d).0, book, written),
        model::input_all(a, d).0.packets == a.packets,
{
    assert(kept(a.snd_buf, book, a.mss));
    if d.len() >= KCP_OVERHEAD {
        lemma_input_kept(
            a,
            Acks { flag: false, max_ack: 0, latest_ts: 0 },
            d,
            0,
            a.snd_una,
            book,
        );
        let t = model::input_all(a, d).0;
        assert forall|i: int| 0 <= i < t.snd_buf.len() implies (#[trigger] t.snd_buf[i]).cmd
            == KCP_CMD_PUSH && agrees(t.snd_buf[i], book) && t.snd_buf[i].data.len()
            <= t.mss by {}
    }
}

/// What a write leaves in the queue: all of the data, or where it is refused
/// what went into the last segment.
pub open spec fn queued_by(a: State, data: Seq<u8>) -> Seq<u8> {
    if model::sent(a, data).1 {
        data
    } else {
        data.take(model::merged_len(a, data))
    }
}

/// A write puts its data behind what was written.
pub proof fn law_writes_keep_the_book(
    a: State,
    data: Seq<u8>,
    book: Seq<Content>,
    written: Seq<u8>,
)
    requires
        model::valid(a),
        keeps_the_book(a, book, written),
    ensures
        keeps_the_book(model::sent(a, data).0, book, written + queued_by(a, data)),
        model::sent(a, data).0.packets == a.packets,
{
    let t = model::sent(a, data).0;
    let m = model::merged(a, data);
    let n = model::merged_len(a, data);
    assert(model::flattened(m.snd_queue) == model::flattened(a.snd_queue) + data.take(n)) by {
        if a.stream && a.snd_queue.len() > 0 && a.snd_queue.last().data.len() < a.mss {
            assert(m.snd_queue.drop_last() =~= a.snd_queue.drop_last());
            assert(model::flattened(m.snd_queue) =~= model::flattened(a.snd_queue) + data.take(n));
        } else {
            assert(model::flattened(m.snd_queue) =~= model::flattened(a.snd_queue) + data.take(n));
        }
    }
    if model::sent(a, data).1 {
        laws::law_send_appends_the_data(a, data);
    }
    assert(joined(book) + model::flattened(t.snd_queue) =~= written + queued_by(a, data));
    assert forall|i: int| 0 <= i < m.snd_queue.len() implies (
    #[trigger] m.snd_queue[i]).data.len() <= a.mss by {
        if i < a.snd_queue.len() - 1 {
            assert(m.snd_queue[i] == a.snd_queue[i]);
        }
        assert(a.snd_queue[i].data.len() <= a.mss);
    }
    let rest = data.skip(n);
    let f = model::fragments(rest, a.mss, a.stream);
    assert forall|i: int| 0 <= i < t.snd_queue.len() implies (
    #[trigger] t.snd_queue[i]).data.len() <= t.mss by {
        if i < m.snd_queue.len() {
            assert(t.snd_queue[i] == m.snd_queue[i]);
        } else {
            let j = i - m.snd_queue.len();
            assert(t.snd_queue[i] == f[j]);
            assert((j + 1) * a.mss == j * a.mss + a.mss) by (nonlinear_arith);
            assert(j * a.mss >= 0) by (nonlinear_arith)
                requires
                    j >= 0,
            ;
        }
    }
    assert forall|i: int| 0 <= i < t.snd_buf.len() implies (#[trigger] t.snd_buf[i]).data.len()
        <= t.mss by {
        assert(t.snd_buf[i] == a.snd_buf[i]);
    }
}

// ── both ends ───────────────────────────────────────────────────────────

/// A writer, a reader, and the network between them.
#[verifier::ext_equal]
pub struct Link {
    /// The writing end.
    pub a: State,
    /// The reading end.
    pub b: State,
    /// What was written so far.
    pub written: Seq<u8>,
    /// What was read so far.
    pub read: Seq<u8>,
    /// What was given a number so far.
    pub book: Seq<Content>,
    /// Every packet that the writing end has handed out. The network may deliver
    /// any of them, at any time, any number of times, or never.
    pub wire: Seq<Seq<u8>>,
}

/// What can happen.
pub enum Move {
    /// The writing end is given data.
    Write(Seq<u8>),
    /// The writing end is updated; its packets go to the network.
    UpdateWriter(u32),
    /// A datagram arrives at the writing end, from whomever.
    ArriveAtWriter(Seq<u8>),
    /// A packet of the writing end arrives at the reading end.
    Deliver(int),
    /// The reading end is updated.
    UpdateReader(u32),
    /// A message is read.
    Read,
}

/// Whether a move can happen: a packet can only arrive once it was handed out,
/// a message can only be read once it is complete, and no number is given
/// twice.
pub open spec fn possible(l: Link, m: Move) -> bool {
    match m {
        Move::Write(_) => true,
        Move::UpdateWriter(_) => l.book.len() + l.a.snd_queue.len() < 0x1_0000_0000,
        Move::ArriveAtWriter(_) => true,
        Move::Deliver(i) => 0 <= i < l.wire.len(),
        Move::UpdateReader(_) => true,
        Move::Read => model::receive_error(l.b.rcv_queue) is None,
    }
}

/// What an update numbers.
pub open spec fn booked_by_update(a: State, current: u32) -> Seq<Content> {
    if model::flush_time(a.updated, a.ts_flush, a.interval, current).1 {
        newly_booked(model::timed(a, current))
    } else {
        Seq::empty()
    }
}

/// The link after a move.
pub open spec fn after(l: Link, m: Move) -> Link {
    match m {
        Move::Write(data) => Link {
            a: model::sent(l.a, data).0,
            written: l.written + queued_by(l.a, data),
            ..l
        },
        Move::UpdateWriter(current) => {
            let t = model::updated_at(l.a, current);
            Link {
                a: State { packets: Seq::empty(), ..t },
                book: l.book + booked_by_update(l.a, current),
                wire: l.wire + t.packets,
                ..l
            }
        },
        Move::ArriveAtWriter(d) => Link { a: model::input_all(l.a, d).0, ..l },
        Move::Deliver(i) => Link { b: model::input_all(l.b, l.wire[i]).0, ..l },
        Move::UpdateReader(current) => Link {
            b: State { packets: Seq::empty(), ..model::updated_at(l.b, current) },
            ..l
        },
        Move::Read => Link {
            b: model::received(l.b),
            read: l.read + model::message(l.b.rcv_queue),
            ..l
        },
    }
}

/// What always holds of a link.
pub open spec fn sound(l: Link) -> bool {
    &&& model::valid(l.a)
    &&& l.a.packets.len() == 0
    &&& keeps_the_book(l.a, l.book, l.written)
    &&& in_step(l.b, l.book, l.read)
    &&& forall|i: int| 0 <= i < l.wire.len() ==> speaks(#[trigger] l.wire[i], 0, l.book)
}

/// A link that has just begun: both ends are fresh, however they are set up.
pub open spec fn fresh(l: Link) -> bool {
    &&& model::valid(l.a)
    &&& l.a.mss <= u32::MAX
    &&& l.a.snd_nxt == 0 && l.a.snd_queue.len() == 0 && l.a.snd_buf.len() == 0
    &&& l.a.buf.len() == 0 && l.a.packets.len() == 0
    &&& l.b.rcv_nxt == 0 && l.b.rcv_queue.len() == 0 && l.b.rcv_buf.len() == 0
    &&& l.written.len() == 0 && l.read.len() == 0 && l.book.len() == 0 && l.wire.len() == 0
}

/// A fresh link is sound.
pub proof fn law_fresh_links_are_sound(l: Link)
    requires
        fresh(l),
    ensures
        sound(l),
{
    assert(joined(l.book) + model::flattened(l.a.snd_queue) =~= l.written);
    assert(l.read + model::flattened(l.b.rcv_queue) =~= joined(l.book.take(0)));
}

proof fn lemma_update_writer_sound(l: Link, current: u32)
    requires
        sound(l),
        possible(l, Move::UpdateWriter(current)),
    ensures
        sound(after(l, Move::UpdateWriter(current))),
{
    let s = model::timed(l.a, current);
    validity::lemma_timed_valid(l.a, current);
    assert(keeps_the_book(s, l.book, l.written));
    let t = model::updated_at(l.a, current);
    let more = booked_by_update(l.a, current);
    let longer = l.book + more;
    if model::flush_time(l.a.updated, l.a.ts_flush, l.a.interval, current).1 {
        law_flush_keeps_the_book(s, l.book, l.written);
        validity::lemma_flushed_valid(s);
    } else {
        assert(longer =~= l.book);
    }
    let u = State { packets: Seq::empty(), ..t };
    validity::lemma_packets_valid(t, Seq::empty());
    assert(keeps_the_book(u, longer, l.written));
    lemma_in_step_longer(l.b, l.book, more, l.read);
    let n = after(l, Move::UpdateWriter(current));
    assert forall|i: int| 0 <= i < n.wire.len() implies speaks(#[trigger] n.wire[i], 0, longer) by {
        if i < l.wire.len() {
            assert(n.wire[i] == l.wire[i]);
            lemma_speaks_longer(l.wire[i], 0, l.book, more);
        } else {
            assert(n.wire[i] == t.packets[i - l.wire.len()]);
        }
    }
}

/// Nothing that can happen makes a link unsound.
pub proof fn law_links_stay_sound(l: Link, m: Move)
    requires
        sound(l),
        possible(l, m),
    ensures
        sound(after(l, m)),
{
    match m {
        Move::Write(data) => {
            law_writes_keep_the_book(l.a, data, l.book, l.written);
            validity::lemma_sent_valid(l.a, data);
        },
        Move::UpdateWriter(current) => {
            lemma_update_writer_sound(l, current);
        },
        Move::ArriveAtWriter(d) => {
            law_arrivals_keep_the_book(l.a, d, l.book, l.written);
            laws::law_delivery_in_order(l.a, d);
        },
        Move::Deliver(i) => {
            law_arrivals_stay_in_step(l.b, l.wire[i], l.book, l.read);
        },
        Move::UpdateReader(current) => {
            lemma_flushed_receive_side(model::timed(l.b, current));
        },
        Move::Read => {
            law_reads_stay_in_step(l.b, l.book, l.read);
        },
    }
}

/// A link after some moves.
pub open spec fn run(l: Link, moves: Seq<Move>) -> Link
    decreases moves.len(),
{
    if moves.len() == 0 {
        l
    } else {
        after(run(l, moves.drop_last()), moves.last())
    }
}

/// Whether each move can happen when its turn comes.
pub open spec fn all_possible(l: Link, moves: Seq<Move>) -> bool
    decreases moves.len(),
{
    if moves.len() == 0 {
        true
    } else {
        all_possible(l, moves.drop_last()) && possible(run(l, moves.drop_last()), moves.last())
    }
}

proof fn lemma_joined_prefix(book: Seq<Content>, n: int)
    requires
        0 <= n <= book.len(),
    ensures
        joined(book.take(n)).is_prefix_of(joined(book)),
{
    assert(book.take(n) + book.skip(n) =~= book);
    lemma_joined_concat(book.take(n), book.skip(n));
    assert(joined(book).take(joined(book.take(n)).len() as int) =~= joined(book.take(n)));
}

/// The transport is reliable: whatever the network does with the packets, and
/// in whatever order things happen, what was read is a prefix of what was
/// written. No byte is lost in between, repeated, altered or out of place.
pub proof fn law_reads_are_a_prefix_of_writes(l: Link, moves: Seq<Move>)
    requires
        fresh(l),
        all_possible(l, moves),
    ensures
        run(l, moves).read.is_prefix_of(run(l, moves).written),
        sound(run(l, moves)),
    decreases moves.len(),
{
    let n = run(l, moves);
    if moves.len() == 0 {
        law_fresh_links_are_sound(l);
    } else {
        law_reads_are_a_prefix_of_writes(l, moves.drop_last());
        law_links_stay_sound(run(l, moves.drop_last()), moves.last());
    }
    let k = n.b.rcv_nxt as int;
    lemma_joined_prefix(n.book, k);
    let got = joined(n.book.take(k));
    assert(got.take(n.read.len() as int) =~= n.read);
    assert(joined(n.book).take(got.len() as int) =~= got);
    assert(n.written.take(joined(n.book).len() as int) =~= joined(n.book));
    assert forall|i: int| 0 <= i < n.read.len() implies n.read[i] == n.written[i] by {
        assert(got.take(n.read.len() as int)[i] == got[i]);
        assert(joined(n.book).take(got.len() as int)[i] == joined(n.book)[i]);
        assert(n.written.take(joined(n.book).len() as int)[i] == n.written[i]);
    }
}

} // verus!
