//! Delivery: once every segment of a message has arrived, in whatever order and
//! however often, the message is received, whole and in its turn.
use vstd::prelude::*;

use super::laws;
use super::model;
use super::model::{
    Acks, Round, Segment, State, Step, KCP_CMD_ACK, KCP_CMD_PUSH, KCP_CMD_WASK, KCP_CMD_WINS,
    KCP_OVERHEAD, KCP_RTO_NDL, KCP_WND_RCV, KCP_WND_SND,
};
use super::protocol::Error;
use super::reliability;
use super::reliability::Content;
use super::validity;
use crate::bytes;

verus! {

// ── datagrams ───────────────────────────────────────────────────────────

/// What segments carry.
pub open spec fn contents(gs: Seq<Segment>) -> Seq<Content> {
    Seq::new(gs.len(), |i: int| reliability::content(gs[i]))
}

/// Whether a segment belongs to the conversation, has a known command and a
/// payload within the segment size, and agrees with the book.
pub open spec fn good(g: Segment, conv: u32, mss: usize, book: Seq<Content>) -> bool {
    &&& g.conv == conv
    &&& g.cmd == KCP_CMD_PUSH || g.cmd == KCP_CMD_ACK || g.cmd == KCP_CMD_WASK || g.cmd
        == KCP_CMD_WINS
    &&& g.data.len() <= mss
    &&& reliability::agrees(g, book)
}

/// Whether a datagram is, from `pos` on, made of good segments and nothing else.
pub open spec fn well_told(d: Seq<u8>, pos: int, conv: u32, mss: usize, book: Seq<Content>) -> bool
    decreases d.len() - pos,
{
    if d.len() - pos < KCP_OVERHEAD {
        pos == d.len()
    } else {
        let len = bytes::le32_at(d, pos + 20);
        let next = pos + KCP_OVERHEAD + len;
        &&& next <= d.len()
        &&& good(model::header_at(d, pos, len as nat), conv, mss, book)
        &&& well_told(d, next, conv, mss, book)
    }
}

/// Whether a datagram holds, from `pos` on, the data segment `sn`.
pub open spec fn tells(d: Seq<u8>, pos: int, sn: int) -> bool
    decreases d.len() - pos,
{
    if d.len() - pos < KCP_OVERHEAD {
        false
    } else {
        let len = bytes::le32_at(d, pos + 20);
        let g = model::header_at(d, pos, len as nat);
        let next = pos + KCP_OVERHEAD + len;
        next <= d.len() && ((g.cmd == KCP_CMD_PUSH && g.sn == sn) || tells(d, next, sn))
    }
}

// ── the receiving end ───────────────────────────────────────────────────

/// Whether the segment `sn` is held back.
pub open spec fn buffered(b: Seq<Segment>, sn: int) -> bool {
    exists|i: int| 0 <= i < b.len() && (#[trigger] b[i]).sn == sn
}

/// Whether the segment `sn` has arrived.
pub open spec fn arrived(b: State, sn: int) -> bool {
    sn < b.rcv_nxt || buffered(b.rcv_buf, sn)
}

/// Whether nothing that is held back is next in order.
pub open spec fn settled(b: State) -> bool {
    !(b.rcv_buf.len() > 0 && b.rcv_buf[0].sn == b.rcv_nxt)
}

/// What waits to be read is the book up to the next expected number, what is
/// held back agrees with the book, and all of the book fits into the window.
pub open spec fn on_book(b: State, book: Seq<Content>) -> bool {
    &&& book.len() <= b.rcv_wnd
    &&& b.rcv_nxt <= book.len()
    &&& contents(b.rcv_queue) == book.take(b.rcv_nxt as int)
    &&& reliability::all_booked(b.rcv_buf, book)
}

/// A receiving end that has so far been given segments of the book alone, and
/// of which nothing was read.
pub open spec fn ready(b: State, book: Seq<Content>) -> bool {
    model::valid(b) && on_book(b, book) && settled(b)
}

/// Whether two receiving ends hold the same data: the same waits to be read, and
/// the same is held back.
pub open spec fn same_data(a: State, b: State) -> bool {
    &&& a.rcv_nxt == b.rcv_nxt
    &&& contents(a.rcv_queue) == contents(b.rcv_queue)
    &&& forall|sn: int| #[trigger] buffered(a.rcv_buf, sn) <==> buffered(b.rcv_buf, sn)
    &&& forall|i: int, j: int|
        0 <= i < a.rcv_buf.len() && 0 <= j < b.rcv_buf.len() && (#[trigger] a.rcv_buf[i]).sn == (
        #[trigger] b.rcv_buf[j]).sn ==> reliability::content(a.rcv_buf[i])
            == reliability::content(b.rcv_buf[j])
}

proof fn lemma_moved_on_book(b: State, book: Seq<Content>)
    requires
        on_book(b, book),
    ensures
        on_book(model::moved(b), book),
        settled(model::moved(b)),
        forall|sn: int| #[trigger] arrived(model::moved(b), sn) <==> arrived(b, sn),
    decreases b.rcv_buf.len(),
{
    if b.rcv_buf.len() > 0 && b.rcv_buf[0].sn == b.rcv_nxt {
        let g = b.rcv_buf[0];
        assert(reliability::agrees(g, book));
        assert(contents(b.rcv_queue).len() == b.rcv_queue.len());
        let t = State {
            rcv_buf: b.rcv_buf.drop_first(),
            rcv_queue: b.rcv_queue.push(g),
            rcv_nxt: model::plus(b.rcv_nxt, 1),
            ..b
        };
        let n = b.rcv_nxt as int;
        assert(contents(t.rcv_queue) =~= contents(b.rcv_queue).push(reliability::content(g)));
        assert(contents(t.rcv_queue) =~= book.take(n + 1));
        assert forall|i: int| 0 <= i < t.rcv_buf.len() implies (#[trigger] t.rcv_buf[i]).cmd
            == KCP_CMD_PUSH && reliability::agrees(t.rcv_buf[i], book) by {
            assert(t.rcv_buf[i] == b.rcv_buf[i + 1]);
        }
        lemma_moved_on_book(t, book);
        assert forall|sn: int| #[trigger] arrived(t, sn) <==> arrived(b, sn) by {
            if buffered(b.rcv_buf, sn) {
                let i = choose|i: int| 0 <= i < b.rcv_buf.len() && (#[trigger] b.rcv_buf[i]).sn == sn;
                if i > 0 {
                    assert(t.rcv_buf[i - 1] == b.rcv_buf[i]);
                }
            }
            if buffered(t.rcv_buf, sn) {
                let i = choose|i: int| 0 <= i < t.rcv_buf.len() && (#[trigger] t.rcv_buf[i]).sn == sn;
                assert(b.rcv_buf[i + 1] == t.rcv_buf[i]);
            }
        }
        assert(model::moved(b) == model::moved(t));
        assert forall|sn: int| #[trigger] arrived(model::moved(b), sn) <==> arrived(b, sn) by {
            assert(arrived(t, sn) <==> arrived(b, sn));
        }
    }
}

proof fn lemma_place(b: Seq<Segment>, sn: u32, i: int)
    requires
        0 <= i <= b.len(),
    ensures
        match model::place(b, sn, i) {
            Some(k) => 0 <= k <= i,
            None => buffered(b, sn as int),
        },
    decreases i,
{
    if i > 0 {
        lemma_place(b, sn, i - 1);
        if b[i - 1].sn == sn {
            assert(buffered(b, sn as int));
        }
    }
}

proof fn lemma_stored_on_book(b: State, g: Segment, book: Seq<Content>)
    requires
        on_book(b, book),
        settled(b),
        g.cmd == KCP_CMD_PUSH,
        reliability::agrees(g, book),
        g.sn >= b.rcv_nxt,
    ensures
        on_book(model::stored(b, g), book),
        settled(model::stored(b, g)),
        forall|sn: int| #[trigger] arrived(model::stored(b, g), sn) <==> arrived(b, sn) || sn == g.sn,
{
    assert(model::in_window(b, g.sn));
    lemma_place(b.rcv_buf, g.sn, b.rcv_buf.len() as int);
    match model::place(b.rcv_buf, g.sn, b.rcv_buf.len() as int) {
        Some(k) => {
            let t = State { rcv_buf: b.rcv_buf.insert(k, g), ..b };
            assert forall|i: int| 0 <= i < t.rcv_buf.len() implies (#[trigger] t.rcv_buf[i]).cmd
                == KCP_CMD_PUSH && reliability::agrees(t.rcv_buf[i], book) by {
                if i < k {
                    assert(t.rcv_buf[i] == b.rcv_buf[i]);
                } else if i > k {
                    assert(t.rcv_buf[i] == b.rcv_buf[i - 1]);
                }
            }
            lemma_moved_on_book(t, book);
            assert forall|sn: int| #[trigger] arrived(model::stored(b, g), sn) <==> arrived(b, sn) || sn
                == g.sn by {
                assert(arrived(model::moved(t), sn) <==> arrived(t, sn));
                if buffered(b.rcv_buf, sn) {
                    let i = choose|i: int|
                        0 <= i < b.rcv_buf.len() && (#[trigger] b.rcv_buf[i]).sn == sn;
                    assert(t.rcv_buf[if i < k {
                        i
                    } else {
                        i + 1
                    }] == b.rcv_buf[i]);
                }
                if sn == g.sn {
                    assert(t.rcv_buf[k].sn == sn);
                }
                if buffered(t.rcv_buf, sn) && sn != g.sn {
                    let i = choose|i: int|
                        0 <= i < t.rcv_buf.len() && (#[trigger] t.rcv_buf[i]).sn == sn;
                    assert(i != k);
                    assert(b.rcv_buf[if i < k {
                        i
                    } else {
                        i - 1
                    }] == t.rcv_buf[i]);
                }
            }
        },
        None => {
            assert(model::moved(b) == b);
        },
    }
}

/// Whether `t` is the same end of the same conversation as `s`.
spec fn same_end(s: State, t: State) -> bool {
    t.conv == s.conv && t.mss == s.mss && t.rcv_wnd == s.rcv_wnd
}

proof fn lemma_command_taken_in(s: State, a: Acks, g: Segment, book: Seq<Content>)
    requires
        on_book(s, book),
        settled(s),
        good(g, s.conv, s.mss, book),
    ensures
        model::command_step(s, a, g) matches Ok((t, _)) && {
            &&& on_book(t, book)
            &&& settled(t)
            &&& same_end(s, t)
            &&& forall|sn: int| #[trigger]
                arrived(t, sn) <==> arrived(s, sn) || (g.cmd == KCP_CMD_PUSH && g.sn == sn)
        },
{
    if g.cmd == KCP_CMD_PUSH {
        let s4 = State { acklist: s.acklist.push((g.sn, g.ts)), ..s };
        assert(g.sn < book.len());
        assert(model::difference(g.sn, model::plus(s.rcv_nxt, s.rcv_wnd as int)) < 0);
        assert(forall|sn: int| #[trigger] arrived(s4, sn) <==> arrived(s, sn));
        if g.sn >= s.rcv_nxt {
            assert(model::difference(g.sn, s.rcv_nxt) >= 0);
            assert(on_book(s4, book));
            lemma_stored_on_book(s4, g, book);
            validity::lemma_stored(s4, g);
            let t = model::stored(s4, g);
            assert forall|sn: int| #[trigger] arrived(t, sn) <==> arrived(s, sn) || g.sn == sn by {
                assert(arrived(s4, sn) <==> arrived(s, sn));
            }
        } else {
            assert(model::difference(g.sn, s.rcv_nxt) < 0);
        }
    }
}

#[verifier::spinoff_prover]
proof fn lemma_step_taken_in(b: State, a: Acks, d: Seq<u8>, pos: int, book: Seq<Content>)
    requires
        ready(b, book),
        0 <= pos,
        d.len() - pos >= KCP_OVERHEAD,
        well_told(d, pos, b.conv, b.mss, book),
    ensures
        model::input_step(b, a, d, pos) matches Step::Next(t, _, next) && {
            let len = bytes::le32_at(d, pos + 20);
            let g = model::header_at(d, pos, len as nat);
            &&& next == pos + KCP_OVERHEAD + len
            &&& next <= d.len()
            &&& well_told(d, next, b.conv, b.mss, book)
            &&& ready(t, book)
            &&& same_end(b, t)
            &&& forall|sn: int| #[trigger]
                arrived(t, sn) <==> arrived(b, sn) || (g.cmd == KCP_CMD_PUSH && g.sn == sn)
        },
{
    validity::lemma_input_step_valid(b, a, d, pos);
    let len = bytes::le32_at(d, pos + 20);
    let g = model::header_at(d, pos, len as nat);
    assert(good(g, b.conv, b.mss, book));
    let s2 = model::shrunk(
        State { rmt_wnd: g.wnd, snd_buf: model::from_una(b.snd_buf, g.una), ..b },
    );
    lemma_command_taken_in(s2, a, g, book);
    let (t, e) = model::command_step(s2, a, g)->Ok_0;
    assert(model::input_step(b, a, d, pos) == Step::Next(t, e, pos + KCP_OVERHEAD + len)) by {
        reveal(model::input_step);
    }
    assert forall|sn: int| #[trigger] arrived(t, sn) <==> arrived(b, sn) || (g.cmd == KCP_CMD_PUSH
        && g.sn == sn) by {
        assert(arrived(s2, sn) <==> arrived(b, sn));
    }
}

proof fn lemma_rest_taken_in(
    b: State,
    a: Acks,
    d: Seq<u8>,
    pos: int,
    old_una: u32,
    book: Seq<Content>,
)
    requires
        ready(b, book),
        0 <= pos <= d.len(),
        well_told(d, pos, b.conv, b.mss, book),
    ensures
        ({
            let (t, r) = model::input_from(b, a, d, pos, old_una);
            &&& r == Ok::<int, Error>(d.len() as int)
            &&& ready(t, book)
            &&& same_end(b, t)
            &&& forall|sn: int| #[trigger] arrived(t, sn) <==> arrived(b, sn) || tells(d, pos, sn)
        }),
    decreases d.len() - pos,
{
    validity::lemma_input_from_valid(b, a, d, pos, old_una);
    let (t, r) = model::input_from(b, a, d, pos, old_una);
    if d.len() - pos >= KCP_OVERHEAD {
        lemma_step_taken_in(b, a, d, pos, book);
        match model::input_step(b, a, d, pos) {
            Step::Fail(_, _) => {},
            Step::Next(u, e, next) => {
                lemma_rest_taken_in(u, e, d, next, old_una, book);
                assert forall|sn: int| #[trigger] arrived(t, sn) <==> arrived(b, sn) || tells(
                    d,
                    pos,
                    sn,
                ) by {
                    assert(arrived(t, sn) <==> arrived(u, sn) || tells(d, next, sn));
                }
            },
        }
    } else {
        assert forall|sn: int| #[trigger] arrived(t, sn) <==> arrived(b, sn) || tells(d, pos, sn) by {}
    }
}

/// A datagram made of segments of the book is taken in whole, and after it just
/// those segments have arrived that had before or that it holds.
pub proof fn law_good_datagrams_are_taken_in(b: State, d: Seq<u8>, book: Seq<Content>)
    requires
        ready(b, book),
        d.len() > 0,
        well_told(d, 0, b.conv, b.mss, book),
    ensures
        ({
            let (t, r) = model::input_all(b, d);
            &&& r == Ok::<int, Error>(d.len() as int)
            &&& ready(t, book)
            &&& t.conv == b.conv && t.mss == b.mss && t.rcv_wnd == b.rcv_wnd
            &&& forall|sn: int| #[trigger] arrived(t, sn) <==> arrived(b, sn) || tells(d, 0, sn)
        }),
{
    lemma_rest_taken_in(
        b,
        Acks { flag: false, max_ack: 0, latest_ts: 0 },
        d,
        0,
        b.snd_una,
        book,
    );
}

proof fn lemma_next_is_missing(b: State, book: Seq<Content>)
    requires
        ready(b, book),
    ensures
        !arrived(b, b.rcv_nxt as int),
{
    if arrived(b, b.rcv_nxt as int) {
        let i = choose|i: int|
            0 <= i < b.rcv_buf.len() && (#[trigger] b.rcv_buf[i]).sn == b.rcv_nxt as int;
        if i > 0 {
            assert(model::ahead(b.rcv_buf[0].sn, b.rcv_nxt) < model::ahead(
                b.rcv_buf[i].sn,
                b.rcv_nxt,
            ));
        }
    }
}

/// What a receiving end holds depends on what has arrived alone, not on the
/// order in which it came.
pub proof fn law_arrival_order_does_not_matter(a: State, b: State, book: Seq<Content>)
    requires
        ready(a, book),
        ready(b, book),
        forall|sn: int| #[trigger] arrived(a, sn) <==> arrived(b, sn),
    ensures
        same_data(a, b),
{
    lemma_next_is_missing(a, book);
    lemma_next_is_missing(b, book);
    assert(arrived(b, a.rcv_nxt as int) <==> arrived(a, a.rcv_nxt as int));
    assert(arrived(a, b.rcv_nxt as int) <==> arrived(b, b.rcv_nxt as int));
    assert forall|sn: int| #[trigger] buffered(a.rcv_buf, sn) <==> buffered(b.rcv_buf, sn) by {
        assert(arrived(a, sn) <==> arrived(b, sn));
        lemma_buffered_is_ahead(a, sn);
        lemma_buffered_is_ahead(b, sn);
    }
    assert forall|i: int, j: int|
        0 <= i < a.rcv_buf.len() && 0 <= j < b.rcv_buf.len() && (#[trigger] a.rcv_buf[i]).sn == (
        #[trigger] b.rcv_buf[j]).sn implies reliability::content(a.rcv_buf[i])
        == reliability::content(b.rcv_buf[j]) by {
        assert(reliability::agrees(a.rcv_buf[i], book));
        assert(reliability::agrees(b.rcv_buf[j], book));
    }
}

proof fn lemma_buffered_is_ahead(b: State, sn: int)
    requires
        model::valid(b),
        b.rcv_nxt < 0x1_0000,
    ensures
        buffered(b.rcv_buf, sn) ==> sn >= b.rcv_nxt,
{
    if buffered(b.rcv_buf, sn) {
        let i = choose|i: int| 0 <= i < b.rcv_buf.len() && (#[trigger] b.rcv_buf[i]).sn == sn;
        assert(model::ahead(b.rcv_buf[i].sn, b.rcv_nxt) < 0x1_0000);
    }
}

/// Once the segments below `n` have all arrived, they can be read.
proof fn lemma_arrived_is_in_order(b: State, book: Seq<Content>, n: int)
    requires
        ready(b, book),
        forall|sn: int| 0 <= sn < n ==> #[trigger] arrived(b, sn),
    ensures
        b.rcv_nxt >= n,
{
    lemma_next_is_missing(b, book);
    if b.rcv_nxt < n {
        assert(arrived(b, b.rcv_nxt as int));
    }
}

/// Datagrams taken in, one after the other, and whether each was taken in whole.
pub open spec fn all_taken_in(b: State, ds: Seq<Seq<u8>>) -> (State, bool)
    decreases ds.len(),
{
    if ds.len() == 0 {
        (b, true)
    } else {
        let (t, ok) = all_taken_in(b, ds.drop_last());
        let (u, r) = model::input_all(t, ds.last());
        (u, ok && r == Ok::<int, Error>(ds.last().len() as int))
    }
}

/// Whether one of the datagrams holds the data segment `sn`.
pub open spec fn told_in(ds: Seq<Seq<u8>>, sn: int) -> bool {
    exists|i: int| 0 <= i < ds.len() && tells(#[trigger] ds[i], 0, sn)
}

/// Datagrams made of segments of the book are taken in whole, in any order and
/// however often, and after them just those segments have arrived that had
/// before or that one of them holds.
pub proof fn law_all_good_datagrams_are_taken_in(b: State, ds: Seq<Seq<u8>>, book: Seq<Content>)
    requires
        ready(b, book),
        forall|i: int|
            0 <= i < ds.len() ==> (#[trigger] ds[i]).len() > 0 && well_told(
                ds[i],
                0,
                b.conv,
                b.mss,
                book,
            ),
    ensures
        ({
            let (t, ok) = all_taken_in(b, ds);
            &&& ok
            &&& ready(t, book)
            &&& t.conv == b.conv && t.mss == b.mss && t.rcv_wnd == b.rcv_wnd
            &&& forall|sn: int| #[trigger] arrived(t, sn) <==> arrived(b, sn) || told_in(ds, sn)
        }),
    decreases ds.len(),
{
    let (t, ok) = all_taken_in(b, ds);
    if ds.len() > 0 {
        let head = ds.drop_last();
        assert forall|i: int| 0 <= i < head.len() implies (#[trigger] head[i]).len() > 0
            && well_told(head[i], 0, b.conv, b.mss, book) by {
            assert(head[i] == ds[i]);
        }
        law_all_good_datagrams_are_taken_in(b, head, book);
        let u = all_taken_in(b, head).0;
        let last = ds[ds.len() - 1];
        law_good_datagrams_are_taken_in(u, last, book);
        assert forall|sn: int| #[trigger] arrived(t, sn) <==> arrived(b, sn) || told_in(ds, sn) by {
            assert(arrived(u, sn) <==> arrived(b, sn) || told_in(head, sn));
            if told_in(ds, sn) {
                let i = choose|i: int| 0 <= i < ds.len() && tells(#[trigger] ds[i], 0, sn);
                if i < head.len() {
                    assert(head[i] == ds[i]);
                }
            }
            if told_in(head, sn) {
                let i = choose|i: int| 0 <= i < head.len() && tells(#[trigger] head[i], 0, sn);
                assert(ds[i] == head[i]);
            }
            if tells(last, 0, sn) {
                assert(tells(ds[ds.len() - 1], 0, sn));
            }
        }
    }
}

// ── reading ─────────────────────────────────────────────────────────────

/// What messages are split into, one behind the other.
pub open spec fn book_of(msgs: Seq<Seq<u8>>, mss: usize) -> Seq<Content>
    decreases msgs.len(),
{
    if msgs.len() == 0 {
        Seq::empty()
    } else {
        contents(model::fragments(msgs[0], mss, false)) + book_of(msgs.drop_first(), mss)
    }
}

/// Whether successive reads, each with room enough, give these messages.
pub open spec fn reads(b: State, msgs: Seq<Seq<u8>>) -> bool
    decreases msgs.len(),
{
    msgs.len() > 0 ==> {
        &&& model::receive_error(b.rcv_queue) is None
        &&& model::message(b.rcv_queue) == msgs[0]
        &&& reads(model::received(b), msgs.drop_first())
    }
}

/// The state after `n` messages were read.
pub open spec fn after_reads(b: State, n: nat) -> State
    decreases n,
{
    if n == 0 {
        b
    } else {
        after_reads(model::received(b), (n - 1) as nat)
    }
}

/// Whether each message is one that `send` takes.
pub open spec fn all_sendable(msgs: Seq<Seq<u8>>, mss: usize) -> bool {
    forall|i: int|
        0 <= i < msgs.len() ==> model::fragment_count((#[trigger] msgs[i]).len(), mss) < KCP_WND_RCV
}

proof fn lemma_reads(b: State, msgs: Seq<Seq<u8>>, mss: usize, rest: Seq<Content>)
    requires
        mss > 0,
        all_sendable(msgs, mss),
        settled(b),
        contents(b.rcv_queue) == book_of(msgs, mss) + rest,
    ensures
        reads(b, msgs),
        contents(after_reads(b, msgs.len()).rcv_queue) == rest,
    decreases msgs.len(),
{
    if msgs.len() == 0 {
        assert(book_of(msgs, mss) + rest =~= rest);
    } else {
        let q = b.rcv_queue;
        let all = model::fragments(msgs[0], mss, false);
        let n = all.len() as int;
        let more = msgs.drop_first();
        let c = contents(q);
        assert(c == contents(all) + book_of(more, mss) + rest);
        assert(c.len() == q.len());
        let (front, back) = (q.take(n), q.skip(n));
        assert(front + back =~= q);
        assert forall|i: int| 0 <= i < front.len() implies (#[trigger] front[i]).frg == all[i].frg
            && front[i].data == all[i].data by {
            assert(c[i] == reliability::content(q[i]));
            assert(c[i] == contents(all)[i]);
        }
        assert(model::fragment_count(msgs[0].len(), mss) < KCP_WND_RCV);
        laws::law_message_reassembles(msgs[0], mss, front, back);
        let t = State { rcv_queue: back, ..b };
        assert(model::moved(t) == t);
        let r = model::received(b);
        assert(r.rcv_queue == back);
        assert(contents(back) =~= book_of(more, mss) + rest) by {
            assert forall|i: int| 0 <= i < back.len() implies contents(back)[i] == (book_of(
                more,
                mss,
            ) + rest)[i] by {
                assert(c[n + i] == reliability::content(q[n + i]));
            }
        }
        assert forall|i: int| 0 <= i < more.len() implies model::fragment_count(
            (#[trigger] more[i]).len(),
            mss,
        ) < KCP_WND_RCV by {
            assert(more[i] == msgs[i + 1]);
        }
        lemma_reads(r, more, mss, rest);
    }
}

/// Messages come out whole and in their turn: once all segments of the first
/// messages have arrived, in whatever order, successive reads give those
/// messages, each once and within its bounds, and leave what follows them.
pub proof fn law_arrived_messages_are_read(
    b: State,
    msgs: Seq<Seq<u8>>,
    mss: usize,
    book: Seq<Content>,
)
    requires
        mss > 0,
        all_sendable(msgs, mss),
        ready(b, book),
        book_of(msgs, mss).is_prefix_of(book),
        forall|sn: int| 0 <= sn < book_of(msgs, mss).len() ==> #[trigger] arrived(b, sn),
    ensures
        reads(b, msgs),
        contents(after_reads(b, msgs.len()).rcv_queue) == book.subrange(
            book_of(msgs, mss).len() as int,
            b.rcv_nxt as int,
        ),
{
    let m = book_of(msgs, mss);
    let n = m.len() as int;
    lemma_arrived_is_in_order(b, book, n);
    let rest = book.subrange(n, b.rcv_nxt as int);
    assert(book.take(n) =~= m);
    assert(book.take(b.rcv_nxt as int) =~= m + rest);
    lemma_reads(b, msgs, mss, rest);
}

// ── the sending end ─────────────────────────────────────────────────────

/// Bytes that are the wire forms of these good segments.
pub open spec fn told_by(
    x: Seq<u8>,
    gs: Seq<Segment>,
    conv: u32,
    mss: usize,
    book: Seq<Content>,
) -> bool {
    x == reliability::wire_of(gs) && forall|i: int|
        0 <= i < gs.len() ==> good(#[trigger] gs[i], conv, mss, book)
}

/// Bytes that are the wire forms of good segments.
pub open spec fn told(x: Seq<u8>, conv: u32, mss: usize, book: Seq<Content>) -> bool {
    exists|gs: Seq<Segment>| told_by(x, gs, conv, mss, book)
}

/// Whether the data segment `sn` is one of these segments.
pub open spec fn mentioned_by(x: Seq<u8>, gs: Seq<Segment>, mss: usize, sn: int) -> bool {
    &&& x == reliability::wire_of(gs)
    &&& forall|i: int| 0 <= i < gs.len() ==> (#[trigger] gs[i]).data.len() <= mss
    &&& exists|i: int| 0 <= i < gs.len() && (#[trigger] gs[i]).cmd == KCP_CMD_PUSH && gs[i].sn == sn
}

/// Whether bytes are the wire forms of segments, the data segment `sn` among
/// them.
pub open spec fn mentions(x: Seq<u8>, mss: usize, sn: int) -> bool {
    exists|gs: Seq<Segment>| mentioned_by(x, gs, mss, sn)
}

proof fn lemma_wire_split(gs: Seq<Segment>, k: int)
    requires
        0 <= k < gs.len(),
        gs[k].data.len() <= u32::MAX,
    ensures
        ({
            let d = reliability::wire_of(gs);
            let pos = reliability::wire_of(gs.take(k)).len() as int;
            let g = gs[k];
            let h = model::header_at(d, pos, g.data.len());
            &&& d.len() - pos >= KCP_OVERHEAD
            &&& bytes::le32_at(d, pos + 20) == g.data.len()
            &&& h == (Segment { resendts: 0, rto: 0, fastack: 0, xmit: 0, ..g })
            &&& reliability::wire_of(gs.take(k + 1)).len() == pos + KCP_OVERHEAD + g.data.len()
            &&& pos + KCP_OVERHEAD + g.data.len() <= d.len()
        }),
{
    let d = reliability::wire_of(gs);
    let g = gs[k];
    let before = reliability::wire_of(gs.take(k));
    let behind = reliability::wire_of(gs.skip(k + 1));
    assert(gs.take(k + 1).drop_last() =~= gs.take(k));
    assert(gs.take(k + 1).last() == g);
    assert(gs.take(k + 1) + gs.skip(k + 1) =~= gs);
    reliability::lemma_wire_concat(gs.take(k + 1), gs.skip(k + 1));
    assert(d =~= before + model::encoded(g) + behind);
    laws::law_segment_roundtrip(before, g, behind);
}

proof fn lemma_wire_well_told(
    gs: Seq<Segment>,
    k: int,
    conv: u32,
    mss: usize,
    book: Seq<Content>,
)
    requires
        mss <= u32::MAX,
        0 <= k <= gs.len(),
        told_by(reliability::wire_of(gs), gs, conv, mss, book),
    ensures
        well_told(
            reliability::wire_of(gs),
            reliability::wire_of(gs.take(k)).len() as int,
            conv,
            mss,
            book,
        ),
    decreases gs.len() - k,
{
    if k == gs.len() {
        assert(gs.take(k) =~= gs);
    } else {
        assert(good(gs[k], conv, mss, book));
        lemma_wire_split(gs, k);
        lemma_wire_well_told(gs, k + 1, conv, mss, book);
    }
}

proof fn lemma_wire_tells(gs: Seq<Segment>, k: int, j: int)
    requires
        forall|i: int| 0 <= i < gs.len() ==> (#[trigger] gs[i]).data.len() <= u32::MAX,
        0 <= k <= j < gs.len(),
        gs[j].cmd == KCP_CMD_PUSH,
    ensures
        tells(
            reliability::wire_of(gs),
            reliability::wire_of(gs.take(k)).len() as int,
            gs[j].sn as int,
        ),
    decreases gs.len() - k,
{
    assert(gs[k].data.len() <= u32::MAX);
    lemma_wire_split(gs, k);
    if k < j {
        lemma_wire_tells(gs, k + 1, j);
    }
}

proof fn lemma_told(x: Seq<u8>, conv: u32, mss: usize, book: Seq<Content>)
    requires
        mss <= u32::MAX,
        told(x, conv, mss, book),
    ensures
        well_told(x, 0, conv, mss, book),
{
    let gs = choose|gs: Seq<Segment>| told_by(x, gs, conv, mss, book);
    assert(gs.take(0) =~= Seq::empty());
    lemma_wire_well_told(gs, 0, conv, mss, book);
}

proof fn lemma_mentions(x: Seq<u8>, mss: usize, sn: int)
    requires
        mss <= u32::MAX,
        mentions(x, mss, sn),
    ensures
        tells(x, 0, sn),
{
    let gs = choose|gs: Seq<Segment>| mentioned_by(x, gs, mss, sn);
    let j = choose|j: int|
        0 <= j < gs.len() && (#[trigger] gs[j]).cmd == KCP_CMD_PUSH && gs[j].sn == sn;
    assert(gs.take(0) =~= Seq::empty());
    lemma_wire_tells(gs, 0, j);
}

/// What was handed out and what waits to be are good segments.
pub open spec fn output_told(s: State, mss: usize, book: Seq<Content>) -> bool {
    &&& told(s.buf, s.conv, mss, book)
    &&& forall|i: int| 0 <= i < s.packets.len() ==> told(#[trigger] s.packets[i], s.conv, mss, book)
    &&& forall|i: int| 0 <= i < s.packets.len() ==> (#[trigger] s.packets[i]).len() > 0
}

/// The data segment `sn` was handed out or waits to be.
spec fn output_mentions(s: State, mss: usize, sn: int) -> bool {
    ||| mentions(s.buf, mss, sn)
    ||| exists|i: int| 0 <= i < s.packets.len() && mentions(#[trigger] s.packets[i], mss, sn)
}

proof fn lemma_told_empty(conv: u32, mss: usize, book: Seq<Content>)
    ensures
        told(Seq::empty(), conv, mss, book),
{
    assert(told_by(Seq::empty(), Seq::<Segment>::empty(), conv, mss, book));
}

proof fn lemma_pushed_out(s: State, mss: usize, book: Seq<Content>)
    requires
        output_told(s, mss, book),
    ensures
        output_told(model::pushed_out(s), mss, book),
        model::pushed_out(s).buf.len() == 0,
        forall|sn: int| #[trigger]
            output_mentions(s, mss, sn) ==> output_mentions(model::pushed_out(s), mss, sn),
        forall|sn: int| #[trigger]
            output_mentions(s, mss, sn) ==> exists|i: int|
                0 <= i < model::pushed_out(s).packets.len() && mentions(
                    #[trigger] model::pushed_out(s).packets[i],
                    mss,
                    sn,
                ),
{
    lemma_told_empty(s.conv, mss, book);
    let t = model::pushed_out(s);
    assert forall|i: int| 0 <= i < t.packets.len() implies told(
        #[trigger] t.packets[i],
        t.conv,
        mss,
        book,
    ) && t.packets[i].len() > 0 by {
        if i < s.packets.len() {
            assert(t.packets[i] == s.packets[i]);
        }
    }
    assert forall|sn: int| #[trigger] output_mentions(s, mss, sn) implies exists|i: int|
        0 <= i < t.packets.len() && mentions(#[trigger] t.packets[i], mss, sn) by {
        if mentions(s.buf, mss, sn) {
            let gs = choose|gs: Seq<Segment>| mentioned_by(s.buf, gs, mss, sn);
            assert(gs.len() > 0);
            assert(model::encoded(gs.last()).len() >= KCP_OVERHEAD);
            assert(s.buf.len() > 0);
            assert(t.packets[s.packets.len() as int] == s.buf);
        } else {
            let i = choose|i: int| 0 <= i < s.packets.len() && mentions(#[trigger] s.packets[i], mss, sn);
            assert(t.packets[i] == s.packets[i]);
        }
    }
}

proof fn lemma_emitted(s: State, g: Segment, mss: usize, book: Seq<Content>)
    requires
        output_told(s, mss, book),
        good(g, s.conv, mss, book),
    ensures
        output_told(model::emitted(s, g), mss, book),
        g.cmd == KCP_CMD_PUSH ==> output_mentions(model::emitted(s, g), mss, g.sn as int),
        forall|sn: int| #[trigger]
            output_mentions(s, mss, sn) ==> output_mentions(model::emitted(s, g), mss, sn),
{
    lemma_pushed_out(s, mss, book);
    let t = if s.buf.len() + KCP_OVERHEAD + g.data.len() > s.mtu {
        model::pushed_out(s)
    } else {
        s
    };
    let u = model::emitted(s, g);
    let gs = choose|gs: Seq<Segment>| told_by(t.buf, gs, s.conv, mss, book);
    let hs = gs.push(g);
    assert(hs.drop_last() =~= gs);
    assert forall|i: int| 0 <= i < hs.len() implies good(#[trigger] hs[i], s.conv, mss, book) by {
        if i < gs.len() {
            assert(hs[i] == gs[i]);
        }
    }
    assert(told_by(u.buf, hs, s.conv, mss, book));
    if g.cmd == KCP_CMD_PUSH {
        assert(hs[hs.len() - 1] == g);
        assert(mentioned_by(u.buf, hs, mss, g.sn as int));
    }
    assert forall|sn: int| #[trigger] output_mentions(s, mss, sn) implies output_mentions(
        u,
        mss,
        sn,
    ) by {
        assert(output_mentions(t, mss, sn));
        if mentions(t.buf, mss, sn) {
            let ms = choose|ms: Seq<Segment>| mentioned_by(t.buf, ms, mss, sn);
            let ns = ms.push(g);
            assert(ns.drop_last() =~= ms);
            let j = choose|j: int|
                0 <= j < ms.len() && (#[trigger] ms[j]).cmd == KCP_CMD_PUSH && ms[j].sn == sn;
            assert(ns[j] == ms[j]);
            assert forall|i: int| 0 <= i < ns.len() implies (#[trigger] ns[i]).data.len() <= mss by {
                if i < ms.len() {
                    assert(ns[i] == ms[i]);
                }
            }
            assert(mentioned_by(u.buf, ns, mss, sn));
        } else {
            let i = choose|i: int|
                0 <= i < t.packets.len() && mentions(#[trigger] t.packets[i], mss, sn);
            assert(u.packets[i] == t.packets[i]);
        }
    }
}

/// New segments of the book, numbered from 0 on.
spec fn all_new(b: Seq<Segment>, conv: u32, mss: usize, book: Seq<Content>) -> bool {
    forall|i: int|
        0 <= i < b.len() ==> good(#[trigger] b[i], conv, mss, book) && b[i].cmd == KCP_CMD_PUSH
            && b[i].xmit == 0 && b[i].sn == i
}

proof fn lemma_transmitted(s: State, c: Round, k: nat, mss: usize, book: Seq<Content>)
    requires
        output_told(s, mss, book),
        all_new(s.snd_buf, s.conv, mss, book),
        k <= s.snd_buf.len(),
    ensures
        output_told(model::transmitted(s, c, k), mss, book),
        model::transmitted(s, c, k).conv == s.conv,
        forall|sn: int|
            0 <= sn < k ==> #[trigger] output_mentions(model::transmitted(s, c, k), mss, sn),
    decreases k,
{
    if k > 0 {
        let k1 = (k - 1) as nat;
        lemma_transmitted(s, c, k1, mss, book);
        let t = model::transmitted(s, c, k1);
        let g = s.snd_buf[k - 1];
        let h = model::after_round(g, c);
        let u = State {
            snd_buf: t.snd_buf.update(k - 1, h),
            dead: t.dead || h.xmit >= c.dead_link,
            ..t
        };
        assert(good(g, s.conv, mss, book));
        assert(good(h, s.conv, mss, book));
        assert(output_told(u, mss, book));
        lemma_emitted(u, h, mss, book);
        assert(model::transmitted(s, c, k) == model::emitted(u, h));
        assert forall|sn: int| 0 <= sn < k implies #[trigger] output_mentions(
            model::transmitted(s, c, k),
            mss,
            sn,
        ) by {
            if sn < k1 {
                assert(output_mentions(t, mss, sn));
                assert(output_mentions(u, mss, sn));
            }
        }
    }
}

proof fn lemma_all_admitted(s: State, cwnd: u16, wnd: u16, mss: usize, book: Seq<Content>)
    requires
        s.snd_una == 0,
        s.snd_nxt == s.snd_buf.len(),
        s.snd_nxt + s.snd_queue.len() <= cwnd,
        all_new(s.snd_buf, s.conv, mss, book),
        book.len() == s.snd_nxt + s.snd_queue.len(),
        contents(s.snd_queue) == book.skip(s.snd_nxt as int),
        forall|i: int| 0 <= i < s.snd_queue.len() ==> (#[trigger] s.snd_queue[i]).data.len() <= mss,
    ensures
        ({
            let t = model::admitted(s, cwnd, wnd);
            &&& t.snd_queue.len() == 0
            &&& t.snd_buf.len() == book.len()
            &&& all_new(t.snd_buf, s.conv, mss, book)
        }),
    decreases s.snd_queue.len(),
{
    if s.snd_queue.len() > 0 {
        assert(model::difference(s.snd_nxt, model::plus(s.snd_una, cwnd as int)) < 0);
        let q = s.snd_queue[0];
        let g = model::numbered(s, q, wnd);
        let t = State {
            snd_queue: s.snd_queue.drop_first(),
            snd_buf: s.snd_buf.push(g),
            snd_nxt: model::plus(s.snd_nxt, 1),
            ..s
        };
        let n = s.snd_nxt as int;
        assert(contents(s.snd_queue)[0] == reliability::content(q));
        assert(book.skip(n)[0] == book[n]);
        assert(reliability::content(g) == book[n]);
        assert forall|i: int| 0 <= i < t.snd_buf.len() implies good(
            #[trigger] t.snd_buf[i],
            t.conv,
            mss,
            book,
        ) && t.snd_buf[i].cmd == KCP_CMD_PUSH && t.snd_buf[i].xmit == 0 && t.snd_buf[i].sn == i by {
            if i < s.snd_buf.len() {
                assert(t.snd_buf[i] == s.snd_buf[i]);
            }
        }
        assert(contents(t.snd_queue) =~= book.skip(n + 1)) by {
            assert forall|i: int| 0 <= i < t.snd_queue.len() implies contents(t.snd_queue)[i]
                == book.skip(n + 1)[i] by {
                assert(contents(s.snd_queue)[i + 1] == book.skip(n)[i + 1]);
            }
        }
        assert forall|i: int| 0 <= i < t.snd_queue.len() implies (
        #[trigger] t.snd_queue[i]).data.len() <= mss by {
            assert(t.snd_queue[i] == s.snd_queue[i + 1]);
        }
        lemma_all_admitted(t, cwnd, wnd, mss, book);
    }
}

/// The first flush of a sending end whose windows are wide enough: what it hands
/// out is made of segments of the book, and holds every one of them.
pub proof fn law_first_flush_tells_the_book(a: State, book: Seq<Content>)
    requires
        model::valid(a),
        a.mss <= u32::MAX,
        a.nocwnd,
        a.snd_una == 0 && a.snd_nxt == 0 && a.snd_buf.len() == 0,
        a.acklist.len() == 0 && a.probe == 0 && a.buf.len() == 0 && a.packets.len() == 0,
        book == contents(a.snd_queue),
        book.len() <= a.snd_wnd,
        book.len() <= a.rmt_wnd,
        a.rmt_wnd > 0,
        forall|i: int|
            0 <= i < a.snd_queue.len() ==> (#[trigger] a.snd_queue[i]).data.len() <= a.mss,
    ensures
        ({
            let ds = model::flushed(a).packets;
            &&& forall|i: int|
                0 <= i < ds.len() ==> (#[trigger] ds[i]).len() > 0 && well_told(
                    ds[i],
                    0,
                    a.conv,
                    a.mss,
                    book,
                )
            &&& forall|sn: int| 0 <= sn < book.len() ==> #[trigger] told_in(ds, sn)
        }),
{
    reveal(model::flushed);
    let s2 = model::probe_scheduled(model::acks_flushed(a));
    assert(0u32 & model::KCP_ASK_SEND == 0 && 0u32 & model::KCP_ASK_TELL == 0) by (bit_vector);
    let s3 = model::probes_flushed(s2, model::last_header(a));
    assert(s3.buf == a.buf && s3.packets == a.packets && s3.snd_queue == a.snd_queue);
    assert(book.skip(0) =~= book);
    lemma_all_admitted(s3, model::effective_window(s3), model::unused_window(a), a.mss, book);
    validity::lemma_admitted(s3, model::effective_window(s3), model::unused_window(a));
    let p = model::prepared(a);
    let c = model::round_of(a);
    assert(p.buf =~= Seq::empty());
    lemma_told_empty(p.conv, a.mss, book);
    assert(output_told(p, a.mss, book));
    lemma_transmitted(p, c, p.snd_buf.len(), a.mss, book);
    let t = model::transmitted(p, c, p.snd_buf.len());
    lemma_pushed_out(t, a.mss, book);
    let u = model::pushed_out(t);
    let ds = model::flushed(a).packets;
    assert(ds == u.packets);
    assert forall|i: int| 0 <= i < ds.len() implies (#[trigger] ds[i]).len() > 0 && well_told(
        ds[i],
        0,
        a.conv,
        a.mss,
        book,
    ) by {
        assert(told(u.packets[i], u.conv, a.mss, book));
        lemma_told(ds[i], a.conv, a.mss, book);
    }
    assert forall|sn: int| 0 <= sn < book.len() implies #[trigger] told_in(ds, sn) by {
        assert(output_mentions(t, a.mss, sn));
        let i = choose|i: int| 0 <= i < u.packets.len() && mentions(#[trigger] u.packets[i], a.mss, sn);
        lemma_mentions(u.packets[i], a.mss, sn);
        assert(tells(ds[i], 0, sn));
    }
}

proof fn lemma_told_longer(
    x: Seq<u8>,
    conv: u32,
    mss: usize,
    book: Seq<Content>,
    more: Seq<Content>,
)
    requires
        told(x, conv, mss, book),
    ensures
        told(x, conv, mss, book + more),
{
    let gs = choose|gs: Seq<Segment>| told_by(x, gs, conv, mss, book);
    assert forall|i: int| 0 <= i < gs.len() implies good(
        #[trigger] gs[i],
        conv,
        mss,
        book + more,
    ) by {
        assert(good(gs[i], conv, mss, book));
    }
    assert(told_by(x, gs, conv, mss, book + more));
}

proof fn lemma_acks_told(s: State, g: Segment, k: nat, mss: usize, book: Seq<Content>)
    requires
        output_told(s, mss, book),
        g.conv == s.conv,
        g.cmd == KCP_CMD_ACK,
        g.data.len() == 0,
    ensures
        output_told(model::acks_emitted(s, g, k), mss, book),
        model::acks_emitted(s, g, k).conv == s.conv,
    decreases k,
{
    if k > 0 {
        lemma_acks_told(s, g, (k - 1) as nat, mss, book);
        lemma_emitted(
            model::acks_emitted(s, g, (k - 1) as nat),
            model::ack_segment(g, s.acklist[k - 1]),
            mss,
            book,
        );
    }
}

proof fn lemma_transmitted_told(s: State, c: Round, k: nat, mss: usize, book: Seq<Content>)
    requires
        output_told(s, mss, book),
        forall|i: int| 0 <= i < s.snd_buf.len() ==> good(#[trigger] s.snd_buf[i], s.conv, mss, book),
        k <= s.snd_buf.len(),
    ensures
        output_told(model::transmitted(s, c, k), mss, book),
        model::transmitted(s, c, k).conv == s.conv,
    decreases k,
{
    if k > 0 {
        let k1 = (k - 1) as nat;
        lemma_transmitted_told(s, c, k1, mss, book);
        let t = model::transmitted(s, c, k1);
        let g = s.snd_buf[k - 1];
        let h = model::after_round(g, c);
        let u = State {
            snd_buf: t.snd_buf.update(k - 1, h),
            xmit: if model::resend_kind(g, c) is Timeout {
                model::plus(t.xmit, 1)
            } else {
                t.xmit
            },
            dead: t.dead || h.xmit >= c.dead_link,
            ..t
        };
        assert(good(g, s.conv, mss, book));
        assert(good(h, s.conv, mss, book));
        assert(output_told(u, mss, book));
        if !(model::resend_kind(g, c) is Not) {
            lemma_emitted(u, h, mss, book);
            assert(model::transmitted(s, c, k) == model::emitted(u, h));
        }
    }
}

/// Whether segments belong to the conversation.
pub open spec fn all_of(b: Seq<Segment>, conv: u32) -> bool {
    forall|i: int| 0 <= i < b.len() ==> (#[trigger] b[i]).conv == conv
}

proof fn lemma_admitted_of(s: State, cwnd: u16, wnd: u16)
    requires
        all_of(s.snd_buf, s.conv),
    ensures
        all_of(model::admitted(s, cwnd, wnd).snd_buf, s.conv),
    decreases s.snd_queue.len(),
{
    if model::difference(s.snd_nxt, model::plus(s.snd_una, cwnd as int)) < 0 && s.snd_queue.len()
        > 0 {
        let t = State {
            snd_queue: s.snd_queue.drop_first(),
            snd_buf: s.snd_buf.push(model::numbered(s, s.snd_queue[0], wnd)),
            snd_nxt: model::plus(s.snd_nxt, 1),
            ..s
        };
        assert forall|i: int| 0 <= i < t.snd_buf.len() implies (#[trigger] t.snd_buf[i]).conv
            == t.conv by {
            if i < s.snd_buf.len() {
                assert(t.snd_buf[i] == s.snd_buf[i]);
            }
        }
        lemma_admitted_of(t, cwnd, wnd);
    }
}

/// Acknowledgements and probes are good segments.
proof fn lemma_controls_told(a: State, mss: usize, book: Seq<Content>)
    requires
        output_told(a, mss, book),
    ensures
        ({
            let t = model::probes_flushed(
                model::probe_scheduled(model::acks_flushed(a)),
                model::last_header(a),
            );
            output_told(t, mss, book) && t.conv == a.conv && t.snd_buf == a.snd_buf
        }),
{
    let g = model::control_segment(a);
    lemma_acks_told(a, g, a.acklist.len(), mss, book);
    validity::lemma_acks_emitted(a, g, a.acklist.len());
    let s2 = model::probe_scheduled(model::acks_flushed(a));
    let h = model::last_header(a);
    let ask = Segment { cmd: KCP_CMD_WASK, ..h };
    let tell = Segment { cmd: KCP_CMD_WINS, ..h };
    assert(output_told(s2, mss, book));
    lemma_emitted(s2, ask, mss, book);
    lemma_emitted(s2, tell, mss, book);
    lemma_emitted(model::emitted(s2, ask), tell, mss, book);
}

/// What a flush hands out are good segments where those of the send buffer are.
proof fn lemma_flushed_told(a: State, mss: usize, book: Seq<Content>)
    requires
        output_told(a, mss, book),
        all_of(a.snd_buf, a.conv),
        forall|i: int|
            0 <= i < model::flushed(a).snd_buf.len() ==> {
                let g = #[trigger] model::flushed(a).snd_buf[i];
                g.cmd == KCP_CMD_PUSH && reliability::agrees(g, book) && g.data.len() <= mss
            },
    ensures
        all_of(model::flushed(a).snd_buf, a.conv),
        output_told(model::flushed(a), mss, book),
        model::flushed(a).conv == a.conv,
{
    reveal(model::flushed);
    lemma_controls_told(a, mss, book);
    let s3 = model::probes_flushed(
        model::probe_scheduled(model::acks_flushed(a)),
        model::last_header(a),
    );
    lemma_admitted_of(s3, model::effective_window(s3), model::unused_window(a));
    validity::lemma_admitted(s3, model::effective_window(s3), model::unused_window(a));
    let p = model::prepared(a);
    let c = model::round_of(a);
    assert(output_told(p, mss, book));
    validity::lemma_transmitted(p, c, p.snd_buf.len());
    let t = model::transmitted(p, c, p.snd_buf.len());
    let f = model::flushed(a);
    assert(f.snd_buf == t.snd_buf);
    assert forall|i: int| 0 <= i < p.snd_buf.len() implies good(
        #[trigger] p.snd_buf[i],
        p.conv,
        mss,
        book,
    ) by {
        assert(f.snd_buf[i] == model::after_round(p.snd_buf[i], c));
        assert(p.snd_buf[i].conv == p.conv);
    }
    lemma_transmitted_told(p, c, p.snd_buf.len(), mss, book);
    lemma_pushed_out(t, mss, book);
    assert(f.packets == model::pushed_out(t).packets && f.buf == model::pushed_out(t).buf);
    assert forall|i: int| 0 <= i < f.snd_buf.len() implies (#[trigger] f.snd_buf[i]).conv
        == f.conv by {
        assert(f.snd_buf[i] == model::after_round(p.snd_buf[i], c));
        assert(p.snd_buf[i].conv == p.conv);
    }
}

proof fn lemma_flushed_mss(a: State)
    ensures
        model::flushed(a).mss == a.mss,
{
    reveal(model::flushed);
    validity::lemma_prepared(a);
    let p = model::prepared(a);
    validity::lemma_transmitted(p, model::round_of(a), p.snd_buf.len());
}

/// A sending end that keeps the book hands out segments of the book alone.
#[verifier::spinoff_prover]
pub proof fn law_flush_tells_the_book(a: State, book: Seq<Content>, written: Seq<u8>)
    requires
        model::valid(a),
        reliability::keeps_the_book(a, book, written),
        book.len() + a.snd_queue.len() < 0x1_0000_0000,
        all_of(a.snd_buf, a.conv),
        output_told(a, a.mss, book),
    ensures
        ({
            let t = model::flushed(a);
            &&& all_of(t.snd_buf, t.conv)
            &&& output_told(t, t.mss, book + reliability::newly_booked(a))
            &&& t.conv == a.conv && t.mss == a.mss
        }),
{
    reliability::law_flush_keeps_the_book(a, book, written);
    lemma_flushed_mss(a);
    let more = reliability::newly_booked(a);
    let longer = book + more;
    let mss = a.mss;
    lemma_told_longer(a.buf, a.conv, mss, book, more);
    assert forall|i: int| 0 <= i < a.packets.len() implies told(
        #[trigger] a.packets[i],
        a.conv,
        mss,
        longer,
    ) by {
        assert(told(a.packets[i], a.conv, mss, book));
        lemma_told_longer(a.packets[i], a.conv, mss, book, more);
    }
    assert(output_told(a, mss, longer));
    let f = model::flushed(a);
    assert forall|i: int| 0 <= i < f.snd_buf.len() implies {
        let g = #[trigger] f.snd_buf[i];
        g.cmd == KCP_CMD_PUSH && reliability::agrees(g, longer) && g.data.len() <= mss
    } by {}
    lemma_flushed_told(a, mss, longer);
}

/// What was handed out, if it is good segments, is read as such.
pub proof fn lemma_output_is_well_told(s: State, mss: usize, book: Seq<Content>, i: int)
    requires
        mss <= u32::MAX,
        output_told(s, mss, book),
        0 <= i < s.packets.len(),
    ensures
        s.packets[i].len() > 0,
        well_told(s.packets[i], 0, s.conv, mss, book),
{
    assert(told(s.packets[i], s.conv, mss, book));
    lemma_told(s.packets[i], s.conv, mss, book);
}

/// Good segments of a book are good segments of a longer one.
pub proof fn lemma_well_told_longer(
    d: Seq<u8>,
    pos: int,
    conv: u32,
    mss: usize,
    book: Seq<Content>,
    more: Seq<Content>,
)
    requires
        well_told(d, pos, conv, mss, book),
    ensures
        well_told(d, pos, conv, mss, book + more),
    decreases d.len() - pos,
{
    if d.len() - pos >= KCP_OVERHEAD {
        let len = bytes::le32_at(d, pos + 20);
        let next = pos + KCP_OVERHEAD + len;
        lemma_well_told_longer(d, next, conv, mss, book, more);
    }
}

// ── both ends ───────────────────────────────────────────────────────────

/// Messages given to a sending end, one after the other, and whether it took
/// them all.
pub open spec fn all_sent(s: State, msgs: Seq<Seq<u8>>) -> (State, bool)
    decreases msgs.len(),
{
    if msgs.len() == 0 {
        (s, true)
    } else {
        let (t, ok) = model::sent(s, msgs[0]);
        let (u, rest) = all_sent(t, msgs.drop_first());
        (u, ok && rest)
    }
}

proof fn lemma_all_sent(s: State, msgs: Seq<Seq<u8>>)
    requires
        !s.stream,
        s.mss > 0,
        all_sent(s, msgs).1,
        forall|i: int| 0 <= i < s.snd_queue.len() ==> (#[trigger] s.snd_queue[i]).data.len() <= s.mss,
    ensures
        ({
            let t = all_sent(s, msgs).0;
            &&& t == (State { snd_queue: t.snd_queue, ..s })
            &&& contents(t.snd_queue) == contents(s.snd_queue) + book_of(msgs, s.mss)
            &&& forall|i: int|
                0 <= i < t.snd_queue.len() ==> (#[trigger] t.snd_queue[i]).data.len() <= s.mss
        }),
        all_sendable(msgs, s.mss),
    decreases msgs.len(),
{
    if msgs.len() == 0 {
        assert(contents(s.snd_queue) + book_of(msgs, s.mss) =~= contents(s.snd_queue));
    } else {
        let m = msgs[0];
        let more = msgs.drop_first();
        let f = model::fragments(m, s.mss, false);
        let t = model::sent(s, m).0;
        assert(m.skip(0) =~= m);
        laws::law_fragments_hold_the_data(m, s.mss, false);
        assert(t == (State { snd_queue: s.snd_queue + f, ..s }));
        assert forall|i: int| 0 <= i < t.snd_queue.len() implies (
        #[trigger] t.snd_queue[i]).data.len() <= s.mss by {
            if i < s.snd_queue.len() {
                assert(t.snd_queue[i] == s.snd_queue[i]);
            } else {
                assert(t.snd_queue[i] == f[i - s.snd_queue.len()]);
            }
        }
        lemma_all_sent(t, more);
        let u = all_sent(s, msgs).0;
        assert(contents(t.snd_queue) =~= contents(s.snd_queue) + contents(f));
        assert(contents(u.snd_queue) =~= contents(s.snd_queue) + book_of(msgs, s.mss));
        assert forall|i: int| 0 <= i < msgs.len() implies model::fragment_count(
            (#[trigger] msgs[i]).len(),
            s.mss,
        ) < KCP_WND_RCV by {
            if i > 0 {
                assert(more[i - 1] == msgs[i]);
            }
        }
    }
}

/// A fresh control object in message mode after `set_nodelay(true, 10, 0, true)`.
pub open spec fn eager(conv: u32) -> State {
    State {
        nodelay: true,
        rx_minrto: KCP_RTO_NDL,
        interval: 10,
        fastresend: 0,
        nocwnd: true,
        ..model::initial(conv, false, Seq::empty())
    }
}

/// The datagrams of `ds` in the order in which they arrive.
pub open spec fn arrivals(ds: Seq<Seq<u8>>, order: Seq<int>) -> Seq<Seq<u8>> {
    Seq::new(order.len(), |i: int| ds[order[i]])
}

/// What is sent arrives: messages of at most as many fragments as the send
/// window, given to a fresh sending end and flushed once, come out at a fresh
/// receiving end of the same conversation once each datagram has arrived, in
/// whatever order and however often. Each is read once, whole and in its turn,
/// and then there is nothing more to read.
pub proof fn law_sent_messages_are_delivered(
    conv: u32,
    msgs: Seq<Seq<u8>>,
    order: Seq<int>,
    packets: Seq<Seq<u8>>,
)
    requires
        all_sent(eager(conv), msgs).1,
        all_sent(eager(conv), msgs).0.snd_queue.len() <= KCP_WND_SND,
        ({
            let ds = model::updated_at(all_sent(eager(conv), msgs).0, 0).packets;
            &&& forall|i: int| 0 <= i < order.len() ==> 0 <= #[trigger] order[i] < ds.len()
            &&& forall|j: int| 0 <= j < ds.len() ==> #[trigger] order.contains(j)
        }),
    ensures
        ({
            let ds = model::updated_at(all_sent(eager(conv), msgs).0, 0).packets;
            let (b, ok) = all_taken_in(
                model::initial(conv, false, packets),
                arrivals(ds, order),
            );
            &&& ok
            &&& reads(b, msgs)
            &&& model::receive_error(after_reads(b, msgs.len()).rcv_queue) == Some(
                Error::RecvQueueEmpty,
            )
        }),
{
    let a0 = eager(conv);
    lemma_all_sent(a0, msgs);
    let a1 = all_sent(a0, msgs).0;
    let a2 = model::timed(a1, 0);
    let book = book_of(msgs, a0.mss);
    assert(contents(a0.snd_queue) + book =~= book);
    assert(contents(a1.snd_queue).len() == a1.snd_queue.len());
    law_first_flush_tells_the_book(a2, book);
    let ds = model::updated_at(a1, 0).packets;
    assert(ds == model::flushed(a2).packets);
    let b0 = model::initial(conv, false, packets);
    assert(contents(b0.rcv_queue) =~= book.take(0));
    let xs = arrivals(ds, order);
    assert forall|i: int| 0 <= i < xs.len() implies (#[trigger] xs[i]).len() > 0 && well_told(
        xs[i],
        0,
        b0.conv,
        b0.mss,
        book,
    ) by {
        assert(0 <= order[i] < ds.len());
        assert(xs[i] == ds[order[i]]);
    }
    law_all_good_datagrams_are_taken_in(b0, xs, book);
    let b = all_taken_in(b0, xs).0;
    assert forall|sn: int| 0 <= sn < book.len() implies #[trigger] arrived(b, sn) by {
        assert(told_in(ds, sn));
        let j = choose|j: int| 0 <= j < ds.len() && tells(#[trigger] ds[j], 0, sn);
        assert(order.contains(j));
        let i = choose|i: int| 0 <= i < order.len() && order[i] == j;
        assert(xs[i] == ds[j]);
        assert(told_in(xs, sn));
    }
    law_arrived_messages_are_read(b, msgs, a0.mss, book);
    lemma_arrived_is_in_order(b, book, book.len() as int);
    let left = after_reads(b, msgs.len()).rcv_queue;
    assert(contents(left).len() == 0);
}

} // verus!
