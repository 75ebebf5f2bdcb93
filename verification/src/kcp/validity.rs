//! Every operation leads from valid states to valid states.
use vstd::prelude::*;

use super::model::{Acks, KCP_ASK_TELL, KCP_CMD_WASK, KCP_CMD_WINS, KCP_OVERHEAD, KCP_PROBE_LIMIT, Round, Segment, State, Step};
use super::model;

verus! {

/// The state with the first ready segment moved on is valid.
proof fn lemma_move_one_valid(s: State)
    requires
        model::valid(s),
        model::first_is_ready(s),
    ensures
        model::valid(
            State {
                rcv_buf: s.rcv_buf.drop_first(),
                rcv_queue: s.rcv_queue.push(s.rcv_buf[0]),
                rcv_nxt: model::plus(s.rcv_nxt, 1),
                ..s
            },
        ),
{
    let t = State {
        rcv_buf: s.rcv_buf.drop_first(),
        rcv_queue: s.rcv_queue.push(s.rcv_buf[0]),
        rcv_nxt: model::plus(s.rcv_nxt, 1),
        ..s
    };
    assert forall|i: int| 0 <= i < t.rcv_buf.len() implies model::ahead(
        (#[trigger] t.rcv_buf[i]).sn,
        t.rcv_nxt,
    ) == model::ahead(s.rcv_buf[i + 1].sn, s.rcv_nxt) - 1 by {
        assert(t.rcv_buf[i] == s.rcv_buf[i + 1]);
        assert(model::ahead(s.rcv_buf[0].sn, s.rcv_nxt) < model::ahead(
            s.rcv_buf[i + 1].sn,
            s.rcv_nxt,
        ));
    }
    assert(model::receive_buffer_ordered(t));
    assert forall|i: int| 0 <= i < t.rcv_queue.len() implies (#[trigger] t.rcv_queue[i]).sn
        == model::plus(t.rcv_nxt, i - t.rcv_queue.len()) by {
        if i < s.rcv_queue.len() {
            assert(t.rcv_queue[i] == s.rcv_queue[i]);
        }
    }
    assert(model::receive_queue_in_order(t));
    assert forall|i: int| 0 <= i < t.rcv_queue.len() implies (#[trigger] t.rcv_queue[i]).data.len()
        <= u32::MAX by {
        if i < s.rcv_queue.len() {
            assert(t.rcv_queue[i] == s.rcv_queue[i]);
        } else {
            assert(s.rcv_buf[0].data.len() <= u32::MAX);
        }
    }
    assert forall|i: int| 0 <= i < t.rcv_buf.len() implies (#[trigger] t.rcv_buf[i]).data.len()
        <= u32::MAX by {
        assert(t.rcv_buf[i] == s.rcv_buf[i + 1]);
    }
    assert(model::send_buffer_ordered(t));
}

/// What `moved` changes, and that it keeps a state valid.
pub proof fn lemma_moved(s: State)
    ensures
        model::moved(s) == (State {
            rcv_buf: model::moved(s).rcv_buf,
            rcv_queue: model::moved(s).rcv_queue,
            rcv_nxt: model::moved(s).rcv_nxt,
            ..s
        }),
        model::valid(s) ==> model::valid(model::moved(s)),
    decreases s.rcv_buf.len(),
{
    if model::first_is_ready(s) {
        let t = State {
            rcv_buf: s.rcv_buf.drop_first(),
            rcv_queue: s.rcv_queue.push(s.rcv_buf[0]),
            rcv_nxt: model::plus(s.rcv_nxt, 1),
            ..s
        };
        if model::valid(s) {
            lemma_move_one_valid(s);
        }
        lemma_moved(t);
    }
}

/// The state after a message was taken is valid.
pub proof fn lemma_received_valid(s: State)
    requires
        model::valid(s),
    ensures
        model::valid(model::received(s)),
{
    let n = model::message_end(s.rcv_queue) as int;
    lemma_message_end_bounded(s.rcv_queue);
    let t = State { rcv_queue: s.rcv_queue.skip(n), ..s };
    assert forall|i: int| 0 <= i < t.rcv_queue.len() implies (#[trigger] t.rcv_queue[i]).sn == model::plus(
        t.rcv_nxt,
        i - t.rcv_queue.len(),
    ) by {
        assert(t.rcv_queue[i] == s.rcv_queue[i + n]);
    }
    assert forall|i: int| 0 <= i < t.rcv_queue.len() implies (#[trigger] t.rcv_queue[i]).data.len()
        <= u32::MAX by {
        assert(t.rcv_queue[i] == s.rcv_queue[i + n]);
    }
    assert(model::valid(t));
    lemma_moved(t);
}

proof fn lemma_message_end_bounded(q: Seq<Segment>)
    ensures
        model::message_end(q) <= q.len(),
    decreases q.len(),
{
    if q.len() > 0 {
        lemma_message_end_bounded(q.drop_first());
    }
}

/// Where a segment is placed, its neighbours lie on their side of it.
proof fn lemma_place(b: Seq<Segment>, sn: u32, i: int)
    requires
        0 <= i <= b.len(),
    ensures
        model::place(b, sn, i) matches Some(k) ==> {
            &&& 0 <= k <= i
            &&& k > 0 ==> model::difference(sn, b[k - 1].sn) > 0
            &&& forall|j: int| k <= j < i ==> (#[trigger] b[j]).sn != sn && model::difference(sn, b[j].sn) <= 0
        },
    decreases i,
{
    if i > 0 && b[i - 1].sn != sn && model::difference(sn, b[i - 1].sn) <= 0 {
        lemma_place(b, sn, i - 1);
    }
}

/// Close to one base, differences are those of the distances to it.
proof fn lemma_close(a: u32, b: u32, base: u32)
    requires
        model::ahead(a, base) < 0x1_0000,
        model::ahead(b, base) < 0x1_0000,
    ensures
        model::difference(a, b) == model::ahead(a, base) - model::ahead(b, base),
        a == b <==> model::ahead(a, base) == model::ahead(b, base),
{
}

/// A window of `wnd` from `base` on holds what lies less than `wnd` ahead.
proof fn lemma_window(sn: u32, base: u32, wnd: u16)
    requires
        model::difference(sn, model::plus(base, wnd as int)) < 0,
        model::difference(sn, base) >= 0,
    ensures
        model::ahead(sn, base) < wnd,
{
}

proof fn lemma_place_ordered(s: State, sn: u32, k: int)
    requires
        model::receive_buffer_ordered(s),
        model::ahead(sn, s.rcv_nxt) < 0x1_0000,
        model::place(s.rcv_buf, sn, s.rcv_buf.len() as int) == Some(k),
    ensures
        0 <= k <= s.rcv_buf.len(),
        forall|j: int|
            0 <= j < k ==> model::ahead((#[trigger] s.rcv_buf[j]).sn, s.rcv_nxt) < model::ahead(
                sn,
                s.rcv_nxt,
            ),
        forall|j: int|
            k <= j < s.rcv_buf.len() ==> model::ahead(sn, s.rcv_nxt) < model::ahead(
                (#[trigger] s.rcv_buf[j]).sn,
                s.rcv_nxt,
            ),
{
    let len = s.rcv_buf.len() as int;
    lemma_place(s.rcv_buf, sn, len);
    assert forall|j: int| 0 <= j < k implies model::ahead((#[trigger] s.rcv_buf[j]).sn, s.rcv_nxt)
        < model::ahead(sn, s.rcv_nxt) by {
        lemma_close(sn, s.rcv_buf[k - 1].sn, s.rcv_nxt);
    }
    assert forall|j: int| k <= j < len implies model::ahead(sn, s.rcv_nxt) < model::ahead(
        (#[trigger] s.rcv_buf[j]).sn,
        s.rcv_nxt,
    ) by {
        lemma_close(sn, s.rcv_buf[j].sn, s.rcv_nxt);
    }
}

/// What `stored` changes.
pub proof fn lemma_stored(s: State, g: Segment)
    ensures
        model::stored(s, g) == (State {
            rcv_buf: model::stored(s, g).rcv_buf,
            rcv_queue: model::stored(s, g).rcv_queue,
            rcv_nxt: model::stored(s, g).rcv_nxt,
            ..s
        }),
{
    if model::in_window(s, g.sn) {
        match model::place(s.rcv_buf, g.sn, s.rcv_buf.len() as int) {
            Some(k) => {
                lemma_moved(State { rcv_buf: s.rcv_buf.insert(k, g), ..s });
            },
            None => {
                lemma_moved(s);
            },
        }
    }
}

/// The state after a segment was stored is valid.
pub proof fn lemma_stored_valid(s: State, g: Segment)
    requires
        model::valid(s),
        g.data.len() <= u32::MAX,
    ensures
        model::valid(model::stored(s, g)),
{
    if model::in_window(s, g.sn) {
        match model::place(s.rcv_buf, g.sn, s.rcv_buf.len() as int) {
            Some(k) => {
                lemma_insert_valid(s, g, k);
                lemma_moved(State { rcv_buf: s.rcv_buf.insert(k, g), ..s });
            },
            None => {
                lemma_moved(s);
            },
        }
    }
}

proof fn lemma_insert_valid(s: State, g: Segment, k: int)
    requires
        model::valid(s),
        g.data.len() <= u32::MAX,
        model::in_window(s, g.sn),
        model::place(s.rcv_buf, g.sn, s.rcv_buf.len() as int) == Some(k),
    ensures
        model::valid(State { rcv_buf: s.rcv_buf.insert(k, g), ..s }),
{
    let t = State { rcv_buf: s.rcv_buf.insert(k, g), ..s };
    lemma_window(g.sn, s.rcv_nxt, s.rcv_wnd);
    lemma_place_ordered(s, g.sn, k);
    lemma_inserted(s, g, k);
    assert forall|i: int| 0 <= i < t.rcv_buf.len() implies (#[trigger] t.rcv_buf[i]).data.len()
        <= u32::MAX by {
        if i < k {
            assert(t.rcv_buf[i] == s.rcv_buf[i]);
        } else if i > k {
            assert(t.rcv_buf[i] == s.rcv_buf[i - 1]);
        }
    }
}

proof fn lemma_inserted(s: State, g: Segment, k: int)
    requires
        model::receive_buffer_ordered(s),
        0 <= k <= s.rcv_buf.len(),
        model::ahead(g.sn, s.rcv_nxt) < 0x1_0000,
        forall|j: int|
            0 <= j < k ==> model::ahead((#[trigger] s.rcv_buf[j]).sn, s.rcv_nxt) < model::ahead(g.sn, s.rcv_nxt),
        forall|j: int|
            k <= j < s.rcv_buf.len() ==> model::ahead(g.sn, s.rcv_nxt) < model::ahead(
                (#[trigger] s.rcv_buf[j]).sn,
                s.rcv_nxt,
            ),
    ensures
        model::receive_buffer_ordered(State { rcv_buf: s.rcv_buf.insert(k, g), ..s }),
{
    let b = s.rcv_buf.insert(k, g);
    assert forall|i: int| 0 <= i < b.len() implies model::ahead((#[trigger] b[i]).sn, s.rcv_nxt)
        < 0x1_0000 by {
        if i < k {
            assert(b[i] == s.rcv_buf[i]);
        } else if i > k {
            assert(b[i] == s.rcv_buf[i - 1]);
        }
    }
    assert forall|i: int, j: int| 0 <= i < j < b.len() implies model::ahead(
        (#[trigger] b[i]).sn,
        s.rcv_nxt,
    ) < model::ahead((#[trigger] b[j]).sn, s.rcv_nxt) by {
        if j < k {
            assert(b[i] == s.rcv_buf[i] && b[j] == s.rcv_buf[j]);
        } else if j == k {
            assert(b[i] == s.rcv_buf[i]);
        } else if i < k {
            assert(b[i] == s.rcv_buf[i] && b[j] == s.rcv_buf[j - 1]);
        } else if i == k {
            assert(b[j] == s.rcv_buf[j - 1]);
        } else {
            assert(b[i] == s.rcv_buf[i - 1] && b[j] == s.rcv_buf[j - 1]);
        }
    }
}

/// A part of the send buffer, in its order, keeps the window ordered.
proof fn lemma_shrunk_ordered(s: State, b: Seq<Segment>)
    requires
        model::ahead(s.snd_nxt, s.snd_una) < 0x1_0000,
        forall|i: int|
            0 <= i < b.len() ==> model::ahead((#[trigger] b[i]).sn, s.snd_una) < model::ahead(
                s.snd_nxt,
                s.snd_una,
            ),
        forall|i: int, j: int|
            0 <= i < j < b.len() ==> model::ahead((#[trigger] b[i]).sn, s.snd_una) < model::ahead(
                (#[trigger] b[j]).sn,
                s.snd_una,
            ),
    ensures
        model::send_buffer_ordered(model::shrunk(State { snd_buf: b, ..s })),
{
    let t = model::shrunk(State { snd_buf: b, ..s });
    if b.len() > 0 {
        let u = model::ahead(b[0].sn, s.snd_una);
        assert forall|i: int| 0 <= i < b.len() implies model::ahead((#[trigger] b[i]).sn, t.snd_una)
            == model::ahead(b[i].sn, s.snd_una) - u by {
            if i > 0 {
                assert(model::ahead(b[0].sn, s.snd_una) < model::ahead(b[i].sn, s.snd_una));
            }
        }
        assert(model::ahead(s.snd_nxt, t.snd_una) == model::ahead(s.snd_nxt, s.snd_una) - u);
    }
}

proof fn lemma_from_una_suffix(b: Seq<Segment>, una: u32)
    ensures
        model::from_una(b, una).len() <= b.len(),
        model::from_una(b, una) == b.skip(b.len() - model::from_una(b, una).len()),
    decreases b.len(),
{
    if b.len() > 0 && model::difference(una, b[0].sn) > 0 {
        lemma_from_una_suffix(b.drop_first(), una);
        let c = model::from_una(b, una);
        assert(b.drop_first().skip(b.len() - 1 - c.len()) =~= b.skip(b.len() - c.len()));
    } else {
        assert(b.skip(0) =~= b);
    }
}

/// The state after the segments before `una` left is valid.
pub proof fn lemma_una_valid(s: State, una: u32, wnd: u16)
    requires
        model::valid(s),
    ensures
        model::valid(model::shrunk(State { rmt_wnd: wnd, snd_buf: model::from_una(s.snd_buf, una), ..s })),
{
    let c = model::from_una(s.snd_buf, una);
    let k = s.snd_buf.len() - c.len();
    lemma_from_una_suffix(s.snd_buf, una);
    assert(forall|i: int| 0 <= i < c.len() ==> #[trigger] c[i] == s.snd_buf[i + k]);
    lemma_shrunk_ordered(State { rmt_wnd: wnd, ..s }, c);
    let t = model::shrunk(State { rmt_wnd: wnd, snd_buf: c, ..s });
    lemma_receive_side_same(s, t);
}

/// The state after an acknowledgement is valid.
pub proof fn lemma_acknowledged_valid(s: State, sn: u32)
    requires
        model::valid(s),
    ensures
        model::valid(model::shrunk(model::acknowledged(s, sn))),
{
    let t = model::acknowledged(s, sn);
    let c = t.snd_buf;
    let i = model::first_not_below(s.snd_buf, sn, 0);
    lemma_first_not_below(s.snd_buf, sn, 0);
    if c != s.snd_buf {
        assert forall|j: int| 0 <= j < c.len() implies #[trigger] c[j] == s.snd_buf[if j < i {
            j
        } else {
            j + 1
        }] by {}
    }
    lemma_shrunk_ordered(s, c);
    assert(model::shrunk(t) == model::shrunk(State { snd_buf: c, ..s }));
    lemma_receive_side_same(s, model::shrunk(t));
}

proof fn lemma_first_not_below(b: Seq<Segment>, sn: u32, i: int)
    requires
        0 <= i <= b.len(),
    ensures
        i <= model::first_not_below(b, sn, i) <= b.len(),
    decreases b.len() - i,
{
    if i < b.len() && b[i].sn < sn {
        lemma_first_not_below(b, sn, i + 1);
    }
}

/// Validity of all but the send buffer rests on these fields alone.
proof fn lemma_receive_side_same(s: State, t: State)
    requires
        model::valid(s),
        t.mtu == s.mtu,
        t.mss == s.mss,
        t.interval == s.interval,
        t.probe_wait <= KCP_PROBE_LIMIT,
        t.snd_wnd == s.snd_wnd,
        t.rcv_wnd == s.rcv_wnd,
        t.rcv_queue == s.rcv_queue,
        t.rcv_buf == s.rcv_buf,
        t.rcv_nxt == s.rcv_nxt,
        model::send_buffer_ordered(t),
    ensures
        model::valid(t),
{
}

/// The state after a round of counting is valid.
pub proof fn lemma_skipped_valid(s: State, sn: u32, ts: u32)
    requires
        model::valid(s),
    ensures
        model::valid(model::skipped(s, sn, ts)),
        model::skipped(s, sn, ts) == (State { snd_buf: model::skipped(s, sn, ts).snd_buf, ..s }),
{
    let t = model::skipped(s, sn, ts);
    assert(t.snd_buf.len() == s.snd_buf.len());
    assert(forall|i: int| 0 <= i < s.snd_buf.len() ==> (#[trigger] t.snd_buf[i]).sn == s.snd_buf[i].sn);
    lemma_receive_side_same(s, t);
}

pub proof fn lemma_smoothed_valid(s: State, rtt: int)
    requires
        model::valid(s),
    ensures
        model::valid(model::smoothed(s, rtt)),
{
    lemma_receive_side_same(s, model::smoothed(s, rtt));
}

pub proof fn lemma_grown_valid(s: State, old_una: u32)
    requires
        model::valid(s),
    ensures
        model::valid(model::grown(s, old_una)),
{
    lemma_receive_side_same(s, model::grown(s, old_una));
}

/// One segment of a datagram leads from a valid state to a valid one, whether
/// it is taken or refused.
pub proof fn lemma_input_step_valid(s: State, a: Acks, d: Seq<u8>, pos: int)
    requires
        model::valid(s),
        0 <= pos,
        d.len() - pos >= KCP_OVERHEAD,
    ensures
        match model::input_step(s, a, d, pos) {
            Step::Fail(t, _) => model::valid(t),
            Step::Next(t, _, next) => model::valid(t) && pos < next <= d.len(),
        },
{
    reveal(model::input_step);
    let conv = crate::bytes::le32_at(d, pos);
    let s1 = if conv != s.conv {
        State { conv, input_conv: false, ..s }
    } else {
        s
    };
    lemma_receive_side_same(s, s1);
    let len = crate::bytes::le32_at(d, pos + 20);
    let left = d.len() - pos - KCP_OVERHEAD;
    if left >= len {
        let g = model::header_at(d, pos, len as nat);
        lemma_una_valid(s1, g.una, g.wnd);
        let s2 = model::shrunk(State { rmt_wnd: g.wnd, snd_buf: model::from_una(s1.snd_buf, g.una), ..s1 });
        let rtt = model::difference(s2.current, g.ts);
        lemma_smoothed_valid(s2, rtt);
        let s3 = if rtt >= 0 {
            model::smoothed(s2, rtt)
        } else {
            s2
        };
        lemma_acknowledged_valid(s3, g.sn);
        let s4 = State { acklist: s2.acklist.push((g.sn, g.ts)), ..s2 };
        lemma_receive_side_same(s2, s4);
        lemma_stored_valid(s4, g);
        let s5 = State { probe: s2.probe | KCP_ASK_TELL, ..s2 };
        lemma_receive_side_same(s2, s5);
    }
}

/// Whatever a datagram holds, the state after it is valid.
pub proof fn lemma_input_from_valid(s: State, a: Acks, d: Seq<u8>, pos: int, old_una: u32)
    requires
        model::valid(s),
        0 <= pos <= d.len(),
    ensures
        model::valid(model::input_from(s, a, d, pos, old_una).0),
        model::input_from(s, a, d, pos, old_una).1 matches Ok(n) ==> pos <= n <= d.len(),
    decreases d.len() - pos,
{
    if d.len() - pos >= KCP_OVERHEAD {
        lemma_input_step_valid(s, a, d, pos);
        match model::input_step(s, a, d, pos) {
            Step::Fail(t, e) => {},
            Step::Next(t, b, next) => {
                lemma_input_from_valid(t, b, d, next, old_una);
            },
        }
    } else {
        lemma_skipped_valid(s, a.max_ack, a.latest_ts);
        let t = if a.flag {
            model::skipped(s, a.max_ack, a.latest_ts)
        } else {
            s
        };
        lemma_grown_valid(t, old_una);
    }
}

/// Sending keeps a state valid.
pub proof fn lemma_sent_valid(s: State, data: Seq<u8>)
    requires
        model::valid(s),
    ensures
        model::valid(model::sent(s, data).0),
{
    lemma_receive_side_same(s, model::sent(s, data).0);
}

/// Emitting a segment changes the output alone.
pub proof fn lemma_emitted(s: State, g: Segment)
    ensures
        model::emitted(s, g) == (State {
            buf: model::emitted(s, g).buf,
            packets: model::emitted(s, g).packets,
            ..s
        }),
        model::valid(s) ==> model::valid(model::emitted(s, g)),
{
    if model::valid(s) {
        lemma_receive_side_same(s, model::emitted(s, g));
    }
}

pub proof fn lemma_acks_emitted(s: State, g: Segment, n: nat)
    ensures
        model::acks_emitted(s, g, n) == (State {
            buf: model::acks_emitted(s, g, n).buf,
            packets: model::acks_emitted(s, g, n).packets,
            ..s
        }),
        model::valid(s) ==> model::valid(model::acks_emitted(s, g, n)),
    decreases n,
{
    if n > 0 {
        lemma_acks_emitted(s, g, (n - 1) as nat);
        lemma_emitted(
            model::acks_emitted(s, g, (n - 1) as nat),
            model::ack_segment(g, s.acklist[n - 1]),
        );
    }
}

/// The state with one more segment admitted is valid.
pub proof fn lemma_one_more_valid(s: State, g: Segment, cwnd: u16)
    requires
        model::valid(s),
        model::difference(s.snd_nxt, model::plus(s.snd_una, cwnd as int)) < 0,
        s.snd_queue.len() > 0,
        g.sn == s.snd_nxt,
    ensures
        model::valid(
            State {
                snd_queue: s.snd_queue.drop_first(),
                snd_buf: s.snd_buf.push(g),
                snd_nxt: model::plus(s.snd_nxt, 1),
                ..s
            },
        ),
{
    let t = State {
        snd_queue: s.snd_queue.drop_first(),
        snd_buf: s.snd_buf.push(g),
        snd_nxt: model::plus(s.snd_nxt, 1),
        ..s
    };
    lemma_window(s.snd_nxt, s.snd_una, cwnd);
    assert(model::ahead(t.snd_nxt, t.snd_una) == model::ahead(s.snd_nxt, s.snd_una) + 1);
    assert(t.snd_buf[s.snd_buf.len() as int] == g);
    assert forall|i: int| 0 <= i < t.snd_buf.len() implies model::ahead(
        (#[trigger] t.snd_buf[i]).sn,
        t.snd_una,
    ) < model::ahead(t.snd_nxt, t.snd_una) by {
        if i < s.snd_buf.len() {
            assert(t.snd_buf[i] == s.snd_buf[i]);
        }
    }
    assert forall|i: int, j: int| 0 <= i < j < t.snd_buf.len() implies model::ahead(
        (#[trigger] t.snd_buf[i]).sn,
        t.snd_una,
    ) < model::ahead((#[trigger] t.snd_buf[j]).sn, t.snd_una) by {
        assert(t.snd_buf[i] == s.snd_buf[i]);
        if j < s.snd_buf.len() {
            assert(t.snd_buf[j] == s.snd_buf[j]);
        }
    }
    if s.snd_buf.len() > 0 {
        assert(t.snd_buf[0] == s.snd_buf[0]);
    } else {
        assert(s.snd_una == s.snd_nxt);
    }
    assert(model::send_buffer_ordered(t));
    lemma_receive_side_same(s, t);
}

/// What admitting changes; the send buffer only grows.
pub proof fn lemma_admitted(s: State, cwnd: u16, wnd: u16)
    ensures
        model::admitted(s, cwnd, wnd) == (State {
            snd_queue: model::admitted(s, cwnd, wnd).snd_queue,
            snd_buf: model::admitted(s, cwnd, wnd).snd_buf,
            snd_nxt: model::admitted(s, cwnd, wnd).snd_nxt,
            ..s
        }),
        model::admitted(s, cwnd, wnd).snd_buf.len() >= s.snd_buf.len(),
        model::valid(s) ==> model::valid(model::admitted(s, cwnd, wnd)),
    decreases s.snd_queue.len(),
{
    if model::difference(s.snd_nxt, model::plus(s.snd_una, cwnd as int)) < 0 && s.snd_queue.len()
        > 0 {
        let g = model::numbered(s, s.snd_queue[0], wnd);
        let t = State {
            snd_queue: s.snd_queue.drop_first(),
            snd_buf: s.snd_buf.push(g),
            snd_nxt: model::plus(s.snd_nxt, 1),
            ..s
        };
        if model::valid(s) {
            lemma_one_more_valid(s, g, cwnd);
        }
        lemma_admitted(t, cwnd, wnd);
    }
}

/// Transmitting changes the retransmission state of the segments and the
/// output, and keeps a state valid.
pub proof fn lemma_transmitted(s: State, c: Round, n: nat)
    requires
        n <= s.snd_buf.len(),
    ensures
        model::transmitted(s, c, n) == (State {
            snd_buf: model::transmitted(s, c, n).snd_buf,
            xmit: model::transmitted(s, c, n).xmit,
            dead: model::transmitted(s, c, n).dead,
            buf: model::transmitted(s, c, n).buf,
            packets: model::transmitted(s, c, n).packets,
            ..s
        }),
        model::transmitted(s, c, n).snd_buf.len() == s.snd_buf.len(),
        forall|i: int|
            0 <= i < s.snd_buf.len() ==> #[trigger] model::transmitted(s, c, n).snd_buf[i] == (if i < n {
                model::after_round(s.snd_buf[i], c)
            } else {
                s.snd_buf[i]
            }),
        model::valid(s) ==> model::valid(model::transmitted(s, c, n)),
    decreases n,
{
    if n > 0 {
        let n1 = (n - 1) as nat;
        lemma_transmitted(s, c, n1);
        let t = model::transmitted(s, c, n1);
        let g = s.snd_buf[n - 1];
        let h = model::after_round(g, c);
        assert(t.snd_buf[n - 1] == g);
        let u = State { snd_buf: t.snd_buf.update(n - 1, h), ..t };
        lemma_sent_one(u, g, c);
        if model::valid(s) {
            assert(forall|i: int|
                0 <= i < s.snd_buf.len() ==> (#[trigger] u.snd_buf[i]).sn == t.snd_buf[i].sn);
            lemma_receive_side_same(t, u);
        }
    }
}

/// What sending one segment changes.
pub proof fn lemma_sent_one(t: State, g: Segment, c: Round)
    ensures
        model::sent_one(t, g, c) == (State {
            xmit: model::sent_one(t, g, c).xmit,
            dead: model::sent_one(t, g, c).dead,
            buf: model::sent_one(t, g, c).buf,
            packets: model::sent_one(t, g, c).packets,
            ..t
        }),
        forall|b: Seq<Segment>| #[trigger]
            model::sent_one(State { snd_buf: b, ..t }, g, c) == (State {
                snd_buf: b,
                ..model::sent_one(t, g, c)
            }),
        model::valid(t) ==> model::valid(model::sent_one(t, g, c)),
{
    assert forall|b: Seq<Segment>| #[trigger]
        model::sent_one(State { snd_buf: b, ..t }, g, c) == (State {
            snd_buf: b,
            ..model::sent_one(t, g, c)
        }) by {
        assert(model::sent_one(State { snd_buf: b, ..t }, g, c) =~= State {
            snd_buf: b,
            ..model::sent_one(t, g, c)
        });
    }
    if model::valid(t) {
        lemma_receive_side_same(t, model::sent_one(t, g, c));
    }
}

/// What a flush has done before it goes through the send buffer.
pub proof fn lemma_prepared(s: State)
    ensures
        model::prepared(s) == (State {
            acklist: Seq::empty(),
            probe: 0,
            ts_probe: model::prepared(s).ts_probe,
            probe_wait: model::prepared(s).probe_wait,
            snd_queue: model::prepared(s).snd_queue,
            snd_buf: model::prepared(s).snd_buf,
            snd_nxt: model::prepared(s).snd_nxt,
            buf: model::prepared(s).buf,
            packets: model::prepared(s).packets,
            ..s
        }),
        model::prepared(s).snd_buf.len() >= s.snd_buf.len(),
        model::valid(s) ==> model::valid(model::prepared(s)),
{
    let g = model::control_segment(s);
    lemma_acks_emitted(s, g, s.acklist.len());
    let s1 = model::acks_flushed(s);
    let s2 = model::probe_scheduled(s1);
    let h = model::last_header(s);
    let ask = Segment { cmd: KCP_CMD_WASK, ..h };
    let tell = Segment { cmd: KCP_CMD_WINS, ..h };
    lemma_emitted(s2, ask);
    lemma_emitted(s2, tell);
    lemma_emitted(model::emitted(s2, ask), tell);
    let s3 = model::probes_flushed(s2, h);
    if model::valid(s) {
        lemma_receive_side_same(s, s1);
        lemma_receive_side_same(s1, s2);
        lemma_receive_side_same(s2, s3);
    }
    lemma_admitted(s3, model::effective_window(s3), model::unused_window(s));
}

/// A flush keeps a state valid.
pub proof fn lemma_flushed_valid(s: State)
    requires
        model::valid(s),
    ensures
        model::valid(model::flushed(s)),
{
    reveal(model::flushed);
    let t = model::prepared(s);
    let c = model::round_of(s);
    lemma_prepared(s);
    lemma_transmitted(t, c, t.snd_buf.len());
    let u = model::transmitted(t, c, t.snd_buf.len());
    let v = model::pushed_out(u);
    lemma_receive_side_same(u, v);
    lemma_receive_side_same(v, model::flushed(s));
}

pub proof fn lemma_acks_flushed_valid(s: State)
    requires
        model::valid(s),
    ensures
        model::valid(model::acks_flushed(s)),
{
    lemma_acks_emitted(s, model::control_segment(s), s.acklist.len());
    lemma_receive_side_same(s, model::acks_flushed(s));
}

/// Acknowledgements and probes leave alone what admission and the round go by.
pub proof fn lemma_before_admission(s: State)
    ensures
        ({
            let t = model::probes_flushed(
                model::probe_scheduled(model::acks_flushed(s)),
                model::last_header(s),
            );
            &&& t.snd_buf == s.snd_buf
            &&& t.snd_wnd == s.snd_wnd
            &&& t.rmt_wnd == s.rmt_wnd
            &&& t.cwnd == s.cwnd
            &&& t.nocwnd == s.nocwnd
            &&& model::effective_window(t) == model::effective_window(s)
        }),
{
    lemma_acks_emitted(s, model::control_segment(s), s.acklist.len());
}

/// Setting the time and the flush timer keeps a state valid.
pub proof fn lemma_timed_valid(s: State, current: u32)
    requires
        model::valid(s),
    ensures
        model::valid(model::timed(s, current)),
{
    lemma_receive_side_same(s, model::timed(s, current));
}

proof fn lemma_probe_scheduled(s: State)
    requires
        model::valid(s),
    ensures
        ({
            let t = model::probe_scheduled(s);
            &&& model::valid(t)
            &&& t.snd_queue == s.snd_queue
            &&& t.snd_buf == s.snd_buf
            &&& t.snd_una == s.snd_una
            &&& t.snd_nxt == s.snd_nxt
            &&& t.mss == s.mss
            &&& t.mtu == s.mtu
        }),
{
    lemma_receive_side_same(s, model::probe_scheduled(s));
}

proof fn lemma_probes_flushed(s: State, g: Segment)
    requires
        model::valid(s),
    ensures
        ({
            let t = model::probes_flushed(s, g);
            &&& model::valid(t)
            &&& t.snd_queue == s.snd_queue
            &&& t.snd_buf == s.snd_buf
            &&& t.snd_una == s.snd_una
            &&& t.snd_nxt == s.snd_nxt
            &&& t.mss == s.mss
            &&& t.mtu == s.mtu
        }),
{
    lemma_receive_side_same(s, model::probes_flushed(s, g));
}

/// Acknowledgements and probes keep a state valid.
pub proof fn lemma_probes_valid(s: State)
    requires
        model::valid(s),
    ensures
        ({
            let t = model::probes_flushed(
                model::probe_scheduled(model::acks_flushed(s)),
                model::last_header(s),
            );
            &&& model::valid(t)
            &&& t.snd_queue == s.snd_queue
            &&& t.snd_buf == s.snd_buf
            &&& t.snd_una == s.snd_una
            &&& t.snd_nxt == s.snd_nxt
            &&& t.mss == s.mss
            &&& t.mtu == s.mtu
        }),
{
    lemma_acks_flushed_valid(s);
    lemma_acks_emitted(s, model::control_segment(s), s.acklist.len());
    let s1 = model::acks_flushed(s);
    lemma_probe_scheduled(s1);
    lemma_probes_flushed(model::probe_scheduled(s1), model::last_header(s));
}

/// Taking packets out leaves a state valid.
pub proof fn lemma_packets_valid(s: State, packets: Seq<Seq<u8>>)
    requires
        model::valid(s),
    ensures
        model::valid(State { packets, ..s }),
{
    lemma_receive_side_same(s, State { packets, ..s });
}

proof fn lemma_flushed_updated(s: State)
    ensures
        model::flushed(s).updated == s.updated,
{
    reveal(model::flushed);
    lemma_prepared(s);
    let t = model::prepared(s);
    lemma_transmitted(t, model::round_of(s), t.snd_buf.len());
}

/// After an update the state counts as updated.
pub proof fn lemma_updated_is_updated(s: State, current: u32)
    ensures
        model::updated_at(s, current).updated,
{
    lemma_flushed_updated(model::timed(s, current));
}

} // verus!
