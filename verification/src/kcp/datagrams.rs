//! What goes out: datagrams that are not empty, that stay within the MTU, and
//! that are made of whole segments.
use vstd::prelude::*;

use super::laws;
use super::model;
use super::model::{Acks, Round, Segment, State, Step, KCP_CMD_WASK, KCP_CMD_WINS, KCP_OVERHEAD};
use super::reliability;
use super::validity;
use crate::bytes;

verus! {

// ── whole segments ──────────────────────────────────────────────────────

/// Whether payloads are within the segment size.
pub open spec fn small(gs: Seq<Segment>, mss: usize) -> bool {
    forall|i: int| 0 <= i < gs.len() ==> (#[trigger] gs[i]).data.len() <= mss
}

/// Whether bytes are the wire forms of these segments, one behind the other.
pub open spec fn made_of(x: Seq<u8>, gs: Seq<Segment>, mss: usize) -> bool {
    x == reliability::wire_of(gs) && small(gs, mss)
}

/// Whether bytes are whole segments, one behind the other.
pub open spec fn whole(x: Seq<u8>, mss: usize) -> bool {
    exists|gs: Seq<Segment>| made_of(x, gs, mss)
}

/// Whether bytes can go out as a datagram: they are not empty, within the MTU,
/// and whole segments.
pub open spec fn is_datagram(x: Seq<u8>, mtu: usize, mss: usize) -> bool {
    0 < x.len() <= mtu && whole(x, mss)
}

/// What was handed out are datagrams, and what waits to be is whole segments
/// within the MTU.
pub open spec fn output_tidy(s: State) -> bool {
    &&& s.mss + KCP_OVERHEAD == s.mtu
    &&& s.buf.len() <= s.mtu
    &&& whole(s.buf, s.mss)
    &&& forall|i: int|
        0 <= i < s.packets.len() ==> is_datagram(#[trigger] s.packets[i], s.mtu, s.mss)
}

/// The output is tidy, and the payloads that wait fit into segments.
pub open spec fn tidy(s: State) -> bool {
    output_tidy(s) && laws::payloads_fit(s)
}

proof fn lemma_whole_empty(mss: usize)
    ensures
        whole(Seq::empty(), mss),
{
    assert(made_of(Seq::empty(), Seq::<Segment>::empty(), mss));
}

proof fn lemma_whole_push(x: Seq<u8>, g: Segment, mss: usize)
    requires
        whole(x, mss),
        g.data.len() <= mss,
    ensures
        whole(x + model::encoded(g), mss),
{
    let gs = choose|gs: Seq<Segment>| made_of(x, gs, mss);
    assert(gs.push(g).drop_last() =~= gs);
    assert(made_of(x + model::encoded(g), gs.push(g), mss));
}

proof fn lemma_whole_larger(x: Seq<u8>, mss: usize, larger: usize)
    requires
        whole(x, mss),
        mss <= larger,
    ensures
        whole(x, larger),
{
    let gs = choose|gs: Seq<Segment>| made_of(x, gs, mss);
    assert(made_of(x, gs, larger));
}

// ── the output ──────────────────────────────────────────────────────────

proof fn lemma_pushed_out_tidy(s: State)
    requires
        output_tidy(s),
    ensures
        output_tidy(model::pushed_out(s)),
        model::pushed_out(s).buf.len() == 0,
{
    lemma_whole_empty(s.mss);
    let t = model::pushed_out(s);
    assert forall|i: int| 0 <= i < t.packets.len() implies is_datagram(
        #[trigger] t.packets[i],
        t.mtu,
        t.mss,
    ) by {
        if i < s.packets.len() {
            assert(t.packets[i] == s.packets[i]);
        }
    }
}

proof fn lemma_emitted_tidy(s: State, g: Segment)
    requires
        output_tidy(s),
        g.data.len() <= s.mss,
    ensures
        output_tidy(model::emitted(s, g)),
{
    lemma_pushed_out_tidy(s);
    let t = if s.buf.len() + KCP_OVERHEAD + g.data.len() > s.mtu {
        model::pushed_out(s)
    } else {
        s
    };
    assert(model::encoded(g).len() == KCP_OVERHEAD + g.data.len());
    lemma_whole_push(t.buf, g, s.mss);
}

proof fn lemma_acks_tidy(s: State, g: Segment, k: nat)
    requires
        output_tidy(s),
        g.data.len() == 0,
    ensures
        output_tidy(model::acks_emitted(s, g, k)),
    decreases k,
{
    if k > 0 {
        lemma_acks_tidy(s, g, (k - 1) as nat);
        lemma_emitted_tidy(
            model::acks_emitted(s, g, (k - 1) as nat),
            model::ack_segment(g, s.acklist[k - 1]),
        );
    }
}

proof fn lemma_transmitted_tidy(s: State, c: Round, k: nat)
    requires
        output_tidy(s),
        small(s.snd_buf, s.mss),
        k <= s.snd_buf.len(),
    ensures
        output_tidy(model::transmitted(s, c, k)),
    decreases k,
{
    if k > 0 {
        let k1 = (k - 1) as nat;
        lemma_transmitted_tidy(s, c, k1);
        validity::lemma_transmitted(s, c, k1);
        let t = model::transmitted(s, c, k1);
        let g = s.snd_buf[k - 1];
        let h = model::after_round(g, c);
        let u = State {
            snd_buf: t.snd_buf.update(k - 1, h),
            xmit: if model::resend_kind(g, c) is Timeout {
                model::plus(t.xmit, 1)
            } else {
                t.xmit
            },
            dead: t.dead || h.xmit >= c.dead_link,
            ..t
        };
        assert(g.data.len() <= s.mss);
        assert(output_tidy(u));
        if !(model::resend_kind(g, c) is Not) {
            lemma_emitted_tidy(u, h);
            assert(model::transmitted(s, c, k) == model::emitted(u, h));
        }
    }
}

/// A flush hands out datagrams only, and leaves nothing behind in the output
/// buffer.
pub proof fn law_flush_hands_out_datagrams(s: State)
    requires
        model::valid(s),
        tidy(s),
    ensures
        tidy(model::flushed(s)),
        model::flushed(s).buf.len() == 0,
{
    reveal(model::flushed);
    let g = model::control_segment(s);
    lemma_acks_tidy(s, g, s.acklist.len());
    validity::lemma_acks_emitted(s, g, s.acklist.len());
    let s1 = model::acks_flushed(s);
    let s2 = model::probe_scheduled(s1);
    let h = model::last_header(s);
    let ask = Segment { cmd: KCP_CMD_WASK, ..h };
    let tell = Segment { cmd: KCP_CMD_WINS, ..h };
    assert(output_tidy(s2));
    lemma_emitted_tidy(s2, ask);
    lemma_emitted_tidy(s2, tell);
    lemma_emitted_tidy(model::emitted(s2, ask), tell);
    let s3 = model::probes_flushed(s2, h);
    assert(output_tidy(s3));
    validity::lemma_probes_valid(s);
    laws::lemma_admitted_fits(s3, model::effective_window(s3), model::unused_window(s));
    validity::lemma_admitted(s3, model::effective_window(s3), model::unused_window(s));
    let p = model::prepared(s);
    let c = model::round_of(s);
    assert(output_tidy(p));
    lemma_transmitted_tidy(p, c, p.snd_buf.len());
    validity::lemma_transmitted(p, c, p.snd_buf.len());
    let t = model::transmitted(p, c, p.snd_buf.len());
    lemma_pushed_out_tidy(t);
    let u = model::flushed(s);
    assert(output_tidy(u)) by {
        assert(u.packets == model::pushed_out(t).packets && u.buf == model::pushed_out(t).buf);
        assert(u.mtu == t.mtu && u.mss == t.mss);
    }
    assert forall|i: int| 0 <= i < u.snd_buf.len() implies (#[trigger] u.snd_buf[i]).data.len()
        <= u.mss by {
        assert(u.snd_buf[i] == model::after_round(p.snd_buf[i], c));
        assert(p.snd_buf[i].data.len() <= p.mss);
    }
    assert(u.snd_queue == p.snd_queue);
}

// ── arrivals ────────────────────────────────────────────────────────────

proof fn lemma_from_una_small(b: Seq<Segment>, una: u32, mss: usize)
    requires
        small(b, mss),
    ensures
        small(model::from_una(b, una), mss),
    decreases b.len(),
{
    if b.len() > 0 && model::difference(una, b[0].sn) > 0 {
        let t = b.drop_first();
        assert forall|i: int| 0 <= i < t.len() implies (#[trigger] t[i]).data.len() <= mss by {
            assert(t[i] == b[i + 1]);
        }
        lemma_from_una_small(t, una, mss);
    }
}

proof fn lemma_acknowledged_small(s: State, sn: u32)
    requires
        small(s.snd_buf, s.mss),
    ensures
        small(model::acknowledged(s, sn).snd_buf, s.mss),
{
    let b = s.snd_buf;
    let k = model::first_not_below(b, sn, 0);
    reliability::lemma_first_not_below(b, sn, 0);
    if model::in_flight(s, sn) && k < b.len() && b[k].sn == sn {
        let t = b.remove(k);
        assert forall|i: int| 0 <= i < t.len() implies (#[trigger] t[i]).data.len() <= s.mss by {
            if i < k {
                assert(t[i] == b[i]);
            } else {
                assert(t[i] == b[i + 1]);
            }
        }
    }
}

/// Whether `t` has the queue and the output of `s`.
spec fn hands_out_alike(s: State, t: State) -> bool {
    &&& t.snd_queue == s.snd_queue
    &&& t.mtu == s.mtu
    &&& t.mss == s.mss
    &&& t.buf == s.buf
    &&& t.packets == s.packets
}

proof fn lemma_step_small(s: State, a: Acks, d: Seq<u8>, pos: int)
    requires
        small(s.snd_buf, s.mss),
    ensures
        match model::input_step(s, a, d, pos) {
            Step::Fail(t, _) => small(t.snd_buf, t.mss) && hands_out_alike(s, t),
            Step::Next(t, _, _) => small(t.snd_buf, t.mss) && hands_out_alike(s, t),
        },
{
    reveal(model::input_step);
    let conv = bytes::le32_at(d, pos);
    let len = bytes::le32_at(d, pos + 20);
    let g = model::header_at(d, pos, len as nat);
    let s1 = if conv != s.conv {
        State { conv, input_conv: false, ..s }
    } else {
        s
    };
    lemma_from_una_small(s1.snd_buf, g.una, s.mss);
    let s2 = model::shrunk(
        State { rmt_wnd: g.wnd, snd_buf: model::from_una(s1.snd_buf, g.una), ..s1 },
    );
    let s4 = State { acklist: s2.acklist.push((g.sn, g.ts)), ..s2 };
    validity::lemma_stored(s4, g);
    let rtt = model::difference(s2.current, g.ts);
    let s3 = if rtt >= 0 {
        model::smoothed(s2, rtt)
    } else {
        s2
    };
    lemma_acknowledged_small(s3, g.sn);
}

proof fn lemma_input_small(s: State, a: Acks, d: Seq<u8>, pos: int, old_una: u32)
    requires
        small(s.snd_buf, s.mss),
    ensures
        ({
            let t = model::input_from(s, a, d, pos, old_una).0;
            small(t.snd_buf, t.mss) && hands_out_alike(s, t)
        }),
    decreases d.len() - pos,
{
    if d.len() - pos >= KCP_OVERHEAD {
        lemma_step_small(s, a, d, pos);
        match model::input_step(s, a, d, pos) {
            Step::Fail(_, _) => {},
            Step::Next(t, b, next) => {
                if next > pos && next <= d.len() {
                    lemma_input_small(t, b, d, next, old_una);
                }
            },
        }
    } else if a.flag {
        let t = model::skipped(s, a.max_ack, a.latest_ts);
        assert forall|i: int| 0 <= i < t.snd_buf.len() implies (#[trigger] t.snd_buf[i]).data.len()
            <= t.mss by {
            assert(s.snd_buf[i].data.len() <= s.mss);
        }
    }
}

proof fn lemma_arrivals_stay_tidy(s: State, d: Seq<u8>)
    requires
        tidy(s),
    ensures
        tidy(model::input_all(s, d).0),
{
    if d.len() >= KCP_OVERHEAD {
        lemma_input_small(s, Acks { flag: false, max_ack: 0, latest_ts: 0 }, d, 0, s.snd_una);
    }
}

proof fn lemma_writes_stay_tidy(s: State, data: Seq<u8>)
    requires
        model::valid(s),
        tidy(s),
    ensures
        tidy(model::sent(s, data).0),
{
    let t = model::sent(s, data).0;
    let m = model::merged(s, data);
    let rest = data.skip(model::merged_len(s, data));
    let f = model::fragments(rest, s.mss, s.stream);
    laws::law_fragments_hold_the_data(rest, s.mss, s.stream);
    assert forall|i: int| 0 <= i < t.snd_queue.len() implies (
    #[trigger] t.snd_queue[i]).data.len() <= t.mss by {
        if i < m.snd_queue.len() {
            assert(t.snd_queue[i] == m.snd_queue[i]);
            assert(s.snd_queue[i].data.len() <= s.mss);
        } else {
            assert(t.snd_queue[i] == f[i - m.snd_queue.len()]);
        }
    }
    assert(t.snd_buf == s.snd_buf);
}

// ── every state ─────────────────────────────────────────────────────────

/// What is done with a control object.
pub enum Call {
    Send(Seq<u8>),
    Input(Seq<u8>),
    Recv,
    Update(u32),
    Flush,
    FlushAck,
    /// The datagrams are taken.
    TakeOutput,
    SetMtu(usize),
    /// Conversation, windows, interval and retransmission are set up anew.
    Configure(State),
}

/// Whether a call can be made: `recv` finds a message, `flush` finds the clock
/// set, and the MTU is not lowered while anything waits to be sent or taken.
pub open spec fn can_call(s: State, c: Call) -> bool {
    match c {
        Call::Send(_) => true,
        Call::Input(_) => true,
        Call::Recv => model::receive_error(s.rcv_queue) is None,
        Call::Update(_) => true,
        Call::Flush => s.updated,
        Call::FlushAck => s.updated,
        Call::TakeOutput => true,
        Call::SetMtu(mtu) => mtu >= s.mtu || (mtu >= 50 && is_idle(s)),
        Call::Configure(t) => {
            &&& model::valid(t)
            &&& hands_out(t) == hands_out(s)
        },
    }
}

/// Whether nothing waits to be sent or taken.
pub open spec fn is_idle(s: State) -> bool {
    s.snd_queue.len() == 0 && s.snd_buf.len() == 0 && s.buf.len() == 0 && s.packets.len() == 0
}

/// What waits and what was handed out.
pub open spec fn hands_out(s: State) -> (
    Seq<Segment>,
    Seq<Segment>,
    Seq<u8>,
    Seq<Seq<u8>>,
    usize,
    usize,
) {
    (s.snd_queue, s.snd_buf, s.buf, s.packets, s.mtu, s.mss)
}

/// The state after a call.
pub open spec fn after_call(s: State, c: Call) -> State {
    match c {
        Call::Send(data) => model::sent(s, data).0,
        Call::Input(d) => model::input_all(s, d).0,
        Call::Recv => model::received(s),
        Call::Update(current) => model::updated_at(s, current),
        Call::Flush => model::flushed(s),
        Call::FlushAck => model::acks_flushed(s),
        Call::TakeOutput => State { packets: Seq::empty(), ..s },
        Call::SetMtu(mtu) => State { mtu, mss: (mtu - KCP_OVERHEAD) as usize, ..s },
        Call::Configure(t) => t,
    }
}

/// The state after calls, one after the other.
pub open spec fn after_calls(s: State, calls: Seq<Call>) -> State
    decreases calls.len(),
{
    if calls.len() == 0 {
        s
    } else {
        after_call(after_calls(s, calls.drop_last()), calls.last())
    }
}

/// Whether calls can be made, one after the other.
pub open spec fn can_make(s: State, calls: Seq<Call>) -> bool
    decreases calls.len(),
{
    calls.len() > 0 ==> {
        &&& can_make(s, calls.drop_last())
        &&& can_call(after_calls(s, calls.drop_last()), calls.last())
    }
}

proof fn lemma_larger_mtu_stays_tidy(s: State, mtu: usize)
    requires
        model::valid(s),
        tidy(s),
        mtu >= s.mtu,
    ensures
        tidy(State { mtu, mss: (mtu - KCP_OVERHEAD) as usize, ..s }),
{
    let mss = (mtu - KCP_OVERHEAD) as usize;
    let t = State { mtu, mss, ..s };
    lemma_whole_larger(s.buf, s.mss, mss);
    assert forall|i: int| 0 <= i < t.packets.len() implies is_datagram(
        #[trigger] t.packets[i],
        t.mtu,
        t.mss,
    ) by {
        assert(is_datagram(s.packets[i], s.mtu, s.mss));
        lemma_whole_larger(s.packets[i], s.mss, mss);
    }
    assert forall|i: int| 0 <= i < t.snd_buf.len() implies (#[trigger] t.snd_buf[i]).data.len()
        <= t.mss by {
        assert(s.snd_buf[i].data.len() <= s.mss);
    }
    assert forall|i: int| 0 <= i < t.snd_queue.len() implies (
    #[trigger] t.snd_queue[i]).data.len() <= t.mss by {
        assert(s.snd_queue[i].data.len() <= s.mss);
    }
}

/// Every call keeps the state valid and the output tidy.
pub proof fn law_calls_stay_tidy(s: State, c: Call)
    requires
        model::valid(s),
        tidy(s),
        can_call(s, c),
    ensures
        model::valid(after_call(s, c)),
        tidy(after_call(s, c)),
{
    match c {
        Call::Send(data) => {
            validity::lemma_sent_valid(s, data);
            lemma_writes_stay_tidy(s, data);
        },
        Call::Input(d) => {
            laws::law_delivery_in_order(s, d);
            lemma_arrivals_stay_tidy(s, d);
        },
        Call::Recv => {
            validity::lemma_received_valid(s);
            validity::lemma_moved(
                State {
                    rcv_queue: s.rcv_queue.skip(model::message_end(s.rcv_queue) as int),
                    ..s
                },
            );
        },
        Call::Update(current) => {
            let t = model::timed(s, current);
            validity::lemma_timed_valid(s, current);
            assert(tidy(t));
            validity::lemma_flushed_valid(t);
            law_flush_hands_out_datagrams(t);
        },
        Call::Flush => {
            validity::lemma_flushed_valid(s);
            law_flush_hands_out_datagrams(s);
        },
        Call::FlushAck => {
            validity::lemma_acks_flushed_valid(s);
            let g = model::control_segment(s);
            lemma_acks_tidy(s, g, s.acklist.len());
            validity::lemma_acks_emitted(s, g, s.acklist.len());
        },
        Call::TakeOutput => {
            validity::lemma_packets_valid(s, Seq::empty());
        },
        Call::SetMtu(mtu) => {
            if mtu >= s.mtu {
                lemma_larger_mtu_stays_tidy(s, mtu);
            } else {
                assert(s.buf =~= Seq::empty());
                lemma_whole_empty((mtu - KCP_OVERHEAD) as usize);
            }
        },
        Call::Configure(t) => {},
    }
}

/// Whatever is done with a control object, as long as its MTU is not lowered
/// while anything waits, every datagram that it hands out is not empty, within
/// the MTU, and made of whole segments; its windows stay open.
pub proof fn law_all_output_is_datagrams(conv: u32, stream: bool, calls: Seq<Call>)
    requires
        can_make(model::initial(conv, stream, Seq::empty()), calls),
    ensures
        ({
            let s = after_calls(model::initial(conv, stream, Seq::empty()), calls);
            &&& model::valid(s)
            &&& tidy(s)
            &&& s.snd_wnd >= 1
            &&& s.rcv_wnd >= model::KCP_WND_RCV
        }),
    decreases calls.len(),
{
    let s0 = model::initial(conv, stream, Seq::empty());
    if calls.len() > 0 {
        law_all_output_is_datagrams(conv, stream, calls.drop_last());
        law_calls_stay_tidy(after_calls(s0, calls.drop_last()), calls.last());
    } else {
        lemma_whole_empty(s0.mss);
    }
}

} // verus!
