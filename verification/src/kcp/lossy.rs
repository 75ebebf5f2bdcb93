//! Two sessions and a link that loses packets: what the first group of packets
//! of one session brings to the other.
use vstd::prelude::*;

use super::config::KcpConfig;
use super::datagrams;
use super::datagrams::Call;
use super::delivery;
use super::laws;
use super::model;
use super::model::{State, KCP_WND_RCV};
use super::recovery;
use super::recovery::Arrival;
use super::reliability;
use super::reliability::Content;
use super::session;
use super::session::Session;
use super::shards;
use super::shards::{Code, Sending};
use super::validity;

verus! {

// ── a sender that hears nothing yet ─────────────────────────────────────

/// What a session does that nothing has come back to.
pub enum Speak {
    Send(Seq<u8>),
    Tick(u32),
    FlushNow(u32),
}

/// A session, and what it has given out so far.
#[verifier::ext_equal]
pub struct Speech {
    pub s: Session,
    /// The KCP datagrams.
    pub raw: Seq<Seq<u8>>,
    /// The packets on the wire.
    pub wire: Seq<Seq<u8>>,
    /// What was given a number.
    pub book: Seq<Content>,
    /// What was written.
    pub written: Seq<u8>,
}

/// A session before it has said anything.
pub open spec fn silence(conv: u32, config: KcpConfig) -> Speech {
    Speech {
        s: session::fresh(conv, config),
        raw: Seq::empty(),
        wire: Seq::empty(),
        book: Seq::empty(),
        written: Seq::empty(),
    }
}

/// The session after one step.
pub open spec fn spoken(v: Speech, c: Code, x: Speak) -> Speech {
    let a = v.s.kcp;
    match x {
        Speak::Send(data) => {
            let (kcp, taken) = model::sent(a, data);
            let t = Session { kcp, ..v.s };
            Speech {
                s: if taken {
                    session::reconciled(t)
                } else {
                    t
                },
                written: v.written + reliability::queued_by(a, data),
                ..v
            }
        },
        Speak::Tick(now) => {
            let (t, out) = session::ticked(v.s, Some(c), now);
            Speech {
                s: t,
                raw: v.raw + model::updated_at(a, now).packets,
                wire: v.wire + out,
                book: v.book + reliability::booked_by_update(a, now),
                ..v
            }
        },
        Speak::FlushNow(now) => {
            let (t, out) = session::flushed_now(v.s, Some(c), now);
            let b = model::updated_at(a, now);
            Speech {
                s: t,
                raw: v.raw + model::flushed(b).packets,
                wire: v.wire + out,
                book: v.book + reliability::booked_by_update(a, now) + reliability::newly_booked(b),
                ..v
            }
        },
    }
}

/// The session after steps, one after the other.
pub open spec fn all_spoken(v: Speech, c: Code, xs: Seq<Speak>) -> Speech
    decreases xs.len(),
{
    if xs.len() == 0 {
        v
    } else {
        spoken(all_spoken(v, c, xs.drop_last()), c, xs.last())
    }
}

/// Whether no more waits to be sent than there are numbers for, at any time.
pub open spec fn has_numbers(v: Speech, c: Code, xs: Seq<Speak>) -> bool
    decreases xs.len(),
{
    xs.len() > 0 ==> {
        let t = all_spoken(v, c, xs.drop_last());
        &&& has_numbers(v, c, xs.drop_last())
        &&& t.book.len() + t.s.kcp.snd_queue.len() < 0x1_0000_0000
    }
}

/// What holds of the state machine of a sender that hears nothing.
spec fn telling(a: State, book: Seq<Content>, written: Seq<u8>) -> bool {
    &&& model::valid(a)
    &&& reliability::keeps_the_book(a, book, written)
    &&& delivery::all_of(a.snd_buf, a.conv)
    &&& delivery::output_told(a, a.mss, book)
    &&& datagrams::tidy(a)
    &&& a.snd_una == 0
    &&& a.rmt_wnd == KCP_WND_RCV
    &&& book.len() <= KCP_WND_RCV
}

/// Whether `t` is set up as `s` is.
spec fn alike(s: State, t: State) -> bool {
    t.conv == s.conv && t.mss == s.mss && t.mtu == s.mtu
}

proof fn lemma_flushed_alike(a: State)
    ensures
        alike(a, model::flushed(a)),
        model::flushed(a).rmt_wnd == a.rmt_wnd,
        model::flushed(a).snd_queue == model::prepared(a).snd_queue,
{
    reveal(model::flushed);
    validity::lemma_prepared(a);
    let p = model::prepared(a);
    validity::lemma_transmitted(p, model::round_of(a), p.snd_buf.len());
}

proof fn lemma_admitted_queue(s: State, cwnd: u16, wnd: u16)
    ensures
        model::admitted(s, cwnd, wnd).snd_queue.len() <= s.snd_queue.len(),
    decreases s.snd_queue.len(),
{
    if model::difference(s.snd_nxt, model::plus(s.snd_una, cwnd as int)) < 0 && s.snd_queue.len()
        > 0 {
        let t = State {
            snd_queue: s.snd_queue.drop_first(),
            snd_buf: s.snd_buf.push(model::numbered(s, s.snd_queue[0], wnd)),
            snd_nxt: model::plus(s.snd_nxt, 1),
            ..s
        };
        lemma_admitted_queue(t, cwnd, wnd);
    }
}

/// What a flush numbers leaves the queue.
proof fn lemma_booked_leaves(a: State)
    requires
        model::valid(a),
    ensures
        reliability::newly_booked(a).len() + model::flushed(a).snd_queue.len()
            == a.snd_queue.len(),
{
    lemma_flushed_alike(a);
    validity::lemma_probes_valid(a);
    let t = model::probes_flushed(
        model::probe_scheduled(model::acks_flushed(a)),
        model::last_header(a),
    );
    lemma_admitted_queue(t, model::effective_window(t), model::unused_window(a));
}

/// What a flush hands out is still good and tidy.
proof fn lemma_flush_output(a: State, book: Seq<Content>, written: Seq<u8>)
    requires
        telling(a, book, written),
        book.len() + a.snd_queue.len() < 0x1_0000_0000,
    ensures
        ({
            let t = model::flushed(a);
            &&& delivery::all_of(t.snd_buf, t.conv)
            &&& delivery::output_told(t, t.mss, book + reliability::newly_booked(a))
            &&& datagrams::tidy(t)
        }),
{
    delivery::law_flush_tells_the_book(a, book, written);
    datagrams::law_flush_hands_out_datagrams(a);
}

#[verifier::spinoff_prover]
proof fn lemma_flush_tells(a: State, book: Seq<Content>, written: Seq<u8>)
    requires
        telling(a, book, written),
        book.len() + a.snd_queue.len() < 0x1_0000_0000,
    ensures
        ({
            let t = model::flushed(a);
            let longer = book + reliability::newly_booked(a);
            &&& telling(t, longer, written)
            &&& alike(a, t)
            &&& longer.len() + t.snd_queue.len() < 0x1_0000_0000
        }),
{
    let t = model::flushed(a);
    let longer = book + reliability::newly_booked(a);
    assert(reliability::keeps_the_book(t, longer, written)) by {
        reliability::law_flush_keeps_the_book(a, book, written);
    }
    lemma_flush_output(a, book, written);
    validity::lemma_flushed_valid(a);
    lemma_flushed_alike(a);
    lemma_flushed_within(a);
    lemma_booked_leaves(a);
}

/// A flush keeps what is in flight within the peer's window.
proof fn lemma_flushed_within(a: State)
    requires
        model::valid(a),
        a.snd_una == 0,
        a.snd_nxt <= a.rmt_wnd,
    ensures
        model::flushed(a).snd_una == 0,
        model::flushed(a).snd_nxt <= a.rmt_wnd,
{
    laws::law_flush_respects_the_window(a);
    let t = model::flushed(a);
    assert(model::ahead(t.snd_nxt, t.snd_una) == t.snd_nxt);
    assert(model::ahead(a.snd_nxt, a.snd_una) == a.snd_nxt);
    assert(model::effective_window(a) <= a.rmt_wnd);
}

proof fn lemma_timed_tells(a: State, now: u32, book: Seq<Content>, written: Seq<u8>)
    requires
        telling(a, book, written),
    ensures
        telling(model::timed(a, now), book, written),
{
    validity::lemma_timed_valid(a, now);
}

proof fn lemma_update_tells(a: State, now: u32, book: Seq<Content>, written: Seq<u8>)
    requires
        telling(a, book, written),
        book.len() + a.snd_queue.len() < 0x1_0000_0000,
    ensures
        ({
            let t = model::updated_at(a, now);
            let longer = book + reliability::booked_by_update(a, now);
            &&& telling(t, longer, written)
            &&& alike(a, t)
            &&& longer.len() + t.snd_queue.len() < 0x1_0000_0000
        }),
{
    let s = model::timed(a, now);
    lemma_timed_tells(a, now, book, written);
    if model::flush_time(a.updated, a.ts_flush, a.interval, now).1 {
        lemma_flush_tells(s, book, written);
    } else {
        assert(book + reliability::booked_by_update(a, now) =~= book);
    }
}

proof fn lemma_send_tells(a: State, data: Seq<u8>, book: Seq<Content>, written: Seq<u8>)
    requires
        telling(a, book, written),
    ensures
        telling(model::sent(a, data).0, book, written + reliability::queued_by(a, data)),
        alike(a, model::sent(a, data).0),
        model::sent(a, data).0.packets == a.packets,
{
    reliability::law_writes_keep_the_book(a, data, book, written);
    datagrams::law_calls_stay_tidy(a, Call::Send(data));
    let t = model::sent(a, data).0;
    assert(t == (State { snd_queue: t.snd_queue, ..a }));
}

proof fn lemma_taken_tells(a: State, book: Seq<Content>, written: Seq<u8>)
    requires
        telling(a, book, written),
    ensures
        telling(State { packets: Seq::empty(), ..a }, book, written),
{
    validity::lemma_packets_valid(a, Seq::empty());
}

// ── what it gives out ───────────────────────────────────────────────────

/// What holds of a session that has spoken.
spec fn well_spoken(v: Speech, c: Code, conv: u32, config: KcpConfig) -> bool {
    let b = session::fresh(conv, config).kcp;
    &&& telling(v.s.kcp, v.book, v.written)
    &&& alike(b, v.s.kcp)
    &&& v.s.kcp.packets.len() == 0
    &&& !v.s.shutdown
    &&& (v.s.sending, v.wire) == shards::wrapped_all(
        c,
        Sending { seqid: 0, shards: Seq::empty() },
        v.raw,
    )
    &&& forall|i: int|
        0 <= i < v.raw.len() ==> 0 < (#[trigger] v.raw[i]).len() <= b.mtu && delivery::well_told(
            v.raw[i],
            0,
            b.conv,
            b.mss,
            v.book,
        )
}

proof fn lemma_wrapped_concat(c: Code, w: Sending, p: Seq<Seq<u8>>, q: Seq<Seq<u8>>)
    ensures
        ({
            let (v, out) = shards::wrapped_all(c, w, p);
            let (u, more) = shards::wrapped_all(c, v, q);
            shards::wrapped_all(c, w, p + q) == (u, out + more)
        }),
    decreases q.len(),
{
    let (v, out) = shards::wrapped_all(c, w, p);
    let (u, more) = shards::wrapped_all(c, v, q);
    if q.len() == 0 {
        assert(p + q =~= p);
        assert(out + more =~= out);
    } else {
        lemma_wrapped_concat(c, w, p, q.drop_last());
        assert((p + q).drop_last() =~= p + q.drop_last());
        assert((p + q).last() == q.last());
        let (u1, m1) = shards::wrapped_all(c, v, q.drop_last());
        let m2 = shards::wrapped(c, u1, q.last()).1;
        assert(out + m1 + m2 =~= out + (m1 + m2));
    }
}

/// What the state machine handed out goes on the wire.
proof fn lemma_output_spoken(
    v: Speech,
    c: Code,
    conv: u32,
    config: KcpConfig,
    t: State,
    more: Seq<Content>,
)
    requires
        well_spoken(v, c, conv, config),
        telling(t, v.book + more, v.written),
        alike(v.s.kcp, t),
    ensures
        ({
            let (u, out) = session::output_taken(
                session::reconciled(Session { kcp: t, ..v.s }),
                Some(c),
            );
            well_spoken(
                Speech {
                    s: u,
                    raw: v.raw + t.packets,
                    wire: v.wire + out,
                    book: v.book + more,
                    ..v
                },
                c,
                conv,
                config,
            )
        }),
{
    let w = Sending { seqid: 0, shards: Seq::empty() };
    lemma_wrapped_concat(c, w, v.raw, t.packets);
    lemma_taken_tells(t, v.book + more, v.written);
    let b = session::fresh(conv, config).kcp;
    let raw = v.raw + t.packets;
    assert forall|i: int| 0 <= i < raw.len() implies 0 < (#[trigger] raw[i]).len() <= b.mtu
        && delivery::well_told(raw[i], 0, b.conv, b.mss, v.book + more) by {
        if i < v.raw.len() {
            assert(raw[i] == v.raw[i]);
            delivery::lemma_well_told_longer(raw[i], 0, b.conv, b.mss, v.book, more);
        } else {
            let j = i - v.raw.len();
            assert(raw[i] == t.packets[j]);
            delivery::lemma_output_is_well_told(t, t.mss, v.book + more, j);
            assert(datagrams::is_datagram(t.packets[j], t.mtu, t.mss));
        }
    }
}

proof fn lemma_spoken(v: Speech, c: Code, conv: u32, config: KcpConfig, x: Speak)
    requires
        well_spoken(v, c, conv, config),
        v.book.len() + v.s.kcp.snd_queue.len() < 0x1_0000_0000,
    ensures
        well_spoken(spoken(v, c, x), c, conv, config),
{
    let a = v.s.kcp;
    match x {
        Speak::Send(data) => {
            lemma_send_tells(a, data, v.book, v.written);
        },
        Speak::Tick(now) => {
            lemma_update_tells(a, now, v.book, v.written);
            lemma_output_spoken(
                v,
                c,
                conv,
                config,
                model::updated_at(a, now),
                reliability::booked_by_update(a, now),
            );
        },
        Speak::FlushNow(now) => {
            let b = model::updated_at(a, now);
            let first = reliability::booked_by_update(a, now);
            let second = reliability::newly_booked(b);
            lemma_update_tells(a, now, v.book, v.written);
            lemma_flush_tells(b, v.book + first, v.written);
            assert(v.book + first + second =~= v.book + (first + second));
            lemma_output_spoken(v, c, conv, config, model::flushed(b), first + second);
        },
    }
}

proof fn lemma_silence(conv: u32, config: KcpConfig, c: Code)
    requires
        config.mtu <= u32::MAX,
    ensures
        well_spoken(silence(conv, config), c, conv, config),
{
    let v = silence(conv, config);
    let a = v.s.kcp;
    assert(model::valid(a));
    assert(reliability::keeps_the_book(a, v.book, v.written)) by {
        assert(reliability::joined(v.book) + model::flattened(a.snd_queue) =~= v.written);
    }
    assert(delivery::output_told(a, a.mss, v.book)) by {
        assert(delivery::told_by(a.buf, Seq::empty(), a.conv, a.mss, v.book));
    }
    assert(datagrams::tidy(a)) by {
        assert(datagrams::made_of(a.buf, Seq::empty(), a.mss));
    }
}

proof fn lemma_all_spoken(conv: u32, config: KcpConfig, c: Code, xs: Seq<Speak>)
    requires
        config.mtu <= u32::MAX,
        has_numbers(silence(conv, config), c, xs),
    ensures
        well_spoken(all_spoken(silence(conv, config), c, xs), c, conv, config),
    decreases xs.len(),
{
    if xs.len() == 0 {
        lemma_silence(conv, config, c);
    } else {
        let v = all_spoken(silence(conv, config), c, xs.drop_last());
        lemma_all_spoken(conv, config, c, xs.drop_last());
        lemma_spoken(v, c, conv, config, xs.last());
    }
}

/// The first datagrams of a sender and a fresh receiver match.
proof fn lemma_matched(v: Speech, c: Code, conv: u32, config: KcpConfig)
    requires
        config.mtu <= 65533,
        session::code_fits(Some(c), config),
        c.k + c.p <= 256,
        well_spoken(v, c, conv, config),
        v.raw.len() >= c.k,
    ensures
        recovery::well_matched(
            session::fresh(conv, config),
            c,
            v.raw.take(c.k as int),
            v.book,
        ),
        v.wire.len() >= c.k + c.p,
        v.wire.take((c.k + c.p) as int) == recovery::first_packets(c, v.raw.take(c.k as int)),
{
    let raws = v.raw.take(c.k as int);
    let b = session::fresh(conv, config);
    let w = Sending { seqid: 0, shards: Seq::empty() };
    assert(raws + v.raw.skip(c.k as int) =~= v.raw);
    lemma_wrapped_concat(c, w, raws, v.raw.skip(c.k as int));
    recovery::law_first_group(c, raws);
    assert(v.wire.take((c.k + c.p) as int) =~= recovery::first_packets(c, raws));
    assert(model::valid(b.kcp));
    recovery::law_fresh_sessions_are_ready(conv, config, v.book);
    assert forall|i: int| 0 <= i < raws.len() implies 0 < (#[trigger] raws[i]).len() <= 65533
        && delivery::well_told(raws[i], 0, b.kcp.conv, b.kcp.mss, v.book) by {
        assert(raws[i] == v.raw[i]);
    }
}

// ── both ends ───────────────────────────────────────────────────────────

/// Whatever a sender has written and flushed, as soon as it has given out its
/// first full group of `k` data and `p` parity packets, a receiver of the same
/// conversation and configuration that is given any `k` of these, in whatever
/// order and some perhaps more than once, takes each of them in, and holds the
/// same data as if exactly the `k` KCP datagrams had come, each once.
pub proof fn law_first_group_survives_losses(
    conv: u32,
    config: KcpConfig,
    c: Code,
    steps: Seq<Speak>,
    xs: Seq<Arrival>,
)
    requires
        config.mtu <= 65533,
        session::code_fits(Some(c), config),
        c.k + c.p <= 256,
        has_numbers(silence(conv, config), c, steps),
        all_spoken(silence(conv, config), c, steps).raw.len() >= c.k,
        recovery::in_time(xs, (c.k + c.p) as int),
        xs.len() > 0,
        ({
            let v = all_spoken(silence(conv, config), c, steps);
            let group = v.wire.take((c.k + c.p) as int);
            let raws = v.raw.take(c.k as int);
            &&& recovery::can_arrive(session::fresh(conv, config), c, group, xs)
            &&& shards::held(recovery::gathered(c, raws, recovery::indices(xs.drop_last()))) < c.k
            &&& shards::held(recovery::gathered(c, raws, recovery::indices(xs))) == c.k
        }),
    ensures
        ({
            let v = all_spoken(silence(conv, config), c, steps);
            let group = v.wire.take((c.k + c.p) as int);
            let raws = v.raw.take(c.k as int);
            let b = session::fresh(conv, config);
            let (t, ok) = recovery::after_arrivals(b, c, group, xs);
            &&& v.wire.len() >= c.k + c.p
            &&& ok
            &&& t.groups.len() == 0
            &&& delivery::all_taken_in(b.kcp, raws).1
            &&& delivery::same_data(t.kcp, delivery::all_taken_in(b.kcp, raws).0)
        }),
{
    lemma_all_spoken(conv, config, c, steps);
    let v = all_spoken(silence(conv, config), c, steps);
    let raws = v.raw.take(c.k as int);
    let b = session::fresh(conv, config);
    lemma_matched(v, c, conv, config);
    recovery::law_any_k_packets_deliver_the_group(b, c, raws, xs, v.book);
}

} // verus!
