//! What a session hands to its stream: everything that arrived, in order.
use vstd::prelude::*;

use super::driver;
use super::laws;
use super::model;
use super::model::{Segment, State};
use super::pace;
use super::session;
use super::session::{Channel, KcpSession, Session};
use super::validity;

verus! {

/// Frames, one behind the other.
pub open spec fn all_of(frames: Seq<Seq<u8>>) -> Seq<u8>
    decreases frames.len(),
{
    if frames.len() == 0 {
        Seq::empty()
    } else {
        all_of(frames.drop_last()) + frames.last()
    }
}

/// The frame that is kept back, if there is one.
pub open spec fn kept_back(s: Session) -> Seq<u8> {
    match s.pending {
        Some(m) => m,
        None => Seq::empty(),
    }
}

/// All that arrived and was not read yet, in the order in which it is read:
/// what the stream was handed, what is kept back, and what the state machine
/// still holds.
pub open spec fn unread(s: Session, ch: Channel) -> Seq<u8> {
    all_of(ch.frames) + kept_back(s) + model::flattened(s.kcp.rcv_queue + s.kcp.rcv_buf)
}

proof fn lemma_moved_order(s: State)
    ensures
        model::moved(s).rcv_queue + model::moved(s).rcv_buf == s.rcv_queue + s.rcv_buf,
    decreases s.rcv_buf.len(),
{
    if model::first_is_ready(s) {
        let t = State {
            rcv_buf: s.rcv_buf.drop_first(),
            rcv_queue: s.rcv_queue.push(s.rcv_buf[0]),
            rcv_nxt: model::plus(s.rcv_nxt, 1),
            ..s
        };
        lemma_moved_order(t);
        assert(t.rcv_queue + t.rcv_buf =~= s.rcv_queue + s.rcv_buf);
    }
}

proof fn lemma_end_bounded(q: Seq<Segment>)
    ensures
        model::message_end(q) <= q.len(),
    decreases q.len(),
{
    if q.len() > 0 {
        lemma_end_bounded(q.drop_first());
    }
}

/// A message that is taken comes off the front.
proof fn lemma_received_front(s: State)
    ensures
        model::message(s.rcv_queue) + model::flattened(
            model::received(s).rcv_queue + model::received(s).rcv_buf,
        ) == model::flattened(s.rcv_queue + s.rcv_buf),
{
    let q = s.rcv_queue;
    let n = model::message_end(q) as int;
    lemma_end_bounded(q);
    let t = State { rcv_queue: q.skip(n), ..s };
    lemma_moved_order(t);
    validity::lemma_moved(t);
    assert(q + s.rcv_buf =~= q.take(n) + (q.skip(n) + s.rcv_buf));
    laws::lemma_flattened_concat(q.take(n), q.skip(n) + s.rcv_buf);
}

proof fn lemma_drained_keeps(s: Session, ch: Channel)
    requires
        s.pending is None,
        !ch.closed,
    ensures
        ({
            let (t, after, r) = session::drained(s, ch);
            &&& unread(t, after) == unread(s, ch)
            &&& r is Ok && t.pending is None ==> t.kcp.rcv_queue.len() == 0
            &&& t.pending is Some ==> after.frames.len() >= after.capacity
            &&& after.capacity == ch.capacity && after.closed == ch.closed
        }),
    decreases session::waiting(s.kcp),
{
    let q = s.kcp.rcv_queue;
    let none = Seq::<u8>::empty();
    if model::receive_error(q) is None {
        let m = model::message(q);
        let t = Session { kcp: model::received(s.kcp), ..s };
        session::lemma_received_waiting(s.kcp);
        lemma_received_front(s.kcp);
        let rest = model::flattened(t.kcp.rcv_queue + t.kcp.rcv_buf);
        if m.len() > usize::MAX {
        } else if m.len() == 0 {
            lemma_drained_keeps(t, ch);
            assert(m + rest =~= rest);
            assert(unread(t, ch) == unread(s, ch));
        } else if ch.frames.len() >= ch.capacity {
            let u = Session { pending: Some(m), ..t };
            assert(unread(u, ch) =~= all_of(ch.frames) + none + (m + rest));
        } else {
            let c = Channel { frames: ch.frames.push(m), ..ch };
            lemma_drained_keeps(t, c);
            assert(c.frames.drop_last() =~= ch.frames);
            assert(unread(t, c) =~= unread(s, ch));
        }
    }
}

/// Handing over loses nothing, repeats nothing and keeps the order; while the
/// stream has room, nothing that is complete is held back.
pub proof fn law_handing_over_keeps_the_bytes(s: Session, ch: Channel)
    requires
        !ch.closed,
    ensures
        ({
            let (t, after, r) = session::handed_over(s, ch);
            &&& unread(t, after) == unread(s, ch)
            &&& r is Ok && after.frames.len() < after.capacity ==> t.pending is None
                && t.kcp.rcv_queue.len() == 0
        }),
{
    match s.pending {
        Some(m) => {
            if ch.frames.len() < ch.capacity {
                let t = Session { pending: None, ..s };
                let c = Channel { frames: ch.frames.push(m), ..ch };
                lemma_drained_keeps(t, c);
                assert(c.frames.drop_last() =~= ch.frames);
                assert(unread(t, c) =~= unread(s, ch));
            }
        },
        None => {
            lemma_drained_keeps(s, ch);
        },
    }
}

/// A stream that nobody reads any more ends its session: the session shuts down
/// and says so, as soon as it has something to hand over.
pub proof fn law_closed_streams_end_the_session(s: Session, ch: Channel)
    requires
        ch.closed,
        s.pending is Some,
    ensures
        ({
            let (t, after, r) = session::handed_over(s, ch);
            t.shutdown && r is Err && after == ch
        }),
{
}

/// The backlog is what waits to be sent or acknowledged, and a writer is woken
/// when it falls below two thousand and forty-eight segments.
pub proof fn law_backlog_is_what_waits(s: Session)
    ensures
        ({
            let t = session::reconciled(s);
            let n = s.kcp.snd_buf.len() + s.kcp.snd_queue.len();
            &&& n <= usize::MAX ==> t.backlog == n
            &&& n <= usize::MAX ==> (t.wake <==> s.wake || s.backlog >= 2048 && n < 2048)
            &&& t == (Session { backlog: t.backlog, wake: t.wake, ..s })
        }),
{
}

/// A session that was shut down sends nothing more; another sends what its
/// state machine hands out, in the same order where there is no code.
pub proof fn law_ticks_send_the_output(s: Session, now: u32)
    ensures
        s.shutdown ==> session::ticked(s, None, now) == (s, Seq::<Seq<u8>>::empty()),
        !s.shutdown ==> {
            let (t, out) = session::ticked(s, None, now);
            out == model::updated_at(s.kcp, now).packets && t.kcp.packets.len() == 0 && t.kcp
                == (State { packets: Seq::empty(), ..model::updated_at(s.kcp, now) })
        },
{
}

/// A forced flush holds nothing back that the windows have room for, even before
/// its time, and hands all of it out.
pub proof fn law_forced_flushes_send(s: Session, now: u32)
    requires
        model::valid(s.kcp),
    ensures
        ({
            let (t, out) = session::flushed_now(s, None, now);
            let k = model::updated_at(s.kcp, now);
            let flying = model::ahead(t.kcp.snd_nxt, t.kcp.snd_una);
            &&& t.kcp.snd_queue.len() == 0 || flying >= k.snd_wnd || flying >= k.rmt_wnd || (
            !k.nocwnd && flying >= k.cwnd)
            &&& out == model::flushed(k).packets
            &&& t.kcp.packets.len() == 0
            &&& t.kcp.acklist.len() == 0
        }),
{
    let k = model::updated_at(s.kcp, now);
    validity::lemma_timed_valid(s.kcp, now);
    if model::flush_time(s.kcp.updated, s.kcp.ts_flush, s.kcp.interval, now).1 {
        validity::lemma_flushed_valid(model::timed(s.kcp, now));
    }
    pace::law_flush_fills_the_window(k);
    assert(model::flushed(k).acklist.len() == 0) by {
        reveal(model::flushed);
        let p = model::prepared(k);
        validity::lemma_prepared(k);
        validity::lemma_transmitted(p, model::round_of(k), p.snd_buf.len());
    }
}

/// What is in order is readable as far as the receive window goes: no more is
/// queued than the window holds, and what comes next stays behind only where
/// the window is full.
pub proof fn law_window_bounds_the_queue(s: State)
    ensures
        ({
            let t = model::moved(s);
            &&& t.rcv_queue.len() <= s.rcv_wnd || t.rcv_queue.len() == s.rcv_queue.len()
            &&& t.rcv_buf.len() > 0 && t.rcv_buf[0].sn == t.rcv_nxt ==> t.rcv_queue.len()
                >= s.rcv_wnd
            &&& s.rcv_queue.is_prefix_of(t.rcv_queue)
            &&& t.rcv_nxt == model::plus(s.rcv_nxt, t.rcv_queue.len() - s.rcv_queue.len())
        }),
    decreases s.rcv_buf.len(),
{
    if model::first_is_ready(s) {
        let t = State {
            rcv_buf: s.rcv_buf.drop_first(),
            rcv_queue: s.rcv_queue.push(s.rcv_buf[0]),
            rcv_nxt: model::plus(s.rcv_nxt, 1),
            ..s
        };
        law_window_bounds_the_queue(t);
        let u = model::moved(s);
        assert(s.rcv_queue.is_prefix_of(u.rcv_queue)) by {
            assert forall|i: int| 0 <= i < s.rcv_queue.len() implies s.rcv_queue[i]
                == u.rcv_queue[i] by {
                assert(t.rcv_queue[i] == u.rcv_queue[i]);
            }
        }
    }
}

/// A tick ends a session whose link is dead and one whose stream nobody reads;
/// a session that lives and has nothing to hand over stays.
pub proof fn law_ticks_end_dead_sessions(s: KcpSession, ch: Channel, clock: u64, now: u32)
    ensures
        ({
            let t = driver::tick_of(s, ch, clock, now);
            &&& t.session.kcp.dead ==> !t.stays
            &&& ch.closed && s@.pending is Some ==> !t.stays
            &&& !t.session.kcp.dead && s@.pending is None && s@.kcp.rcv_queue.len() == 0
                && !s@.shutdown && model::updated_at(s@.kcp, now).rcv_queue.len() == 0 ==> t.stays
                && t.channel == ch
        }),
{
}

} // verus!
