//! Relays: the pipe between two connections, and the compressing layer.
use frp_core::snappy_stream::{Inner, ReadAction, SnappyReader, SnappyWriter, WriteAction, Wrote};
use frp_core::splice::{
    after_first, Action, Closed, Direction, Event, Moved, Next, Phase, Side, PIPE_CAPACITY,
};

#[test]
fn bytes_pass_through_the_pipe() {
    let mut d = Direction::new();
    assert_eq!(d.step(Event::In(Moved::Bytes(10))).action, Action::PassOn { limit: 10 });
    assert_eq!(d.step(Event::Out(Moved::Bytes(4))).action, Action::PassOn { limit: 6 });
    let s = d.step(Event::Out(Moved::Again));
    assert_eq!(s.action, Action::PassOn { limit: 6 });
    assert!(s.clear_ready);
    assert_eq!(d.step(Event::Out(Moved::Interrupted)).action, Action::PassOn { limit: 6 });
    assert_eq!(d.step(Event::Out(Moved::Bytes(6))).action, Action::TakeIn);
    assert_eq!(d.moved, 10);
    assert_eq!(d.step(Event::In(Moved::Bytes(0))).action, Action::ShutDown);
    assert_eq!(d.step(Event::Shut(Closed::Interrupted)).action, Action::ShutDown);
    assert_eq!(d.step(Event::Shut(Closed::NotConnected)).action, Action::Finish);
    assert_eq!(d.phase, Phase::Complete);
}

#[test]
fn a_dry_source_empties_the_pipe_first() {
    let mut d = Direction::new();
    let s = d.step(Event::In(Moved::Again));
    assert_eq!(s.action, Action::CountPipe);
    assert!(s.clear_ready);
    assert_eq!(d.step(Event::Counted(5)).action, Action::PassOn { limit: PIPE_CAPACITY });
    assert_eq!(d.step(Event::Out(Moved::Bytes(5))).action, Action::PassOn { limit: PIPE_CAPACITY });
    assert_eq!(d.step(Event::Out(Moved::Bytes(0))).action, Action::Wait);
    assert_eq!(d.moved, 5);
    let s = d.step(Event::Woken { by_pipe: true });
    assert_eq!(s.action, Action::TakeIn);
    assert!(s.clear_ready);
    d.step(Event::In(Moved::Again));
    assert_eq!(d.step(Event::Counted(0)).action, Action::Wait);
    assert!(!d.step(Event::Woken { by_pipe: false }).clear_ready);
}

#[test]
fn failures_end_a_direction() {
    let mut d = Direction::new();
    assert_eq!(d.step(Event::In(Moved::Failed)).action, Action::Fail);
    let mut d = Direction::new();
    d.step(Event::In(Moved::Bytes(3)));
    assert_eq!(d.step(Event::Out(Moved::Bytes(0))).action, Action::FailDrained);
    assert_eq!(d.phase, Phase::Broken);
    let mut d = Direction::new();
    d.step(Event::In(Moved::Again));
    assert_eq!(d.step(Event::CountFailed).action, Action::Fail);
    let mut d = Direction::new();
    d.step(Event::In(Moved::Bytes(0)));
    assert_eq!(d.step(Event::Shut(Closed::Failed)).action, Action::Fail);
}

#[test]
fn a_clean_end_keeps_the_other_side_running() {
    assert_eq!(after_first(Side::UserToWork, true), Next::Await(Side::WorkToUser));
    assert_eq!(after_first(Side::WorkToUser, true), Next::Await(Side::UserToWork));
    assert_eq!(after_first(Side::UserToWork, false), Next::Fail);
    assert_eq!(after_first(Side::WorkToUser, false), Next::Fail);
}

/// A writer's inner stream that takes nothing for the first `zeros` calls, then
/// everything.
struct ZeroThenSink {
    zeros: usize,
}

impl ZeroThenSink {
    fn write(&mut self, buf: &[u8]) -> Wrote {
        if self.zeros > 0 {
            self.zeros -= 1;
            return Wrote::Bytes(0);
        }
        Wrote::Bytes(buf.len())
    }
}

/// One write of `buf`, whose compressed form is `comp`.
fn poll_write(w: &mut SnappyWriter, inner: &mut ZeroThenSink, buf: &[u8], comp: &[u8]) -> WriteAction {
    match w.begin_write() {
        WriteAction::Retry => {
            let wrote = inner.write(&w.waiting());
            w.retried(wrote)
        }
        _ => {
            let wrote = inner.write(comp);
            w.first_offer(comp.to_vec(), buf.len(), wrote)
        }
    }
}

#[test]
fn drain_pending_ok_zero_surfaces_as_write_zero() {
    let mut w = SnappyWriter::new();
    let mut inner = ZeroThenSink { zeros: 2 };
    let buf = vec![0x42u8; 100];
    let comp = b"compressed".to_vec();

    // The fresh write hits Ok(0) → buffered as pending, Pending.
    assert_eq!(poll_write(&mut w, &mut inner, &buf, &comp), WriteAction::PendAwake);

    // The drain retry hits Ok(0) again on a non-empty remainder →
    // WriteZero error, not a self-wake → Pending spin.
    assert_eq!(poll_write(&mut w, &mut inner, &buf, &comp), WriteAction::FailZero);
}

#[test]
fn drain_pending_ok_zero_then_progress_flushes() {
    let mut w = SnappyWriter::new();
    let mut inner = ZeroThenSink { zeros: 1 };
    let buf = vec![0x42u8; 100];
    let comp = b"compressed".to_vec();

    // Fresh write hits Ok(0) → buffered as pending, Pending.
    assert_eq!(poll_write(&mut w, &mut inner, &buf, &comp), WriteAction::PendAwake);

    // The drain retry succeeds → the original write is reported.
    assert_eq!(poll_write(&mut w, &mut inner, &buf, &comp), WriteAction::Done { n: buf.len() });
}

#[test]
fn partial_writes_go_out_once() {
    let mut w = SnappyWriter::new();
    assert_eq!(w.begin_write(), WriteAction::Compress);
    assert_eq!(w.first_offer(b"abcdef".to_vec(), 9, Wrote::Bytes(2)), WriteAction::PendAwake);
    assert_eq!(w.waiting(), b"cdef".to_vec());
    assert_eq!(w.begin_flush(), WriteAction::Retry);
    assert_eq!(w.retried_flush(Wrote::Bytes(1)), WriteAction::PendAwake);
    assert_eq!(w.waiting(), b"def".to_vec());
    assert_eq!(w.retried(Wrote::Pending), WriteAction::Pend);
    assert_eq!(w.retried(Wrote::Failed), WriteAction::Fail);
    assert_eq!(w.retried(Wrote::Bytes(3)), WriteAction::Done { n: 9 });
    assert_eq!(w.begin_flush(), WriteAction::Forward);
    assert_eq!(w.first_offer(b"xy".to_vec(), 5, Wrote::Pending), WriteAction::Pend);
    assert_eq!(w.retried_flush(Wrote::Bytes(2)), WriteAction::PendAwake);
    assert_eq!(w.begin_flush(), WriteAction::Forward);
    assert_eq!(w.first_offer(b"xy".to_vec(), 5, Wrote::Failed), WriteAction::Fail);
    assert_eq!(w.first_offer(b"xy".to_vec(), 5, Wrote::Bytes(2)), WriteAction::Done { n: 5 });
}

#[test]
fn reads_serve_decoded_bytes_in_order() {
    let mut r = SnappyReader::new();
    assert_eq!(r.begin(0), (ReadAction::Finish, vec![]));
    assert_eq!(r.begin(3), (ReadAction::ReadInner, vec![]));
    assert_eq!(r.inner(Inner::Bytes(20)), ReadAction::Feed);
    let (a, out) = r.decoded(b"hello".to_vec(), Some(true), 3);
    assert_eq!((a, out), (ReadAction::Serve { n: 3 }, b"hel".to_vec()));
    assert_eq!(r.begin(9), (ReadAction::Serve { n: 2 }, b"lo".to_vec()));
    // The decoder holds more: it is drained before the next read.
    assert_eq!(r.begin(9), (ReadAction::Drain, vec![]));
    assert_eq!(r.decoded(vec![], Some(false), 9).0, ReadAction::ReadInner);
    assert_eq!(r.inner(Inner::Pending), ReadAction::Pend);
    assert_eq!(r.begin(9).0, ReadAction::ReadInner);
    assert_eq!(r.inner(Inner::Bytes(0)), ReadAction::Validate);
    assert_eq!(r.validated(true), ReadAction::Finish);
    assert_eq!(r.begin(9), (ReadAction::Finish, vec![]));
}

#[test]
fn broken_streams_fail_reads() {
    let mut r = SnappyReader::new();
    r.begin(4);
    assert_eq!(r.inner(Inner::Failed), ReadAction::Fail);
    r.begin(4);
    r.inner(Inner::Bytes(4));
    assert_eq!(r.decoded(b"ab".to_vec(), None, 4).0, ReadAction::Fail);
    // What was decoded before the failure is still served.
    assert_eq!(r.begin(4), (ReadAction::Serve { n: 2 }, b"ab".to_vec()));
    r.begin(4);
    r.inner(Inner::Bytes(0));
    assert_eq!(r.validated(false), ReadAction::Fail);
}
