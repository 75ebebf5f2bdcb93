//! Streaming compression as a layer over a byte stream: what a read or a write
//! does next, and which bytes it owes. The codec and the stream stay outside.
use vstd::prelude::*;

verus! {

/// How much is read from the inner stream at once.
pub const READ_CHUNK_SIZE: usize = 32_768;

// ── reader ──────────────────────────────────────────────────────────────

/// Where a read stands.
#[derive(Debug, Clone, Copy, PartialEq, Eq, Structural)]
pub enum ReadPhase {
    /// No call is under way.
    Idle,
    /// The decoder was asked for what it still holds.
    Draining,
    /// The inner stream was asked for more.
    Reading,
    /// The decoder was handed what was read.
    Feeding,
    /// The decoder was asked whether the stream ended inside a frame.
    Ending,
}

/// What a read does next.
#[derive(Debug, Clone, Copy, PartialEq, Eq, Structural)]
pub enum ReadAction {
    /// Hand the caller the first `n` decoded bytes.
    Serve { n: usize },
    /// Ask the decoder for what it still holds.
    Drain,
    /// Ask the inner stream for more.
    ReadInner,
    /// Hand the decoder what was read.
    Feed,
    /// Ask the decoder whether the stream ended inside a frame.
    Validate,
    /// Return with nothing more.
    Finish,
    /// Return that nothing is there yet.
    Pend,
    /// Return the error.
    Fail,
}

/// What the inner stream answered.
#[derive(Debug, Clone, Copy, PartialEq, Eq, Structural)]
pub enum Inner {
    /// So many bytes; none at the end.
    Bytes(usize),
    Pending,
    Failed,
}

/// The state of a reader.
#[verifier::ext_equal]
pub struct Reader {
    /// Decoded bytes that the caller has not had yet.
    pub ready: Seq<u8>,
    /// Whether the decoder holds complete frames.
    pub has_more: bool,
    /// Whether the inner stream has ended.
    pub eof: bool,
    pub phase: ReadPhase,
}

/// A reader for `SnappyStreamReader`: the part that decides.
pub struct SnappyReader {
    out_buf: Vec<u8>,
    out_pos: usize,
    has_more_complete: bool,
    eof: bool,
    phase: ReadPhase,
}

impl View for SnappyReader {
    type V = Reader;

    closed spec fn view(&self) -> Reader {
        Reader {
            ready: self.out_buf@.skip(self.out_pos as int),
            has_more: self.has_more_complete,
            eof: self.eof,
            phase: self.phase,
        }
    }
}

/// A read that may serve `room` bytes where bytes are ready.
pub open spec fn served_now(ready: Seq<u8>, room: int) -> int {
    if ready.len() < room {
        ready.len() as int
    } else {
        room
    }
}

/// What a read does when it begins or when the decoder was fed: it serves what
/// is ready, then drains the decoder, then reads on.
pub open spec fn resume(r: Reader, room: int) -> (Reader, ReadAction) {
    if r.ready.len() > 0 {
        (
            Reader { ready: r.ready.skip(served_now(r.ready, room)), phase: ReadPhase::Idle, ..r },
            ReadAction::Serve { n: served_now(r.ready, room) as usize },
        )
    } else if r.has_more {
        (Reader { phase: ReadPhase::Draining, ..r }, ReadAction::Drain)
    } else {
        read_on(r)
    }
}

/// What a read does when nothing is ready: it asks the inner stream, unless
/// that has ended.
pub open spec fn read_on(r: Reader) -> (Reader, ReadAction) {
    if r.eof {
        (Reader { phase: ReadPhase::Idle, ..r }, ReadAction::Finish)
    } else {
        (Reader { phase: ReadPhase::Reading, ..r }, ReadAction::ReadInner)
    }
}

impl SnappyReader {
    pub closed spec fn wf(&self) -> bool {
        self.out_pos <= self.out_buf@.len()
    }

    /// A reader that has read nothing.
    pub fn new() -> (r: SnappyReader)
        ensures
            r.wf(),
            r@ == (Reader {
                ready: Seq::empty(),
                has_more: false,
                eof: false,
                phase: ReadPhase::Idle,
            }),
    {
        let r = SnappyReader {
            out_buf: Vec::new(),
            out_pos: 0,
            has_more_complete: false,
            eof: false,
            phase: ReadPhase::Idle,
        };
        assert(r@.ready =~= Seq::empty());
        r
    }

    /// The first `n` bytes that are ready, as they will be served.
    fn take_ready(&mut self, n: usize) -> (r: Vec<u8>)
        requires
            old(self).wf(),
            n <= old(self)@.ready.len(),
        ensures
            final(self).wf(),
            r@ == old(self)@.ready.take(n as int),
            final(self)@ == (Reader { ready: old(self)@.ready.skip(n as int), ..old(self)@ }),
    {
        assert(self.out_buf@.len() == self.out_buf.len());
        let end = self.out_pos + n;
        let r = vstd::slice::slice_to_vec(&self.out_buf.as_slice()[self.out_pos..end]);
        self.out_pos = end;
        assert(r@ =~= old(self)@.ready.take(n as int));
        assert(self@.ready =~= old(self)@.ready.skip(n as int));
        r
    }

    fn read_more(&mut self) -> (r: ReadAction)
        requires
            old(self).wf(),
        ensures
            final(self).wf(),
            (final(self)@, r) == read_on(old(self)@),
    {
        if self.eof {
            self.phase = ReadPhase::Idle;
            ReadAction::Finish
        } else {
            self.phase = ReadPhase::Reading;
            ReadAction::ReadInner
        }
    }

    fn go_on(&mut self, room: usize) -> (r: (ReadAction, Vec<u8>))
        requires
            old(self).wf(),
        ensures
            final(self).wf(),
            (final(self)@, r.0) == resume(old(self)@, room as int),
            r.1@ == (match r.0 {
                ReadAction::Serve { n } => old(self)@.ready.take(n as int),
                _ => Seq::empty(),
            }),
    {
        assert(self.out_buf@.len() == self.out_buf.len());
        let left = self.out_buf.len() - self.out_pos;
        if left > 0 {
            let n = if left < room {
                left
            } else {
                room
            };
            let bytes = self.take_ready(n);
            self.phase = ReadPhase::Idle;
            return (ReadAction::Serve { n }, bytes);
        }
        if self.has_more_complete {
            self.phase = ReadPhase::Draining;
            return (ReadAction::Drain, Vec::new());
        }
        (self.read_more(), Vec::new())
    }

    /// A read begins, with room for so many bytes. Returns what it does next,
    /// and the bytes that it serves.
    pub fn begin(&mut self, room: usize) -> (r: (ReadAction, Vec<u8>))
        requires
            old(self).wf(),
        ensures
            final(self).wf(),
            room == 0 ==> r.0 == ReadAction::Finish && r.1@.len() == 0 && final(self)@
                == old(self)@,
            room > 0 ==> (final(self)@, r.0) == resume(old(self)@, room as int),
            room > 0 ==> r.1@ == (match r.0 {
                ReadAction::Serve { n } => old(self)@.ready.take(n as int),
                _ => Seq::empty(),
            }),
    {
        if room == 0 {
            return (ReadAction::Finish, Vec::new());
        }
        self.go_on(room)
    }

    /// The inner stream has answered.
    pub fn inner(&mut self, answer: Inner) -> (r: ReadAction)
        requires
            old(self).wf(),
            old(self)@.phase == ReadPhase::Reading,
        ensures
            final(self).wf(),
            (match answer {
                Inner::Bytes(n) => if n > 0 {
                    r == ReadAction::Feed && final(self)@ == (Reader {
                        phase: ReadPhase::Feeding,
                        ..old(self)@
                    })
                } else {
                    r == ReadAction::Validate && final(self)@ == (Reader {
                        eof: true,
                        phase: ReadPhase::Ending,
                        ..old(self)@
                    })
                },
                Inner::Pending => r == ReadAction::Pend && final(self)@ == (Reader {
                    phase: ReadPhase::Idle,
                    ..old(self)@
                }),
                Inner::Failed => r == ReadAction::Fail && final(self)@ == (Reader {
                    phase: ReadPhase::Idle,
                    ..old(self)@
                }),
            }),
    {
        match answer {
            Inner::Bytes(n) => {
                if n > 0 {
                    self.phase = ReadPhase::Feeding;
                    ReadAction::Feed
                } else {
                    self.eof = true;
                    self.phase = ReadPhase::Ending;
                    ReadAction::Validate
                }
            },
            Inner::Pending => {
                self.phase = ReadPhase::Idle;
                ReadAction::Pend
            },
            Inner::Failed => {
                self.phase = ReadPhase::Idle;
                ReadAction::Fail
            },
        }
    }

    /// The decoder has given out bytes, on being drained or fed. `has_more`
    /// says whether it holds complete frames, or that it has failed; what it
    /// gave out before that is still served. After a drain that gave nothing
    /// the inner stream is asked, though the decoder may hold more.
    pub fn decoded(&mut self, batch: Vec<u8>, has_more: Option<bool>, room: usize) -> (r: (
        ReadAction,
        Vec<u8>,
    ))
        requires
            old(self).wf(),
            room > 0,
            old(self)@.phase == ReadPhase::Draining || old(self)@.phase == ReadPhase::Feeding,
            old(self)@.ready.len() == 0,
        ensures
            final(self).wf(),
            (match has_more {
                Some(more) => {
                    let fed = Reader { ready: batch@, has_more: more, ..old(self)@ };
                    &&& (final(self)@, r.0) == (if old(self)@.phase == ReadPhase::Draining
                        && batch@.len() == 0 {
                        read_on(fed)
                    } else {
                        resume(fed, room as int)
                    })
                    &&& r.1@ == (match r.0 {
                        ReadAction::Serve { n } => batch@.take(n as int),
                        _ => Seq::empty(),
                    })
                },
                None => {
                    &&& r.0 == ReadAction::Fail
                    &&& r.1@.len() == 0
                    &&& final(self)@ == (Reader {
                        ready: batch@,
                        phase: ReadPhase::Idle,
                        ..old(self)@
                    })
                },
            }),
    {
        let drained = self.phase == ReadPhase::Draining && batch.len() == 0;
        self.out_buf = batch;
        self.out_pos = 0;
        assert(self@.ready =~= batch@);
        match has_more {
            Some(more) => {
                self.has_more_complete = more;
                if drained {
                    return (self.read_more(), Vec::new());
                }
                self.go_on(room)
            },
            None => {
                self.phase = ReadPhase::Idle;
                (ReadAction::Fail, Vec::new())
            },
        }
    }

    /// The decoder has said whether the stream ended inside a frame.
    pub fn validated(&mut self, whole: bool) -> (r: ReadAction)
        requires
            old(self).wf(),
            old(self)@.phase == ReadPhase::Ending,
        ensures
            final(self).wf(),
            final(self)@ == (Reader { phase: ReadPhase::Idle, ..old(self)@ }),
            r == (if whole {
                ReadAction::Finish
            } else {
                ReadAction::Fail
            }),
    {
        self.phase = ReadPhase::Idle;
        if whole {
            ReadAction::Finish
        } else {
            ReadAction::Fail
        }
    }
}

/// What happens to the decoded bytes of a reader.
pub enum ReadStep {
    /// The decoder gives out a batch.
    Batch(Seq<u8>),
    /// A read has room for so many bytes.
    Read(nat),
}

/// What the callers have had, and what is ready, after some steps. A batch
/// comes only where nothing is ready.
pub open spec fn delivery(steps: Seq<ReadStep>) -> (Seq<u8>, Seq<u8>)
    decreases steps.len(),
{
    if steps.len() == 0 {
        (Seq::empty(), Seq::empty())
    } else {
        let (had, ready) = delivery(steps.drop_last());
        match steps.last() {
            ReadStep::Batch(b) => (had, if ready.len() == 0 {
                b
            } else {
                ready
            }),
            ReadStep::Read(room) => {
                let n = served_now(ready, room as int);
                (had + ready.take(n), ready.skip(n))
            },
        }
    }
}

/// All batches that came where nothing was ready, one after the other.
pub open spec fn batches(steps: Seq<ReadStep>) -> Seq<u8>
    decreases steps.len(),
{
    if steps.len() == 0 {
        Seq::empty()
    } else {
        match steps.last() {
            ReadStep::Batch(b) => if delivery(steps.drop_last()).1.len() == 0 {
                batches(steps.drop_last()) + b
            } else {
                batches(steps.drop_last())
            },
            ReadStep::Read(_) => batches(steps.drop_last()),
        }
    }
}

/// Callers get the decoded bytes in order, each once, however their reads are
/// sized: what they have had and what is ready make up all batches.
pub proof fn law_reads_give_the_decoded_bytes(steps: Seq<ReadStep>)
    ensures
        delivery(steps).0 + delivery(steps).1 == batches(steps),
    decreases steps.len(),
{
    if steps.len() == 0 {
        assert(delivery(steps).0 + delivery(steps).1 =~= batches(steps));
    } else {
        law_reads_give_the_decoded_bytes(steps.drop_last());
        let (had, ready) = delivery(steps.drop_last());
        match steps.last() {
            ReadStep::Batch(b) => {
                if ready.len() == 0 {
                    assert(had + ready =~= had);
                }
            },
            ReadStep::Read(room) => {
                let n = served_now(ready, room as int);
                assert((had + ready.take(n)) + ready.skip(n) =~= had + ready);
            },
        }
    }
}

/// What a reader serves is what is ready, from its front; what is left stays
/// ready.
pub proof fn law_served_bytes_leave_the_front(r: Reader, room: int)
    requires
        room > 0,
        r.ready.len() > 0,
        r.ready.len() <= usize::MAX,
    ensures
        ({
            let (after, action) = resume(r, room);
            &&& action matches ReadAction::Serve { n } && n > 0
            &&& after.ready == r.ready.skip(served_now(r.ready, room))
            &&& r.ready.take(served_now(r.ready, room)) + after.ready == r.ready
        }),
{
    assert(r.ready.take(served_now(r.ready, room)) + r.ready.skip(served_now(r.ready, room)) =~= r.ready);
}

// ── writer ──────────────────────────────────────────────────────────────

/// What the inner stream did with the bytes that it was offered.
#[derive(Debug, Clone, Copy, PartialEq, Eq, Structural)]
pub enum Wrote {
    Bytes(usize),
    Pending,
    Failed,
}

/// What a write, flush or shutdown does next.
#[derive(Debug, Clone, Copy, PartialEq, Eq, Structural)]
pub enum WriteAction {
    /// Offer the inner stream the compressed bytes that wait.
    Retry,
    /// Compress the caller's bytes and offer them.
    Compress,
    /// Go on to the inner stream's own flush or shutdown.
    Forward,
    /// Return that so many of the caller's bytes are written.
    Done { n: usize },
    /// Return that it is not done; try again at once.
    PendAwake,
    /// Return that it is not done; the inner stream wakes the task.
    Pend,
    /// Return the inner stream's error.
    Fail,
    /// Return that the inner stream takes nothing.
    FailZero,
}

/// The state of a writer: compressed bytes that wait, and how many of the
/// caller's bytes they stand for.
#[verifier::ext_equal]
pub struct Writer {
    pub waiting: Option<Seq<u8>>,
    pub orig_len: int,
}

/// A writer for `SnappyStreamWriter`: the part that decides.
pub struct SnappyWriter {
    pending: Option<Vec<u8>>,
    pending_pos: usize,
    pending_orig_len: usize,
}

impl View for SnappyWriter {
    type V = Writer;

    closed spec fn view(&self) -> Writer {
        Writer {
            waiting: (match self.pending {
                Some(p) => Some(p@.skip(self.pending_pos as int)),
                None => None,
            }),
            orig_len: self.pending_orig_len as int,
        }
    }
}

/// A writer for which nothing waits.
pub open spec fn nothing_waits() -> Writer {
    Writer { waiting: None, orig_len: 0 }
}

/// A writer after the inner stream was offered what waits. Returns what a write
/// says: how many of the caller's bytes are done, where all is out.
pub open spec fn drained(w: Writer, wrote: Wrote) -> (Writer, WriteAction) {
    match wrote {
        Wrote::Bytes(n) => if n == 0 {
            (w, WriteAction::FailZero)
        } else if n >= w.waiting->0.len() {
            (nothing_waits(), WriteAction::Done { n: w.orig_len as usize })
        } else {
            (
                Writer { waiting: Some(w.waiting->0.skip(n as int)), ..w },
                WriteAction::PendAwake,
            )
        },
        Wrote::Pending => (w, WriteAction::Pend),
        Wrote::Failed => (w, WriteAction::Fail),
    }
}

/// A writer after freshly compressed bytes were offered.
pub open spec fn offered(comp: Seq<u8>, orig_len: int, wrote: Wrote) -> (Writer, WriteAction) {
    match wrote {
        Wrote::Bytes(n) => if n >= comp.len() {
            (nothing_waits(), WriteAction::Done { n: orig_len as usize })
        } else {
            (Writer { waiting: Some(comp.skip(n as int)), orig_len }, WriteAction::PendAwake)
        },
        Wrote::Pending => (Writer { waiting: Some(comp), orig_len }, WriteAction::Pend),
        Wrote::Failed => (nothing_waits(), WriteAction::Fail),
    }
}

impl SnappyWriter {
    pub closed spec fn wf(&self) -> bool {
        match self.pending {
            Some(p) => self.pending_pos <= p@.len(),
            None => self.pending_pos == 0 && self.pending_orig_len == 0,
        }
    }

    /// A writer that has written nothing.
    pub fn new() -> (r: SnappyWriter)
        ensures
            r.wf(),
            r@ == nothing_waits(),
    {
        SnappyWriter { pending: None, pending_pos: 0, pending_orig_len: 0 }
    }

    /// What a write does first: compressed bytes that wait go before any new
    /// ones.
    pub fn begin_write(&self) -> (r: WriteAction)
        ensures
            r == (if self@.waiting is Some {
                WriteAction::Retry
            } else {
                WriteAction::Compress
            }),
    {
        if self.pending.is_some() {
            WriteAction::Retry
        } else {
            WriteAction::Compress
        }
    }

    /// What a flush or a shutdown does first.
    pub fn begin_flush(&self) -> (r: WriteAction)
        ensures
            r == (if self@.waiting is Some {
                WriteAction::Retry
            } else {
                WriteAction::Forward
            }),
    {
        if self.pending.is_some() {
            WriteAction::Retry
        } else {
            WriteAction::Forward
        }
    }

    /// The compressed bytes that wait.
    pub fn waiting(&self) -> (r: Vec<u8>)
        requires
            self.wf(),
        ensures
            r@ == (match self@.waiting {
                Some(w) => w,
                None => Seq::empty(),
            }),
    {
        match &self.pending {
            Some(p) => {
                assert(p@.len() == p.len());
                let r = vstd::slice::slice_to_vec(&p.as_slice()[self.pending_pos..p.len()]);
                assert(r@ =~= p@.skip(self.pending_pos as int));
                r
            },
            None => Vec::new(),
        }
    }

    /// The inner stream was offered what waits. Returns what a write says.
    pub fn retried(&mut self, wrote: Wrote) -> (r: WriteAction)
        requires
            old(self).wf(),
            old(self)@.waiting is Some,
            wrote matches Wrote::Bytes(n) ==> n <= old(self)@.waiting->0.len(),
        ensures
            final(self).wf(),
            (final(self)@, r) == drained(old(self)@, wrote),
    {
        match wrote {
            Wrote::Bytes(n) => {
                if n == 0 {
                    return WriteAction::FailZero;
                }
                let total = match &self.pending {
                    Some(p) => p.len(),
                    None => 0,
                };
                let pos = self.pending_pos + n;
                if pos >= total {
                    let orig_len = self.pending_orig_len;
                    self.pending = None;
                    self.pending_pos = 0;
                    self.pending_orig_len = 0;
                    WriteAction::Done { n: orig_len }
                } else {
                    self.pending_pos = pos;
                    assert(self@.waiting->0 =~= old(self)@.waiting->0.skip(n as int));
                    WriteAction::PendAwake
                }
            },
            Wrote::Pending => WriteAction::Pend,
            Wrote::Failed => WriteAction::Fail,
        }
    }

    /// The inner stream was offered what waits, by a flush or a shutdown: it
    /// comes again for its own part.
    pub fn retried_flush(&mut self, wrote: Wrote) -> (r: WriteAction)
        requires
            old(self).wf(),
            old(self)@.waiting is Some,
            wrote matches Wrote::Bytes(n) ==> n <= old(self)@.waiting->0.len(),
        ensures
            final(self).wf(),
            final(self)@ == drained(old(self)@, wrote).0,
            r == (match drained(old(self)@, wrote).1 {
                WriteAction::Done { .. } => WriteAction::PendAwake,
                other => other,
            }),
    {
        match self.retried(wrote) {
            WriteAction::Done { .. } => WriteAction::PendAwake,
            other => other,
        }
    }

    /// The inner stream was offered freshly compressed bytes, which stand for
    /// `orig_len` of the caller's.
    pub fn first_offer(&mut self, comp: Vec<u8>, orig_len: usize, wrote: Wrote) -> (r: WriteAction)
        requires
            old(self).wf(),
            old(self)@.waiting is None,
        ensures
            final(self).wf(),
            (final(self)@, r) == offered(comp@, orig_len as int, wrote),
    {
        match wrote {
            Wrote::Bytes(n) => {
                if n >= comp.len() {
                    WriteAction::Done { n: orig_len }
                } else {
                    self.pending = Some(comp);
                    self.pending_pos = n;
                    self.pending_orig_len = orig_len;
                    WriteAction::PendAwake
                }
            },
            Wrote::Pending => {
                self.pending = Some(comp);
                self.pending_pos = 0;
                self.pending_orig_len = orig_len;
                assert(self@.waiting->0 =~= comp@);
                WriteAction::Pend
            },
            Wrote::Failed => WriteAction::Fail,
        }
    }
}

/// The bytes that the inner stream took of those that it was offered.
pub open spec fn taken(bytes: Seq<u8>, wrote: Wrote) -> Seq<u8> {
    match wrote {
        Wrote::Bytes(n) => bytes.take(n as int),
        _ => Seq::empty(),
    }
}

/// What waits, as bytes.
pub open spec fn owed(w: Writer) -> Seq<u8> {
    match w.waiting {
        Some(b) => b,
        None => Seq::empty(),
    }
}

/// Compressed bytes go out in order, each once: what the inner stream took and
/// what then waits make up what was offered. Only a failure of the first offer
/// gives bytes up.
pub proof fn law_compressed_bytes_go_out_once(w: Writer, comp: Seq<u8>, orig_len: int, wrote: Wrote)
    requires
        w.waiting is Some,
        wrote matches Wrote::Bytes(n) ==> n <= w.waiting->0.len() && n <= comp.len(),
    ensures
        taken(owed(w), wrote) + owed(drained(w, wrote).0) == owed(w),
        wrote !is Failed ==> taken(comp, wrote) + owed(offered(comp, orig_len, wrote).0) == comp,
{
    assert(taken(owed(w), wrote) + owed(drained(w, wrote).0) =~= owed(w));
    if wrote !is Failed {
        assert(taken(comp, wrote) + owed(offered(comp, orig_len, wrote).0) =~= comp);
    }
}

/// A caller hears that its bytes are written only when all of their compressed
/// form is out, and hears of as many as it gave.
pub proof fn law_done_means_all_out(w: Writer, comp: Seq<u8>, orig_len: usize, wrote: Wrote)
    requires
        w.waiting is Some,
        0 <= w.orig_len <= usize::MAX,
    ensures
        drained(w, wrote).1 matches WriteAction::Done { n } ==> drained(w, wrote).0
            == nothing_waits() && n == w.orig_len,
        offered(comp, orig_len as int, wrote).1 matches WriteAction::Done { n } ==> offered(
            comp,
            orig_len as int,
            wrote,
        ).0 == nothing_waits() && n == orig_len,
{
}

/// A read serves what is ready before anything else, then what the decoder still
/// holds, and asks for more only where there is neither; it ends only where the
/// inner stream has ended and nothing is left.
pub proof fn law_reads_come_in_turn(r: Reader, room: usize)
    ensures
        ({
            let (t, a) = resume(r, room as int);
            &&& a is Serve <==> r.ready.len() > 0
            &&& a == ReadAction::Drain <==> r.ready.len() == 0 && r.has_more
            &&& a == ReadAction::ReadInner <==> r.ready.len() == 0 && !r.has_more && !r.eof
            &&& a == ReadAction::Finish <==> r.ready.len() == 0 && !r.has_more && r.eof
            &&& a matches ReadAction::Serve { n } ==> n <= room && n <= r.ready.len() && (n == room
                || n == r.ready.len()) && t.ready == r.ready.skip(n as int)
        }),
{
    if r.ready.len() > 0 {
        assert(0 <= served_now(r.ready, room as int) <= room);
    }
}

} // verus!
