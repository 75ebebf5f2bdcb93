//! KCP stream: what is decided when a stream over a KCP session is read,
//! written, flushed or shut down. Channels, wakers and notifications stay
//! outside; what was seen of them comes in, what is to be asked next goes out.
use vstd::prelude::*;

use super::session::KCP_SND_BACKLOG_THRESHOLD;
use super::socket::KCP_WRITE_BACKLOG_THRESHOLD;
use crate::addr::SocketAddr;
use crate::bytes;

verus! {

/// Why a stream can no longer be used.
#[derive(Debug, Clone, Copy, PartialEq, Eq, Structural)]
pub enum StreamError {
    /// KCP session removed
    SessionRemoved,
    /// KCP stream shut down
    ShutDown,
    /// KCP driver closed
    DriverClosed,
}

/// What a reader without data is told.
#[derive(Debug, Clone, Copy, PartialEq, Eq, Structural)]
enum NoData {
    /// The session is gone: an error instead of the end, so that the reader
    /// fails fast.
    Failed,
    /// The end of the stream.
    Eof,
    /// Nothing yet.
    Pending,
}

/// What a reader finds in the channel.
pub enum Arrived {
    Frame(Vec<u8>),
    /// Nothing can come any more.
    Closed,
    /// Nothing yet.
    Nothing,
}

/// A step of a read.
pub enum ReadStep {
    /// Hand these bytes to the reader.
    Give(Vec<u8>),
    /// Look into the channel, and come back with what is there.
    Ask,
    /// The end of the stream.
    Eof,
    /// The session is gone.
    Failed,
    /// Nothing yet.
    Pending,
}

/// How far a write has come.
#[derive(Debug, Clone, Copy, PartialEq, Eq, Structural)]
pub enum WritePoint {
    /// Nothing was looked at.
    Begin,
    /// The notification that an earlier call waits for was polled.
    Resumed,
    /// The length of the write queue was read.
    QueueGate,
    /// A notification of the write queue was waited for.
    QueueParked,
    /// The length of the send backlog was read.
    BacklogGate,
    /// A notification of the send backlog was waited for.
    BacklogParked,
    /// The request was handed to the driver.
    Sending,
    /// The driver's answer to a flush was polled.
    Confirming,
}

/// What became of a request to the driver.
#[derive(Debug, Clone, Copy, PartialEq, Eq, Structural)]
pub enum Handed {
    Taken,
    Full,
    Closed,
}

/// What was seen.
#[derive(Debug, Clone, Copy, PartialEq, Eq, Structural)]
pub enum Seen {
    /// Whether the driver still has the session.
    Alive(bool),
    /// Whether what was polled is there.
    Ready(bool),
    /// A length.
    Length(usize),
    /// What became of the request.
    Handed(Handed),
}

/// What is to be done next.
#[derive(Debug, Clone, Copy, PartialEq, Eq, Structural)]
pub enum Ask {
    /// Poll the notification that an earlier call waits for.
    PollParked,
    /// Read the length of the write queue.
    ReadQueue,
    /// Wait for the write queue: poll a new notification of it.
    ParkOnQueue,
    /// Read the length of the send backlog.
    ReadBacklog,
    /// Wait for the send backlog: poll a new notification of it.
    ParkOnBacklog,
    /// Hand the request to the driver.
    Hand,
    /// Poll the driver's answer.
    PollConfirm,
}

/// A step of a write or of a flush.
#[derive(Debug, Clone, Copy, PartialEq, Eq, Structural)]
pub enum Step {
    /// Do this, and come back with what was seen.
    Next(WritePoint, Ask),
    /// Nothing more can be done now.
    Wait,
    /// Wait for the write queue, and do nothing more now.
    WaitOnQueue,
    /// All bytes of the request are on their way (none for a flush).
    Done(usize),
    Failed(StreamError),
}

// ── the stream as mathematics ───────────────────────────────────────────

/// The state of a stream.
#[verifier::ext_equal]
pub struct Stream {
    /// Bytes received and not yet read.
    pub unread: Seq<u8>,
    pub read_count: u64,
    pub write_count: u64,
    pub shutdown: bool,
    /// Whether a notification is waited for.
    pub parked: bool,
    /// Whether a flush was asked for and not yet confirmed.
    pub flushing: bool,
}

/// `a + n` modulo 2^64.
pub open spec fn counted(a: u64, n: nat) -> u64 {
    ((a + n) % 0x1_0000_0000_0000_0000) as u64
}

/// The first bytes, as many as there is room for.
pub open spec fn first_of(b: Seq<u8>, room: nat) -> Seq<u8> {
    if b.len() <= room {
        b
    } else {
        b.take(room as int)
    }
}

/// A stream after a reader with so much room was given the first of `b`; the
/// rest of `b` waits.
pub open spec fn read_from(s: Stream, b: Seq<u8>, room: nat) -> Stream {
    let n = first_of(b, room).len();
    Stream { unread: b.skip(n as int), read_count: counted(s.read_count, n), ..s }
}

/// A call that gives a reader bytes: of what waits, or of a frame where nothing
/// waits.
pub enum Reading {
    Waiting(nat),
    Frame(Seq<u8>, nat),
}

/// Whether frames are looked for only where nothing waits.
pub open spec fn in_turn(s: Stream, calls: Seq<Reading>) -> bool
    decreases calls.len(),
{
    calls.len() > 0 ==> in_turn(s, calls.drop_last()) && (calls.last() is Frame ==> readings(
        s,
        calls.drop_last(),
    ).0.unread.len() == 0)
}

/// A stream after some reads, what they gave, and the frames that came.
pub open spec fn readings(s: Stream, calls: Seq<Reading>) -> (Stream, Seq<u8>, Seq<u8>)
    decreases calls.len(),
{
    if calls.len() == 0 {
        (s, Seq::empty(), Seq::empty())
    } else {
        let (t, given, came) = readings(s, calls.drop_last());
        match calls.last() {
            Reading::Waiting(room) => (
                read_from(t, t.unread, room),
                given + first_of(t.unread, room),
                came,
            ),
            Reading::Frame(f, room) => (
                read_from(t, f, room),
                given + first_of(f, room),
                came + f,
            ),
        }
    }
}

/// Readers are given what waited and then the frames, byte for byte and in
/// order: what was given and what still waits is what waited and what came.
pub proof fn law_reads_give_what_came(s: Stream, calls: Seq<Reading>)
    requires
        in_turn(s, calls),
    ensures
        ({
            let (t, given, came) = readings(s, calls);
            &&& given + t.unread == s.unread + came
            &&& t.read_count == counted(s.read_count, given.len())
            &&& t.write_count == s.write_count && t.shutdown == s.shutdown && t.parked == s.parked
                && t.flushing == s.flushing
        }),
    decreases calls.len(),
{
    if calls.len() > 0 {
        law_reads_give_what_came(s, calls.drop_last());
        let (t, given, came) = readings(s, calls.drop_last());
        let (after, given2, came2) = readings(s, calls);
        let (b, room) = match calls.last() {
            Reading::Waiting(room) => (t.unread, room),
            Reading::Frame(f, room) => (f, room),
        };
        assert(first_of(b, room) + b.skip(first_of(b, room).len() as int) =~= b);
        assert(given2 + after.unread =~= given + b);
        if calls.last() is Frame {
            assert(given =~= given + t.unread);
            assert(s.unread + came2 =~= (s.unread + came) + b);
        }
        lemma_counted(s.read_count, given.len(), first_of(b, room).len());
    } else {
        assert(s.unread + Seq::<u8>::empty() =~= s.unread);
        assert(Seq::<u8>::empty() + s.unread =~= s.unread);
    }
}

proof fn lemma_counted(a: u64, n: nat, m: nat)
    ensures
        counted(counted(a, n), m) == counted(a, n + m),
{
    vstd::arithmetic::div_mod::lemma_add_mod_noop((a + n) as int, m as int, 0x1_0000_0000_0000_0000);
    vstd::arithmetic::div_mod::lemma_add_mod_noop(
        (a + n) as int % 0x1_0000_0000_0000_0000,
        m as int,
        0x1_0000_0000_0000_0000,
    );
}

/// What is seen at each point.
pub open spec fn fits(point: WritePoint, seen: Seen) -> bool {
    match point {
        WritePoint::Begin => seen is Alive,
        WritePoint::QueueGate => seen is Length,
        WritePoint::BacklogGate => seen is Length,
        WritePoint::Sending => seen is Handed,
        _ => seen is Ready,
    }
}

/// A step of a write of `n` bytes. The gates come in order: first the write
/// queue, then the send backlog; only then the request goes out.
pub open spec fn write_step(s: Stream, n: nat, point: WritePoint, seen: Seen) -> (Stream, Step) {
    let queue = Step::Next(WritePoint::QueueGate, Ask::ReadQueue);
    let backlog = Step::Next(WritePoint::BacklogGate, Ask::ReadBacklog);
    let hand = Step::Next(WritePoint::Sending, Ask::Hand);
    let free = Stream { parked: false, ..s };
    let waiting = Stream { parked: true, ..s };
    match (point, seen) {
        (WritePoint::Begin, Seen::Alive(alive)) => if !alive {
            (s, Step::Failed(StreamError::SessionRemoved))
        } else if s.shutdown {
            (s, Step::Failed(StreamError::ShutDown))
        } else if s.parked {
            (s, Step::Next(WritePoint::Resumed, Ask::PollParked))
        } else {
            (s, queue)
        },
        (WritePoint::Resumed, Seen::Ready(ready)) => if ready {
            (free, queue)
        } else {
            (s, Step::Wait)
        },
        (WritePoint::QueueGate, Seen::Length(len)) => if len >= KCP_WRITE_BACKLOG_THRESHOLD {
            (waiting, Step::Next(WritePoint::QueueParked, Ask::ParkOnQueue))
        } else {
            (s, backlog)
        },
        (WritePoint::QueueParked, Seen::Ready(ready)) => if ready {
            (free, backlog)
        } else {
            (s, Step::Wait)
        },
        (WritePoint::BacklogGate, Seen::Length(len)) => if len >= KCP_SND_BACKLOG_THRESHOLD {
            (waiting, Step::Next(WritePoint::BacklogParked, Ask::ParkOnBacklog))
        } else {
            (s, hand)
        },
        (WritePoint::BacklogParked, Seen::Ready(ready)) => if ready {
            (free, hand)
        } else {
            (s, Step::Wait)
        },
        (WritePoint::Sending, Seen::Handed(h)) => match h {
            Handed::Taken => (
                Stream { write_count: counted(s.write_count, n), ..s },
                Step::Done(n as usize),
            ),
            Handed::Full => (waiting, Step::WaitOnQueue),
            Handed::Closed => (s, Step::Failed(StreamError::DriverClosed)),
        },
        _ => (s, Step::Wait),
    }
}

/// A step of a flush: what an earlier call waits for first; a request goes out
/// unless one is on its way, once the write queue has room; then the
/// driver's answer is waited for.
pub open spec fn flush_step(s: Stream, point: WritePoint, seen: Seen) -> (Stream, Step) {
    let queue = Step::Next(WritePoint::QueueGate, Ask::ReadQueue);
    let hand = Step::Next(WritePoint::Sending, Ask::Hand);
    let confirm = Step::Next(WritePoint::Confirming, Ask::PollConfirm);
    let free = Stream { parked: false, ..s };
    let waiting = Stream { parked: true, ..s };
    let begun = if s.flushing {
        confirm
    } else {
        queue
    };
    match (point, seen) {
        (WritePoint::Begin, Seen::Alive(alive)) => if s.parked {
            (s, Step::Next(WritePoint::Resumed, Ask::PollParked))
        } else {
            (s, begun)
        },
        (WritePoint::Resumed, Seen::Ready(ready)) => if ready {
            (free, begun)
        } else {
            (s, Step::Wait)
        },
        (WritePoint::QueueGate, Seen::Length(len)) => if len >= KCP_WRITE_BACKLOG_THRESHOLD {
            (waiting, Step::Next(WritePoint::QueueParked, Ask::ParkOnQueue))
        } else {
            (s, hand)
        },
        (WritePoint::QueueParked, Seen::Ready(ready)) => if ready {
            (free, hand)
        } else {
            (s, Step::Wait)
        },
        (WritePoint::Sending, Seen::Handed(h)) => match h {
            Handed::Taken => (Stream { flushing: true, ..s }, confirm),
            Handed::Full => (waiting, Step::WaitOnQueue),
            Handed::Closed => (s, Step::Failed(StreamError::DriverClosed)),
        },
        (WritePoint::Confirming, Seen::Ready(ready)) => if ready {
            (Stream { flushing: false, ..s }, Step::Done(0))
        } else {
            (s, Step::Wait)
        },
        _ => (s, Step::Wait),
    }
}

/// The steps of a write of `n` bytes from `point` on, as far as what was seen
/// goes.
pub open spec fn write_run(s: Stream, n: nat, point: WritePoint, seen: Seq<Seen>) -> (Stream, Step)
    decreases seen.len(),
{
    let (t, step) = write_step(s, n, point, seen[0]);
    match step {
        Step::Next(next, ask) => if seen.len() > 1 {
            write_run(t, n, next, seen.drop_first())
        } else {
            (t, step)
        },
        _ => (t, step),
    }
}

/// At `q` a gate was found open: the length there was below the limit, or the
/// notification that was waited for had come.
pub open spec fn gate_open(seen: Seq<Seen>, q: int, limit: usize) -> bool {
    seen[q] == Seen::Ready(true) || (seen[q] matches Seen::Length(len) && len < limit)
}

/// What was seen up to the driver's answer at `e` shows that the session was
/// there, that first the write queue and then the send backlog was found open,
/// and that the driver took the request.
pub open spec fn passed_gates(seen: Seq<Seen>, e: int) -> bool {
    &&& seen[0] == Seen::Alive(true)
    &&& seen[e] == Seen::Handed(Handed::Taken)
    &&& gate_open(seen, e - 1, KCP_SND_BACKLOG_THRESHOLD)
    &&& exists|q: int| 1 <= q < e - 1 && #[trigger] gate_open(seen, q, KCP_WRITE_BACKLOG_THRESHOLD)
}

/// Nothing is sent but through both gates: a write that ends well passed them
/// on a stream that was not shut down, and its bytes are counted; a write that
/// does not end well counts nothing.
pub proof fn law_written_bytes_passed_the_gates(s: Stream, n: nat, seen: Seq<Seen>)
    requires
        n <= usize::MAX,
        seen.len() > 0,
    ensures
        ({
            let (t, step) = write_run(s, n, WritePoint::Begin, seen);
            &&& step matches Step::Done(m) ==> {
                &&& m == n
                &&& !s.shutdown
                &&& t.write_count == counted(s.write_count, n)
                &&& exists|e: int| 3 <= e < seen.len() && #[trigger] passed_gates(seen, e)
            }
            &&& !(step is Done) ==> t.write_count == s.write_count
            &&& t.unread == s.unread && t.read_count == s.read_count && t.flushing == s.flushing
        }),
{
    assert(seen.skip(0) =~= seen);
    lemma_run(s, n, WritePoint::Begin, seen, seen, 0);
}

/// How many steps a write takes at least before it comes to a point.
spec fn least(point: WritePoint) -> int {
    match point {
        WritePoint::Begin => 0,
        WritePoint::Resumed => 1,
        WritePoint::QueueGate => 1,
        WritePoint::QueueParked => 2,
        WritePoint::BacklogGate => 2,
        WritePoint::BacklogParked => 3,
        WritePoint::Sending => 3,
        WritePoint::Confirming => 4,
    }
}

proof fn lemma_run(s: Stream, n: nat, point: WritePoint, seen: Seq<Seen>, all: Seq<Seen>, at: int)
    requires
        n <= usize::MAX,
        seen.len() > 0,
        least(point) <= at,
        point == WritePoint::Begin <==> at == 0,
        0 <= at < all.len(),
        seen == all.skip(at),
        at > 0 ==> all[0] == Seen::Alive(true) && !s.shutdown,
        point == WritePoint::BacklogGate ==> gate_open(all, at - 1, KCP_WRITE_BACKLOG_THRESHOLD),
        point == WritePoint::BacklogParked || point == WritePoint::Sending ==> exists|q: int|
            1 <= q < at - 1 && #[trigger] gate_open(all, q, KCP_WRITE_BACKLOG_THRESHOLD),
        point == WritePoint::Sending ==> gate_open(all, at - 1, KCP_SND_BACKLOG_THRESHOLD),
    ensures
        ({
            let (t, step) = write_run(s, n, point, seen);
            &&& step matches Step::Done(m) ==> {
                &&& m == n
                &&& !s.shutdown
                &&& t.write_count == counted(s.write_count, n)
                &&& exists|e: int| 3 <= e < all.len() && #[trigger] passed_gates(all, e)
            }
            &&& !(step is Done) ==> t.write_count == s.write_count
            &&& t.unread == s.unread && t.read_count == s.read_count && t.flushing == s.flushing
        }),
    decreases seen.len(),
{
    let (t, step) = write_step(s, n, point, seen[0]);
    assert(seen[0] == all[at]);
    match step {
        Step::Next(next, ask) => {
            if seen.len() > 1 {
                assert(seen.drop_first() =~= all.skip(at + 1));
                if point == WritePoint::BacklogGate {
                    assert(gate_open(all, at - 1, KCP_WRITE_BACKLOG_THRESHOLD));
                }
                lemma_run(t, n, next, seen.drop_first(), all, at + 1);
            }
        },
        Step::Done(m) => {
            assert(passed_gates(all, at));
        },
        _ => {},
    }
}

proof fn lemma_first_of(b: Seq<u8>, out: Seq<u8>, rest: Seq<u8>, room: nat)
    requires
        out + rest == b,
        out.len() == (if b.len() <= room {
            b.len()
        } else {
            room
        }),
    ensures
        out == first_of(b, room),
        rest == b.skip(out.len() as int),
{
    assert(b.take(out.len() as int) =~= out);
    assert(b.skip(out.len() as int) =~= rest);
    assert(b.take(b.len() as int) =~= b);
}

// ── the stream ──────────────────────────────────────────────────────────

pub struct KcpStream {
    conv: u32,
    peer_addr: SocketAddr,
    read_buffer: Vec<u8>,
    read_pos: usize,
    read_count: u64,
    write_count: u64,
    shutdown: bool,
    parked: bool,
    flushing: bool,
}

impl View for KcpStream {
    type V = Stream;

    closed spec fn view(&self) -> Stream {
        Stream {
            unread: self.read_buffer@.skip(self.read_pos as int),
            read_count: self.read_count,
            write_count: self.write_count,
            shutdown: self.shutdown,
            parked: self.parked,
            flushing: self.flushing,
        }
    }
}

impl KcpStream {
    pub closed spec fn conversation(&self) -> u32 {
        self.conv
    }

    pub closed spec fn peer(&self) -> SocketAddr {
        self.peer_addr
    }

    pub closed spec fn wf(&self) -> bool {
        self.read_pos <= self.read_buffer@.len()
    }

    pub fn new(conv: u32, peer_addr: SocketAddr) -> (r: KcpStream)
        ensures
            r.wf(),
            r.conversation() == conv,
            r.peer() == peer_addr,
            r@ == (Stream {
                unread: Seq::empty(),
                read_count: 0,
                write_count: 0,
                shutdown: false,
                parked: false,
                flushing: false,
            }),
    {
        let r = KcpStream {
            conv,
            peer_addr,
            read_buffer: Vec::new(),
            read_pos: 0,
            read_count: 0,
            write_count: 0,
            shutdown: false,
            parked: false,
            flushing: false,
        };
        assert(r@.unread =~= Seq::empty());
        r
    }

    pub fn conv(&self) -> (r: u32)
        ensures
            r == self.conversation(),
    {
        self.conv
    }

    pub fn peer_addr(&self) -> (r: SocketAddr)
        ensures
            r == self.peer(),
    {
        self.peer_addr
    }

    /// Whether received bytes wait to be read.
    fn has_unread(&self) -> (r: bool)
        requires
            self.wf(),
        ensures
            r == (self@.unread.len() > 0),
    {
        self.read_pos < self.read_buffer.len()
    }

    /// Takes at most `room` of the bytes that wait.
    fn read_buffered(&mut self, room: usize) -> (r: Vec<u8>)
        requires
            old(self).wf(),
        ensures
            final(self).wf(),
            final(self).conversation() == old(self).conversation(),
            final(self).peer() == old(self).peer(),
            r@.len() == (if old(self)@.unread.len() <= room {
                old(self)@.unread.len()
            } else {
                room as nat
            }),
            r@ + final(self)@.unread == old(self)@.unread,
            final(self)@ == (Stream {
                unread: final(self)@.unread,
                read_count: counted(old(self)@.read_count, r@.len()),
                ..old(self)@
            }),
    {
        let left = self.read_buffer.len() - self.read_pos;
        let n = if left <= room {
            left
        } else {
            room
        };
        let ghost unread = self@.unread;
        let mut out: Vec<u8> = Vec::new();
        let part = &self.read_buffer.as_slice()[self.read_pos..self.read_pos + n];
        assert(part@ =~= unread.take(n as int));
        bytes::extend(&mut out, part);
        assert(out@ =~= unread.take(n as int));
        self.read_pos = self.read_pos + n;
        self.read_count = self.read_count.wrapping_add(n as u64);
        assert(self@.unread =~= unread.skip(n as int));
        assert(out@ + self@.unread =~= unread);
        out
    }

    /// Takes at most `room` bytes of a frame that came in; the rest waits.
    fn read_frame(&mut self, frame: Vec<u8>, room: usize) -> (r: Vec<u8>)
        requires
            old(self).wf(),
            old(self)@.unread.len() == 0,
        ensures
            final(self).wf(),
            final(self).conversation() == old(self).conversation(),
            final(self).peer() == old(self).peer(),
            r@.len() == (if frame@.len() <= room {
                frame@.len()
            } else {
                room as nat
            }),
            r@ + final(self)@.unread == frame@,
            final(self)@ == (Stream {
                unread: final(self)@.unread,
                read_count: counted(old(self)@.read_count, r@.len()),
                ..old(self)@
            }),
    {
        self.read_buffer = frame;
        self.read_pos = 0;
        assert(self@.unread =~= frame@);
        self.read_buffered(room)
    }

    /// What a reader is told when no frame is there: `closed` says whether none
    /// can come any more, `alive` whether the driver still has the session.
    fn read_idle(closed: bool, alive: bool) -> (r: NoData)
        ensures
            r == (if !alive {
                NoData::Failed
            } else if closed {
                NoData::Eof
            } else {
                NoData::Pending
            }),
    {
        if !alive {
            NoData::Failed
        } else if closed {
            NoData::Eof
        } else {
            NoData::Pending
        }
    }

    /// A step of a read with so much room: what waits comes first; only where
    /// nothing waits is the channel looked into, and `arrived` says what is
    /// there.
    pub fn poll_read(&mut self, arrived: Option<Arrived>, alive: bool, room: usize) -> (r: ReadStep)
        requires
            old(self).wf(),
            arrived is Some ==> old(self)@.unread.len() == 0,
        ensures
            final(self).wf(),
            final(self).conversation() == old(self).conversation(),
            final(self).peer() == old(self).peer(),
            (match arrived {
                None => if old(self)@.unread.len() > 0 {
                    &&& r is Give
                    &&& r->Give_0@ == first_of(old(self)@.unread, room as nat)
                    &&& final(self)@ == read_from(old(self)@, old(self)@.unread, room as nat)
                } else {
                    r is Ask && final(self)@ == old(self)@
                },
                Some(Arrived::Frame(f)) => {
                    &&& r is Give
                    &&& r->Give_0@ == first_of(f@, room as nat)
                    &&& final(self)@ == read_from(old(self)@, f@, room as nat)
                },
                Some(Arrived::Closed) => {
                    &&& final(self)@ == old(self)@
                    &&& if alive {
                        r is Eof
                    } else {
                        r is Failed
                    }
                },
                Some(Arrived::Nothing) => {
                    &&& final(self)@ == old(self)@
                    &&& if alive {
                        r is Pending
                    } else {
                        r is Failed
                    }
                },
            }),
    {
        let ghost s0 = self@;
        let closed = match arrived {
            None => {
                if self.has_unread() {
                    let out = self.read_buffered(room);
                    proof {
                        lemma_first_of(s0.unread, out@, self@.unread, room as nat);
                    }
                    return ReadStep::Give(out);
                }
                return ReadStep::Ask;
            },
            Some(Arrived::Frame(f)) => {
                let ghost b = f@;
                let out = self.read_frame(f, room);
                proof {
                    lemma_first_of(b, out@, self@.unread, room as nat);
                }
                return ReadStep::Give(out);
            },
            Some(Arrived::Closed) => true,
            Some(Arrived::Nothing) => false,
        };
        match KcpStream::read_idle(closed, alive) {
            NoData::Failed => ReadStep::Failed,
            NoData::Eof => ReadStep::Eof,
            NoData::Pending => ReadStep::Pending,
        }
    }

    /// A step of a write of `len` bytes.
    pub fn poll_write(&mut self, len: usize, point: WritePoint, seen: Seen) -> (r: Step)
        requires
            old(self).wf(),
            fits(point, seen),
        ensures
            final(self).wf(),
            final(self).conversation() == old(self).conversation(),
            final(self).peer() == old(self).peer(),
            (final(self)@, r) == write_step(old(self)@, len as nat, point, seen),
    {
        let ghost s0 = self@;
        let r = match (point, seen) {
            (WritePoint::Begin, Seen::Alive(alive)) => if !alive {
                Step::Failed(StreamError::SessionRemoved)
            } else if self.shutdown {
                Step::Failed(StreamError::ShutDown)
            } else if self.parked {
                Step::Next(WritePoint::Resumed, Ask::PollParked)
            } else {
                Step::Next(WritePoint::QueueGate, Ask::ReadQueue)
            },
            (WritePoint::Resumed, Seen::Ready(ready)) => if ready {
                self.parked = false;
                Step::Next(WritePoint::QueueGate, Ask::ReadQueue)
            } else {
                Step::Wait
            },
            (WritePoint::QueueGate, Seen::Length(n)) => if n >= KCP_WRITE_BACKLOG_THRESHOLD {
                self.parked = true;
                Step::Next(WritePoint::QueueParked, Ask::ParkOnQueue)
            } else {
                Step::Next(WritePoint::BacklogGate, Ask::ReadBacklog)
            },
            (WritePoint::QueueParked, Seen::Ready(ready)) => if ready {
                self.parked = false;
                Step::Next(WritePoint::BacklogGate, Ask::ReadBacklog)
            } else {
                Step::Wait
            },
            (WritePoint::BacklogGate, Seen::Length(n)) => if n >= KCP_SND_BACKLOG_THRESHOLD {
                self.parked = true;
                Step::Next(WritePoint::BacklogParked, Ask::ParkOnBacklog)
            } else {
                Step::Next(WritePoint::Sending, Ask::Hand)
            },
            (WritePoint::BacklogParked, Seen::Ready(ready)) => if ready {
                self.parked = false;
                Step::Next(WritePoint::Sending, Ask::Hand)
            } else {
                Step::Wait
            },
            (WritePoint::Sending, Seen::Handed(h)) => match h {
                Handed::Taken => {
                    self.write_count = self.write_count.wrapping_add(len as u64);
                    Step::Done(len)
                },
                Handed::Full => {
                    self.parked = true;
                    Step::WaitOnQueue
                },
                Handed::Closed => Step::Failed(StreamError::DriverClosed),
            },
            _ => Step::Wait,
        };
        assert(self@ =~= write_step(s0, len as nat, point, seen).0);
        r
    }

    /// A step of a flush.
    pub fn poll_flush(&mut self, point: WritePoint, seen: Seen) -> (r: Step)
        requires
            old(self).wf(),
            fits(point, seen),
        ensures
            final(self).wf(),
            final(self).conversation() == old(self).conversation(),
            final(self).peer() == old(self).peer(),
            (final(self)@, r) == flush_step(old(self)@, point, seen),
    {
        let ghost s0 = self@;
        let begun = if self.flushing {
            Step::Next(WritePoint::Confirming, Ask::PollConfirm)
        } else {
            Step::Next(WritePoint::QueueGate, Ask::ReadQueue)
        };
        let r = match (point, seen) {
            (WritePoint::Begin, Seen::Alive(_)) => if self.parked {
                Step::Next(WritePoint::Resumed, Ask::PollParked)
            } else {
                begun
            },
            (WritePoint::Resumed, Seen::Ready(ready)) => if ready {
                self.parked = false;
                begun
            } else {
                Step::Wait
            },
            (WritePoint::QueueGate, Seen::Length(n)) => if n >= KCP_WRITE_BACKLOG_THRESHOLD {
                self.parked = true;
                Step::Next(WritePoint::QueueParked, Ask::ParkOnQueue)
            } else {
                Step::Next(WritePoint::Sending, Ask::Hand)
            },
            (WritePoint::QueueParked, Seen::Ready(ready)) => if ready {
                self.parked = false;
                Step::Next(WritePoint::Sending, Ask::Hand)
            } else {
                Step::Wait
            },
            (WritePoint::Sending, Seen::Handed(h)) => match h {
                Handed::Taken => {
                    self.flushing = true;
                    Step::Next(WritePoint::Confirming, Ask::PollConfirm)
                },
                Handed::Full => {
                    self.parked = true;
                    Step::WaitOnQueue
                },
                Handed::Closed => Step::Failed(StreamError::DriverClosed),
            },
            (WritePoint::Confirming, Seen::Ready(ready)) => if ready {
                self.flushing = false;
                Step::Done(0)
            } else {
                Step::Wait
            },
            _ => Step::Wait,
        };
        assert(self@ =~= flush_step(s0, point, seen).0);
        r
    }

    /// Writes fail from now on.
    pub fn poll_shutdown(&mut self)
        requires
            old(self).wf(),
        ensures
            final(self).wf(),
            final(self).conversation() == old(self).conversation(),
            final(self).peer() == old(self).peer(),
            final(self)@ == (Stream { shutdown: true, ..old(self)@ }),
    {
        self.shutdown = true;
        assert(self@ =~= (Stream { shutdown: true, ..old(self)@ }));
    }

    /// Bytes read so far.
    pub fn read_count(&self) -> (r: u64)
        ensures
            r == self@.read_count,
    {
        self.read_count
    }

    /// Bytes written so far.
    pub fn write_count(&self) -> (r: u64)
        ensures
            r == self@.write_count,
    {
        self.write_count
    }
}

// ── progress ────────────────────────────────────────────────────────────

/// A write goes through where nothing stands in its way: the session is there,
/// fewer than 200 requests and fewer than 2048 segments wait, and the driver
/// takes the request. All bytes are then counted as written.
pub proof fn law_open_gates_let_writes_through(s: Stream, n: nat, queue: usize, backlog: usize)
    requires
        !s.shutdown,
        !s.parked,
        queue < 200,
        backlog < 2048,
        n <= usize::MAX,
        s.write_count + n <= u64::MAX,
    ensures
        write_run(
            s,
            n,
            WritePoint::Begin,
            seq![
                Seen::Alive(true),
                Seen::Length(queue),
                Seen::Length(backlog),
                Seen::Handed(Handed::Taken),
            ],
        ) == (
            Stream { write_count: (s.write_count + n) as u64, ..s },
            Step::Done(n as usize),
        ),
{
    let seen = seq![
        Seen::Alive(true),
        Seen::Length(queue),
        Seen::Length(backlog),
        Seen::Handed(Handed::Taken),
    ];
    let two = seen.drop_first();
    let three = two.drop_first();
    let four = three.drop_first();
    assert(two[0] == Seen::Length(queue) && three[0] == Seen::Length(backlog) && four[0]
        == Seen::Handed(Handed::Taken));
    assert(write_run(s, n, WritePoint::Sending, four).1 == Step::Done(n as usize));
    assert(write_run(s, n, WritePoint::BacklogGate, three) == write_run(
        s,
        n,
        WritePoint::Sending,
        four,
    ));
    assert(write_run(s, n, WritePoint::QueueGate, two) == write_run(
        s,
        n,
        WritePoint::BacklogGate,
        three,
    ));
}

/// A write waits where it should: on the write queue with 200 requests in it, on
/// the send backlog with 2048 segments in it, and on the queue again where the
/// driver's channel is full. Nothing is counted as written then.
pub proof fn law_full_gates_hold_writes_back(s: Stream, n: nat, len: usize)
    ensures
        len >= 200 ==> write_step(s, n, WritePoint::QueueGate, Seen::Length(len)) == (
            Stream { parked: true, ..s },
            Step::Next(WritePoint::QueueParked, Ask::ParkOnQueue),
        ),
        len >= 2048 ==> write_step(s, n, WritePoint::BacklogGate, Seen::Length(len)) == (
            Stream { parked: true, ..s },
            Step::Next(WritePoint::BacklogParked, Ask::ParkOnBacklog),
        ),
        write_step(s, n, WritePoint::Sending, Seen::Handed(Handed::Full)) == (
            Stream { parked: true, ..s },
            Step::WaitOnQueue,
        ),
        write_step(s, n, WritePoint::QueueParked, Seen::Ready(false)) == (s, Step::Wait),
        write_step(s, n, WritePoint::BacklogParked, Seen::Ready(false)) == (s, Step::Wait),
{
}

/// A write to a session that is gone, to a stream that was shut down, or to a
/// driver that is gone fails, by the name of what is missing.
pub proof fn law_lost_ways_fail_writes(s: Stream, n: nat)
    ensures
        write_step(s, n, WritePoint::Begin, Seen::Alive(false)).1 == Step::Failed(
            StreamError::SessionRemoved,
        ),
        s.shutdown ==> write_step(s, n, WritePoint::Begin, Seen::Alive(true)).1 == Step::Failed(
            StreamError::ShutDown,
        ),
        write_step(s, n, WritePoint::Sending, Seen::Handed(Handed::Closed)).1 == Step::Failed(
            StreamError::DriverClosed,
        ),
        flush_step(s, WritePoint::Sending, Seen::Handed(Handed::Closed)).1 == Step::Failed(
            StreamError::DriverClosed,
        ),
{
}

/// A flush is done if and only if the driver confirmed it: a request goes out
/// first, one at a time, and its confirmation is waited for.
pub proof fn law_flushes_are_confirmed(s: Stream, point: WritePoint, seen: Seen)
    requires
        fits(point, seen),
    ensures
        flush_step(s, point, seen).1 is Done <==> point is Confirming && seen == Seen::Ready(true),
        flush_step(s, point, seen).1 is Done ==> !flush_step(s, point, seen).0.flushing,
        point is Sending && seen == Seen::Handed(Handed::Taken) ==> flush_step(s, point, seen)
            == (
            Stream { flushing: true, ..s },
            Step::Next(WritePoint::Confirming, Ask::PollConfirm),
        ),
        point is Begin && !s.parked ==> flush_step(s, point, seen).1 == (if s.flushing {
            Step::Next(WritePoint::Confirming, Ask::PollConfirm)
        } else {
            Step::Next(WritePoint::QueueGate, Ask::ReadQueue)
        }),
        flush_step(s, point, seen).0.write_count == s.write_count,
{
}

} // verus!
