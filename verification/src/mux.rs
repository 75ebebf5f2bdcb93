//! Stream multiplexing over one connection: settings of the yamux session, the
//! watch over a silent peer, and the decisions of the tasks that drive a
//! session. The connection itself stays outside.
use vstd::prelude::*;

use crate::clock;
use crate::clock::Span;
use crate::errors::{Error, ProtocolError};
use std::collections::VecDeque;

verus! {

/// Keepalive interval in force where none is configured, in seconds.
pub const DEFAULT_KEEPALIVE_SECS: u64 = 30;

/// Maximum consecutive keepalive intervals with zero inbound transport I/O
/// before the session is considered dead.
pub const MAX_IDLE_KEEPALIVE_TICKS: u32 = 3;

/// Floor for the silence after which a session is dead, in seconds. A healthy
/// peer is heard every ten seconds, whatever the interval.
pub const MIN_IDLE_DEAD_SECS: u64 = 30;

/// Cap on the open requests that wait: in the channel to the driver, and in the
/// driver's own queue.
pub const MAX_PENDING_OPEN_REQUESTS: usize = 64;

/// How long an open request waits for its answer, in seconds.
pub const MUX_OPEN_TIMEOUT_SECS: u64 = 30;

/// How many accepted streams may wait for the server.
pub const INCOMING_CAPACITY: usize = 256;

/// How long the server's driver waits for room for an accepted stream, in
/// milliseconds.
pub const INCOMING_WAIT_MS: u64 = 500;

/// How many streams a session has at most.
pub const MAX_STREAMS: usize = 1024;

/// The least receive window of a connection: 384 MiB.
pub const MIN_CONNECTION_WINDOW: usize = 402_653_184;

/// The receive window that each stream is owed: 256 KiB.
pub const STREAM_CREDIT: usize = 262_144;

/// The largest data frame: 32 KiB.
pub const SPLIT_SEND_SIZE: usize = 32_768;

// ── settings ────────────────────────────────────────────────────────────

/// Configuration for the yamux session.
#[derive(Debug, Clone, Copy, PartialEq, Eq, Structural)]
pub struct TcpMuxConfig {
    /// Interval for periodically driving the session's keepalive.
    pub keepalive_interval: Span,
    /// Max stream receive window size in bytes.
    pub max_stream_window_size: u32,
}

impl Default for TcpMuxConfig {
    fn default() -> (r: TcpMuxConfig)
        ensures
            r == (TcpMuxConfig {
                keepalive_interval: Span { secs: 30, nanos: 0 },
                max_stream_window_size: 6_291_456,
            }),
    {
        TcpMuxConfig {
            keepalive_interval: Span { secs: DEFAULT_KEEPALIVE_SECS, nanos: 0 },
            max_stream_window_size: 6 * 1024 * 1024,
        }
    }
}

/// The interval in force: the configured one, or the default where that is
/// zero.
pub open spec fn interval_of(configured: Span) -> Span {
    if configured.total() == 0 {
        Span { secs: DEFAULT_KEEPALIVE_SECS, nanos: 0 }
    } else {
        configured
    }
}

/// The interval in force.
pub fn normalized_keepalive_interval(configured: Span) -> (r: Span)
    ensures
        r == interval_of(configured),
{
    if configured.is_zero() {
        Span::from_secs(DEFAULT_KEEPALIVE_SECS)
    } else {
        configured
    }
}

/// The receive window of a connection: room for 32 streams, and no less than
/// the floor.
pub open spec fn window_of(stream_window: int) -> int {
    if stream_window * 32 > MIN_CONNECTION_WINDOW {
        stream_window * 32
    } else {
        MIN_CONNECTION_WINDOW as int
    }
}

/// The receive window of a connection.
pub fn connection_window(stream_window: u32) -> (r: usize)
    requires
        stream_window * 32 <= usize::MAX,
    ensures
        r == window_of(stream_window as int),
{
    let wide: usize = stream_window as usize * 32;
    if wide > MIN_CONNECTION_WINDOW {
        wide
    } else {
        MIN_CONNECTION_WINDOW
    }
}

/// A configuration of `yamux`.
#[verifier::external_type_specification]
#[verifier::external_body]
pub struct ExConfig(yamux::Config);

/// The stream limit that a configuration holds.
pub uninterp spec fn config_streams(c: yamux::Config) -> usize;

/// The receive window over all streams that a configuration holds.
pub uninterp spec fn config_window(c: yamux::Config) -> usize;

/// The frame size that a configuration holds.
pub uninterp spec fn config_split(c: yamux::Config) -> usize;

/// `yamux::Config::default`: 512 streams, a receive window of 1 GiB, and frames
/// of 16 KiB.
#[verifier::external_body]
fn default_config() -> (r: yamux::Config)
    ensures
        config_streams(r) == 512,
        config_window(r) == 0x4000_0000,
        config_split(r) == 16_384,
{
    yamux::Config::default()
}

/// `yamux::Config::set_max_num_streams` sets the stream limit alone. It panics
/// unless the window holds the credit of that many streams.
#[verifier::external_body]
fn set_streams(c: &mut yamux::Config, n: usize)
    requires
        n * STREAM_CREDIT <= config_window(*old(c)),
    ensures
        config_streams(*final(c)) == n,
        config_window(*final(c)) == config_window(*old(c)),
        config_split(*final(c)) == config_split(*old(c)),
{
    c.set_max_num_streams(n);
}

/// `yamux::Config::set_max_connection_receive_window` with a limit sets the
/// window alone. It panics unless the window holds the credit of all streams.
#[verifier::external_body]
fn set_window(c: &mut yamux::Config, n: usize)
    requires
        config_streams(*old(c)) * STREAM_CREDIT <= n,
    ensures
        config_streams(*final(c)) == config_streams(*old(c)),
        config_window(*final(c)) == n,
        config_split(*final(c)) == config_split(*old(c)),
{
    c.set_max_connection_receive_window(Some(n));
}

/// `yamux::Config::set_split_send_size` sets the frame size alone.
#[verifier::external_body]
fn set_split(c: &mut yamux::Config, n: usize)
    ensures
        config_streams(*final(c)) == config_streams(*old(c)),
        config_window(*final(c)) == config_window(*old(c)),
        config_split(*final(c)) == n,
{
    c.set_split_send_size(n);
}

/// The configuration of a session: its stream limit, its receive window over all
/// streams, and its frame size. No cap is set on the receive window of a single
/// stream, since `yamux` has no setting for it: a stream's window grows within
/// the window of the connection.
pub fn yamux_config(cfg: &TcpMuxConfig) -> (r: yamux::Config)
    requires
        cfg.max_stream_window_size * 32 <= usize::MAX,
    ensures
        config_streams(r) == MAX_STREAMS,
        config_window(r) == window_of(cfg.max_stream_window_size as int),
        config_split(r) == SPLIT_SEND_SIZE,
{
    let window = connection_window(cfg.max_stream_window_size);
    let mut c = default_config();
    set_streams(&mut c, MAX_STREAMS);
    set_window(&mut c, window);
    set_split(&mut c, SPLIT_SEND_SIZE);
    c
}

/// Every stream can be given its credit.
pub proof fn law_window_holds_every_stream(stream_window: int)
    ensures
        window_of(stream_window) >= MAX_STREAMS * STREAM_CREDIT,
        stream_window <= window_of(stream_window) || stream_window < 0,
{
}

// ── silence ─────────────────────────────────────────────────────────────

/// Whether the peer was heard since the last look.
pub struct ActivityState {
    pub saw_read: bool,
}

impl ActivityState {
    pub fn new() -> (r: ActivityState)
        ensures
            !r.saw_read,
    {
        ActivityState { saw_read: false }
    }

    /// The peer was heard.
    pub fn mark(&mut self)
        ensures
            final(self).saw_read,
    {
        self.saw_read = true;
    }

    /// Whether the peer was heard; the next look starts anew.
    pub fn take(&mut self) -> (r: bool)
        ensures
            r == old(self).saw_read,
            !final(self).saw_read,
    {
        let r = self.saw_read;
        self.saw_read = false;
        r
    }
}

/// The silence in nanoseconds after which a session is dead: three intervals,
/// and no less than the floor.
pub open spec fn dead_bound(keepalive: int) -> int {
    let three = clock::at_most_longest(keepalive * MAX_IDLE_KEEPALIVE_TICKS);
    let floor = MIN_IDLE_DEAD_SECS * 1_000_000_000;
    if three > floor {
        three
    } else {
        floor
    }
}

/// The idle ticks after one more tick.
pub open spec fn idle_after(idle: int, saw_read: bool) -> int {
    if saw_read {
        0
    } else {
        idle + 1
    }
}

/// Whether so many silent intervals mean a dead session.
pub open spec fn is_dead(keepalive: int, idle: int) -> bool {
    clock::at_most_longest(keepalive * idle) >= dead_bound(keepalive)
}

/// Counts the intervals in which the peer was not heard.
pub struct IdleWatch {
    keepalive: Span,
    dead_after: Span,
    idle: u32,
}

impl IdleWatch {
    /// The interval in nanoseconds.
    pub closed spec fn keepalive(&self) -> int {
        self.keepalive.total()
    }

    /// The intervals in a row in which the peer was not heard.
    pub closed spec fn idle(&self) -> int {
        self.idle as int
    }

    pub closed spec fn wf(&self) -> bool {
        &&& self.keepalive.wf()
        &&& self.dead_after.wf()
        &&& self.dead_after.total() == dead_bound(self.keepalive.total())
    }

    /// A watch over a session that has just begun.
    pub fn new(cfg: &TcpMuxConfig) -> (r: IdleWatch)
        requires
            cfg.keepalive_interval.wf(),
        ensures
            r.wf(),
            r.keepalive() == interval_of(cfg.keepalive_interval).total(),
            r.idle() == 0,
    {
        let keepalive = normalized_keepalive_interval(cfg.keepalive_interval);
        let floor = Span::from_secs(MIN_IDLE_DEAD_SECS);
        let three = keepalive.times(MAX_IDLE_KEEPALIVE_TICKS);
        let dead_after = if floor.at_least(&three) {
            floor
        } else {
            three
        };
        IdleWatch { keepalive, dead_after, idle: 0 }
    }

    /// The interval between two looks.
    pub fn interval(&self) -> (r: Span)
        ensures
            r.total() == self.keepalive(),
    {
        self.keepalive
    }

    /// The silent intervals in a row.
    pub fn ticks(&self) -> (r: u32)
        ensures
            r == self.idle(),
    {
        self.idle
    }

    /// An interval has passed. Returns whether the session is dead.
    pub fn tick(&mut self, saw_read: bool) -> (r: bool)
        requires
            old(self).wf(),
            old(self).idle() < u32::MAX,
        ensures
            final(self).wf(),
            final(self).keepalive() == old(self).keepalive(),
            final(self).idle() == idle_after(old(self).idle(), saw_read),
            r == is_dead(final(self).keepalive(), final(self).idle()),
    {
        if saw_read {
            self.idle = 0;
        } else {
            self.idle = self.idle + 1;
        }
        self.keepalive.times(self.idle).at_least(&self.dead_after)
    }
}

/// A session is given up only after a silence of thirty seconds and of three
/// intervals; one whose peer was just heard never is.
pub proof fn law_healthy_sessions_live(keepalive: int, idle: int)
    requires
        0 < keepalive <= clock::longest(),
        idle >= 0,
    ensures
        !is_dead(keepalive, 0),
        is_dead(keepalive, idle) ==> keepalive * idle >= 30 * 1_000_000_000,
        is_dead(keepalive, idle) && keepalive * 3 <= clock::longest() ==> idle >= 3,
{
    assert(keepalive * idle >= 0) by (nonlinear_arith)
        requires
            keepalive > 0,
            idle >= 0,
    ;
    if idle < 3 {
        assert(keepalive * idle < keepalive * 3) by (nonlinear_arith)
            requires
                keepalive > 0,
                idle < 3,
        ;
    }
    assert(keepalive * 0 == 0);
}

/// A silent session is given up: at the latest when the silence spans both
/// three intervals and thirty seconds.
pub proof fn law_silent_sessions_die(keepalive: int, idle: int)
    requires
        0 < keepalive <= clock::longest(),
        idle >= 3,
        keepalive * idle >= 30 * 1_000_000_000,
    ensures
        is_dead(keepalive, idle),
{
    assert(keepalive * idle >= keepalive * 3) by (nonlinear_arith)
        requires
            keepalive > 0,
            idle >= 3,
    ;
}

// ── the server's driver ─────────────────────────────────────────────────

/// What came of offering a value to a bounded channel.
#[derive(Debug, Clone, Copy, PartialEq, Eq, Structural)]
pub enum Offer {
    Taken,
    Full,
    Gone,
}

/// Why a driver stops.
#[derive(Debug, Clone, Copy, PartialEq, Eq, Structural)]
pub enum StopReason {
    /// The peer was silent for too long.
    Dead,
    /// Whoever holds the session has let go of it.
    Released,
    /// Nobody takes accepted streams any more.
    ChannelGone,
    /// The connection failed.
    ConnectionError,
    /// The peer closed the connection.
    ConnectionClosed,
}

/// What the server's driver sees.
#[derive(Debug, Clone, Copy, PartialEq, Eq, Structural)]
pub enum ServerEvent {
    /// An interval passed without a stream.
    Elapsed { saw_read: bool, released: bool },
    Accepted,
    AcceptFailed,
    Closed,
    /// The accepted stream was offered.
    Offered(Offer),
    /// The accepted stream was offered, with patience; `Full` where that ended.
    Waited(Offer),
}

/// What the server's driver does next.
#[derive(Debug, Clone, Copy, PartialEq, Eq, Structural)]
pub enum ServerAction {
    /// Wait for the next stream, for an interval.
    Accept,
    /// Offer the accepted stream.
    Offer,
    /// Offer the accepted stream with patience.
    OfferPatiently,
    /// Drop the accepted stream, then wait for the next.
    DropStream,
    Stop(StopReason),
}

/// What the server's driver does on an event; `dead` says what its watch does.
pub open spec fn server_action(e: ServerEvent, dead: bool) -> ServerAction {
    match e {
        ServerEvent::Elapsed { saw_read, released } => {
            if dead {
                ServerAction::Stop(StopReason::Dead)
            } else if released {
                ServerAction::Stop(StopReason::Released)
            } else {
                ServerAction::Accept
            }
        },
        ServerEvent::Accepted => ServerAction::Offer,
        ServerEvent::AcceptFailed => ServerAction::Stop(StopReason::ConnectionError),
        ServerEvent::Closed => ServerAction::Stop(StopReason::ConnectionClosed),
        ServerEvent::Offered(Offer::Taken) => ServerAction::Accept,
        ServerEvent::Offered(Offer::Full) => ServerAction::OfferPatiently,
        ServerEvent::Offered(Offer::Gone) => ServerAction::Stop(StopReason::ChannelGone),
        ServerEvent::Waited(Offer::Taken) => ServerAction::Accept,
        ServerEvent::Waited(Offer::Full) => ServerAction::DropStream,
        ServerEvent::Waited(Offer::Gone) => ServerAction::Stop(StopReason::ChannelGone),
    }
}

/// One step of the server's driver.
pub fn server_step(watch: &mut IdleWatch, e: ServerEvent) -> (r: ServerAction)
    requires
        old(watch).wf(),
        old(watch).idle() < u32::MAX,
    ensures
        final(watch).wf(),
        final(watch).keepalive() == old(watch).keepalive(),
        final(watch).idle() == (match e {
            ServerEvent::Elapsed { saw_read, .. } => idle_after(old(watch).idle(), saw_read),
            _ => old(watch).idle(),
        }),
        r == server_action(e, is_dead(final(watch).keepalive(), final(watch).idle())),
{
    match e {
        ServerEvent::Elapsed { saw_read, released } => {
            if watch.tick(saw_read) {
                ServerAction::Stop(StopReason::Dead)
            } else if released {
                ServerAction::Stop(StopReason::Released)
            } else {
                ServerAction::Accept
            }
        },
        ServerEvent::Accepted => ServerAction::Offer,
        ServerEvent::AcceptFailed => ServerAction::Stop(StopReason::ConnectionError),
        ServerEvent::Closed => ServerAction::Stop(StopReason::ConnectionClosed),
        ServerEvent::Offered(o) => match o {
            Offer::Taken => ServerAction::Accept,
            Offer::Full => ServerAction::OfferPatiently,
            Offer::Gone => ServerAction::Stop(StopReason::ChannelGone),
        },
        ServerEvent::Waited(o) => match o {
            Offer::Taken => ServerAction::Accept,
            Offer::Full => ServerAction::DropStream,
            Offer::Gone => ServerAction::Stop(StopReason::ChannelGone),
        },
    }
}

/// An accepted stream is dropped only where there was no room for it, twice;
/// that ends no session, and neither does a full channel.
pub proof fn law_full_channel_ends_no_session(e: ServerEvent, dead: bool)
    ensures
        server_action(e, dead) == ServerAction::DropStream <==> e == ServerEvent::Waited(
            Offer::Full,
        ),
        server_action(e, dead) == ServerAction::OfferPatiently <==> e == ServerEvent::Offered(
            Offer::Full,
        ),
        e == ServerEvent::Offered(Offer::Full) || e == ServerEvent::Waited(Offer::Full) ==> !(
        server_action(e, dead) is Stop),
{
}

/// What came of waiting for the first stream.
pub enum FirstStream {
    Accepted,
    Failed(String),
    Closed,
    TimedOut,
}

/// What a failed session says.
fn yamux_failure(source: &str) -> (r: Error)
    ensures
        r matches Error::Protocol(ProtocolError::Other(s)) && s@ == "yamux: "@ + source@,
{
    let mut out = "yamux: ".to_owned();
    crate::text::push_str(&mut out, source);
    Error::Protocol(ProtocolError::Other(out))
}

/// Whether a session begins with what came of waiting for its first stream.
pub fn first_stream(outcome: FirstStream) -> (r: Result<(), Error>)
    ensures
        (match outcome {
            FirstStream::Accepted => r is Ok,
            FirstStream::Failed(e) => r matches Err(Error::Protocol(ProtocolError::Other(s)))
                && s@ == "yamux: "@ + e@,
            FirstStream::Closed => r matches Err(Error::Protocol(ProtocolError::Other(s))) && s@
                == "yamux: connection closed before control stream"@,
            FirstStream::TimedOut => r matches Err(Error::Protocol(ProtocolError::Other(s))) && s@
                == "yamux: timed out waiting for the first stream"@,
        }),
{
    match outcome {
        FirstStream::Accepted => Ok(()),
        FirstStream::Failed(e) => Err(yamux_failure(e.as_str())),
        FirstStream::Closed => Err(
            Error::Protocol(
                ProtocolError::Other("yamux: connection closed before control stream".to_owned()),
            ),
        ),
        FirstStream::TimedOut => Err(
            Error::Protocol(
                ProtocolError::Other("yamux: timed out waiting for the first stream".to_owned()),
            ),
        ),
    }
}

// ── the client's driver ─────────────────────────────────────────────────

/// What came of polling the connection for a stream.
#[derive(Debug, Clone, Copy, PartialEq, Eq, Structural)]
pub enum Inbound {
    /// The peer opened a stream, which a client ignores.
    Stream,
    Failed,
    Closed,
    /// Nothing yet.
    Waiting,
}

/// What the client's driver sees.
#[derive(Debug, Clone, Copy, PartialEq, Eq, Structural)]
pub enum ClientEvent {
    Polled(Inbound),
    /// An interval passed; the connection was polled once.
    Elapsed { polled: Inbound, saw_read: bool },
    /// Nobody holds the session any more.
    Released,
    /// A request to open a stream waits.
    Asked,
}

/// Why the client's driver stops on an event, if it does.
pub open spec fn client_stop(e: ClientEvent, dead: bool) -> Option<StopReason> {
    match e {
        ClientEvent::Polled(Inbound::Failed) => Some(StopReason::ConnectionError),
        ClientEvent::Polled(Inbound::Closed) => Some(StopReason::ConnectionClosed),
        ClientEvent::Elapsed { polled: Inbound::Failed, .. } => Some(StopReason::ConnectionError),
        ClientEvent::Elapsed { polled: Inbound::Closed, .. } => Some(StopReason::ConnectionClosed),
        ClientEvent::Elapsed { .. } => if dead {
            Some(StopReason::Dead)
        } else {
            None
        },
        ClientEvent::Released => Some(StopReason::Released),
        _ => None,
    }
}

/// The client's driver: its watch, and whether it still runs.
pub struct ClientDriver {
    pub watch: IdleWatch,
    pub alive: bool,
}

/// The idle ticks of the client's driver after an event. A failed poll at the
/// end of an interval is not counted.
pub open spec fn client_idle(e: ClientEvent, idle: int) -> int {
    match e {
        ClientEvent::Elapsed { polled: Inbound::Failed, .. } => idle,
        ClientEvent::Elapsed { polled: Inbound::Closed, .. } => idle,
        ClientEvent::Elapsed { saw_read, .. } => idle_after(idle, saw_read),
        _ => idle,
    }
}

impl ClientDriver {
    /// A driver that has just begun.
    pub fn new(cfg: &TcpMuxConfig) -> (r: ClientDriver)
        requires
            cfg.keepalive_interval.wf(),
        ensures
            r.alive,
            r.watch.wf(),
            r.watch.keepalive() == interval_of(cfg.keepalive_interval).total(),
            r.watch.idle() == 0,
    {
        ClientDriver { watch: IdleWatch::new(cfg), alive: true }
    }

    /// One step. Returns why the driver stops, if it does; it is then no longer
    /// alive.
    pub fn step(&mut self, e: ClientEvent) -> (r: Option<StopReason>)
        requires
            old(self).watch.wf(),
            old(self).watch.idle() < u32::MAX,
        ensures
            final(self).watch.wf(),
            final(self).watch.keepalive() == old(self).watch.keepalive(),
            final(self).watch.idle() == client_idle(e, old(self).watch.idle()),
            r == client_stop(
                e,
                is_dead(final(self).watch.keepalive(), final(self).watch.idle()),
            ),
            final(self).alive == (old(self).alive && r is None),
    {
        let r = match e {
            ClientEvent::Polled(p) => match p {
                Inbound::Failed => Some(StopReason::ConnectionError),
                Inbound::Closed => Some(StopReason::ConnectionClosed),
                _ => None,
            },
            ClientEvent::Elapsed { polled, saw_read } => match polled {
                Inbound::Failed => Some(StopReason::ConnectionError),
                Inbound::Closed => Some(StopReason::ConnectionClosed),
                _ => {
                    if self.watch.tick(saw_read) {
                        Some(StopReason::Dead)
                    } else {
                        None
                    }
                },
            },
            ClientEvent::Released => Some(StopReason::Released),
            ClientEvent::Asked => None,
        };
        if r.is_some() {
            self.alive = false;
        }
        r
    }
}

/// The first stream of a client could not be opened.
pub fn open_failure(source: &str) -> (r: Error)
    ensures
        r matches Error::Protocol(ProtocolError::Other(s)) && s@ == "yamux: "@ + source@,
{
    yamux_failure(source)
}

// ── open requests ───────────────────────────────────────────────────────

/// What came of a request that the driver took up.
#[derive(Debug, Clone, Copy, PartialEq, Eq, Structural)]
pub enum Reply {
    /// Nobody waits for the answer any more; nothing was opened.
    Cancelled,
    /// The stream was opened, or could not be.
    Answered,
    /// Too many streams wait to be acknowledged.
    BacklogFull,
}

/// What the driver does with a request that it took up.
pub enum Settled<T> {
    /// It is answered.
    Answer(T),
    /// It is forgotten.
    Forget(T),
    /// It goes back to the front, and this pass ends.
    EndPass,
}

/// What waits after the oldest request was taken up and settled: all of it
/// where the backlog is full, else all but that request.
pub open spec fn after_reply<T>(queue: Seq<T>, reply: Reply) -> Seq<T> {
    if reply == Reply::BacklogFull {
        queue
    } else {
        queue.skip(1)
    }
}

/// The requests that the driver has taken from the channel, oldest first.
pub struct OpenQueue<T> {
    waiting: VecDeque<T>,
}

impl<T> View for OpenQueue<T> {
    type V = Seq<T>;

    closed spec fn view(&self) -> Seq<T> {
        self.waiting@
    }
}

impl<T> OpenQueue<T> {
    /// No requests.
    pub fn new() -> (r: OpenQueue<T>)
        ensures
            r@ == Seq::<T>::empty(),
    {
        OpenQueue { waiting: VecDeque::new() }
    }

    /// Whether another request may be taken from the channel.
    pub fn has_room(&self) -> (r: bool)
        ensures
            r == (self@.len() < MAX_PENDING_OPEN_REQUESTS),
    {
        self.waiting.len() < MAX_PENDING_OPEN_REQUESTS
    }

    /// Takes a request from the channel.
    pub fn enqueue(&mut self, req: T)
        requires
            old(self)@.len() < MAX_PENDING_OPEN_REQUESTS,
        ensures
            final(self)@ == old(self)@.push(req),
    {
        self.waiting.push_back(req);
    }

    /// Takes up the oldest request.
    pub fn take_up(&mut self) -> (r: Option<T>)
        ensures
            (match r {
                Some(t) => old(self)@.len() > 0 && t == old(self)@[0] && final(self)@
                    == old(self)@.skip(1),
                None => old(self)@.len() == 0 && final(self)@ == old(self)@,
            }),
    {
        let r = self.waiting.pop_front();
        assert(old(self)@.len() > 0 ==> self@ =~= old(self)@.skip(1));
        r
    }

    /// Settles a request that was taken up.
    pub fn settle(&mut self, req: T, reply: Reply) -> (r: Settled<T>)
        requires
            old(self)@.len() < MAX_PENDING_OPEN_REQUESTS,
        ensures
            final(self)@ == after_reply(seq![req] + old(self)@, reply),
            (match reply {
                Reply::Cancelled => r == Settled::Forget(req),
                Reply::Answered => r == Settled::Answer(req),
                Reply::BacklogFull => r is EndPass,
            }),
    {
        assert((seq![req] + old(self)@).skip(1) =~= old(self)@);
        match reply {
            Reply::Cancelled => Settled::Forget(req),
            Reply::Answered => Settled::Answer(req),
            Reply::BacklogFull => {
                self.waiting.push_front(req);
                assert(self@ =~= seq![req] + old(self)@);
                Settled::EndPass
            },
        }
    }
}

/// What a pass over the queue does, given what comes of each request.
#[verifier::ext_equal]
pub struct Pass<T> {
    pub answered: Seq<T>,
    pub forgotten: Seq<T>,
    pub waiting: Seq<T>,
}

/// A pass over the queue: requests are taken up from the front, until one finds
/// the backlog full or none is left. `replies` says what comes of each.
pub open spec fn pass<T>(queue: Seq<T>, replies: Seq<Reply>) -> Pass<T>
    decreases queue.len(),
{
    if queue.len() == 0 || replies.len() == 0 || replies[0] == Reply::BacklogFull {
        Pass { answered: Seq::empty(), forgotten: Seq::empty(), waiting: queue }
    } else {
        let rest = pass(after_reply(queue, replies[0]), replies.skip(1));
        if replies[0] == Reply::Answered {
            Pass { answered: seq![queue[0]] + rest.answered, ..rest }
        } else {
            Pass { forgotten: seq![queue[0]] + rest.forgotten, ..rest }
        }
    }
}

/// A pass loses no request and makes up none, answers them in the order in
/// which they came, and leaves the later ones waiting in theirs.
pub proof fn law_pass_keeps_requests<T>(queue: Seq<T>, replies: Seq<Reply>)
    ensures
        ({
            let p = pass(queue, replies);
            let n = p.answered.len() + p.forgotten.len();
            &&& n + p.waiting.len() == queue.len()
            &&& p.waiting == queue.skip(n as int)
            &&& (p.answered + p.forgotten).to_multiset() == queue.take(n as int).to_multiset()
            &&& (forall|i: int| 0 <= i < n && i < replies.len() ==> replies[i]
                != Reply::BacklogFull)
            &&& (forall|i: int| 0 <= i < replies.len() ==> replies[i] == Reply::Answered)
                ==> p.answered == queue.take(n as int)
        }),
    decreases queue.len(),
{
    let p = pass(queue, replies);
    let n = (p.answered.len() + p.forgotten.len()) as int;
    if queue.len() == 0 || replies.len() == 0 || replies[0] == Reply::BacklogFull {
        assert(p.waiting =~= queue.skip(0));
        assert(p.answered + p.forgotten =~= queue.take(0));
        assert(p.answered =~= queue.take(0));
    } else {
        let tail = queue.skip(1);
        let later = replies.skip(1);
        law_pass_keeps_requests(tail, later);
        let rest = pass(tail, later);
        let m = (rest.answered.len() + rest.forgotten.len()) as int;
        assert(n == m + 1);
        assert(tail.skip(m) =~= queue.skip(n));
        assert(queue.take(n) =~= seq![queue[0]] + tail.take(m));
        vstd::seq_lib::lemma_multiset_commutative(rest.answered, rest.forgotten);
        vstd::seq_lib::lemma_multiset_commutative(p.answered, p.forgotten);
        vstd::seq_lib::lemma_multiset_commutative(seq![queue[0]], tail.take(m));
        if replies[0] == Reply::Answered {
            vstd::seq_lib::lemma_multiset_commutative(seq![queue[0]], rest.answered);
            if forall|i: int| 0 <= i < replies.len() ==> replies[i] == Reply::Answered {
                assert forall|i: int| 0 <= i < later.len() implies later[i] == Reply::Answered by {
                    assert(later[i] == replies[i + 1]);
                }
                assert(p.answered =~= queue.take(n));
            }
        } else {
            vstd::seq_lib::lemma_multiset_commutative(seq![queue[0]], rest.forgotten);
        }
        assert((p.answered + p.forgotten).to_multiset() =~= queue.take(n).to_multiset());
        assert forall|i: int| 0 <= i < n && i < replies.len() implies replies[i]
            != Reply::BacklogFull by {
            if i > 0 {
                assert(replies[i] == later[i - 1]);
            }
        }
    }
}

/// What a caller that asks for a stream sees.
#[derive(Debug, Clone, Copy, PartialEq, Eq, Structural)]
pub enum OpenEvent {
    /// It calls; the driver is alive or not.
    Called { alive: bool },
    /// The request was offered to the driver.
    Offered(Offer),
    /// The driver opened the stream.
    Opened,
    /// The driver could not open it.
    Failed,
    /// The driver went away without an answer.
    Unanswered,
    /// The driver took too long.
    TimedOut,
}

/// What a caller that asks for a stream does next.
#[derive(Debug, Clone, Copy, PartialEq, Eq, Structural)]
pub enum OpenAction {
    /// Offer the request; never wait for room.
    Offer,
    /// Wake the driver, and wait for the answer.
    Wait,
    /// Return the stream.
    Return,
    /// Return without one.
    Refuse,
}

/// One step of a caller that asks for a stream.
pub fn open_step(e: OpenEvent) -> (r: OpenAction)
    ensures
        r == OpenAction::Offer <==> e == (OpenEvent::Called { alive: true }),
        r == OpenAction::Wait <==> e == OpenEvent::Offered(Offer::Taken),
        r == OpenAction::Return <==> e == OpenEvent::Opened,
{
    match e {
        OpenEvent::Called { alive } => if alive {
            OpenAction::Offer
        } else {
            OpenAction::Refuse
        },
        OpenEvent::Offered(o) => match o {
            Offer::Taken => OpenAction::Wait,
            _ => OpenAction::Refuse,
        },
        OpenEvent::Opened => OpenAction::Return,
        _ => OpenAction::Refuse,
    }
}

// ── what both ends rely on ──────────────────────────────────────────────

/// The window of a connection is 384 MiB, or room for 32 streams where that is
/// more.
pub proof fn law_connection_window(stream_window: int)
    ensures
        window_of(stream_window) >= 402_653_184,
        window_of(stream_window) >= 32 * stream_window,
        window_of(stream_window) == 402_653_184 || window_of(stream_window) == 32 * stream_window,
{
}

/// An interval that is not configured is thirty seconds; any other stays.
pub proof fn law_intervals_are_kept(configured: Span)
    requires
        configured.wf(),
    ensures
        configured.total() == 0 ==> interval_of(configured).total() == 30_000_000_000,
        configured.total() > 0 ==> interval_of(configured) == configured,
{
}

/// A session is given up after three silent intervals that last thirty seconds
/// or more in all, and not before; whatever is heard starts the count anew.
pub proof fn law_silence_is_measured(keepalive: int, idle: int, heard: bool)
    requires
        0 < keepalive <= 1_000_000_000_000_000_000,
        0 <= idle < u32::MAX,
    ensures
        idle_after(idle, heard) == (if heard {
            0
        } else {
            idle + 1
        }),
        is_dead(keepalive, idle) <==> idle >= 3 && keepalive * idle >= 30_000_000_000,
{
    let all = keepalive * idle;
    assert(0 <= all < 1_000_000_000_000_000_000 * 0x1_0000_0000) by (nonlinear_arith)
        requires
            all == keepalive * idle,
            0 < keepalive <= 1_000_000_000_000_000_000,
            0 <= idle < u32::MAX,
    ;
    if idle >= 3 {
        assert(all >= 3 * keepalive) by (nonlinear_arith)
            requires
                all == keepalive * idle,
                keepalive > 0,
                idle >= 3,
        ;
    } else {
        assert(all < 3 * keepalive) by (nonlinear_arith)
            requires
                all == keepalive * idle,
                keepalive > 0,
                idle < 3,
        ;
    }
    lemma_longest_span(all);
    lemma_longest_span(3 * keepalive);
}

proof fn lemma_longest_span(nanos: int)
    requires
        nanos < 1_000_000_000_000_000_000 * 0x1_0000_0000,
    ensures
        nanos <= clock::longest() ==> clock::at_most_longest(nanos) == nanos,
        nanos > clock::longest() ==> clock::at_most_longest(nanos) == clock::longest(),
        clock::longest() > 3_000_000_000_000_000_000,
{
}

/// The server's driver serves until it has a cause to stop: the peer is silent,
/// nobody holds the session, the connection ended, or nobody takes streams. An
/// accepted stream is offered, and the next one awaited once it is taken.
pub proof fn law_server_stops_for_cause(e: ServerEvent, dead: bool)
    ensures
        server_action(e, dead) is Stop <==> (e is Elapsed && (dead || e->released)) || e
            == ServerEvent::AcceptFailed || e == ServerEvent::Closed || e == ServerEvent::Offered(
            Offer::Gone,
        ) || e == ServerEvent::Waited(Offer::Gone),
        e == ServerEvent::Accepted ==> server_action(e, dead) == ServerAction::Offer,
        e == ServerEvent::Offered(Offer::Taken) || e == ServerEvent::Waited(Offer::Taken)
            ==> server_action(e, dead) == ServerAction::Accept,
        e is Elapsed && !dead && !e->released ==> server_action(e, dead) == ServerAction::Accept,
        e is Elapsed && dead ==> server_action(e, dead) == ServerAction::Stop(StopReason::Dead),
{
}

/// The client's driver runs until it has a cause to stop: the connection ended,
/// the peer is silent, or nobody holds the session. A stream that the peer opens
/// and a request to open one are no cause.
pub proof fn law_client_stops_for_cause(e: ClientEvent, dead: bool)
    ensures
        ({
            let polled = match e {
                ClientEvent::Polled(p) => p,
                ClientEvent::Elapsed { polled, .. } => polled,
                _ => Inbound::Waiting,
            };
            &&& client_stop(e, dead) is Some <==> polled == Inbound::Failed || polled
                == Inbound::Closed || e == ClientEvent::Released || (e is Elapsed && dead)
            &&& polled == Inbound::Failed ==> client_stop(e, dead) == Some(
                StopReason::ConnectionError,
            )
            &&& polled == Inbound::Closed ==> client_stop(e, dead) == Some(
                StopReason::ConnectionClosed,
            )
        }),
{
}

} // verus!
