//! Zero-copy relay of raw connections through a kernel pipe: what each
//! direction does next, and which bytes it owes. The system calls stay outside.
use vstd::prelude::*;

verus! {

/// Pipe capacity: 1 MiB.
pub const PIPE_CAPACITY: usize = 1_048_576;

/// What came of moving bytes into the pipe or out of it.
#[derive(Debug, Clone, Copy, PartialEq, Eq, Structural)]
pub enum Moved {
    /// So many bytes moved. None means that there are none to move.
    Bytes(usize),
    /// Nothing can be moved yet.
    Again,
    /// The call was interrupted.
    Interrupted,
    Failed,
}

/// What came of closing the write half of the destination.
#[derive(Debug, Clone, Copy, PartialEq, Eq, Structural)]
pub enum Closed {
    Done,
    Interrupted,
    /// There is no write half left to close.
    NotConnected,
    Failed,
}

/// Where a direction stands.
#[derive(Debug, Clone, Copy, PartialEq, Eq, Structural)]
pub enum Phase {
    /// It takes bytes from the source into the pipe.
    Take,
    /// It asks how many bytes the pipe holds.
    Count,
    /// It empties the pipe.
    Drain,
    /// It waits for room in the pipe or bytes from the source.
    Park,
    /// It passes on bytes that it has just taken.
    Forward { remaining: usize },
    /// It closes the write half of the destination.
    Close,
    /// It is complete.
    Complete,
    /// It has failed.
    Broken,
}

/// What a direction sees.
#[derive(Debug, Clone, Copy, PartialEq, Eq, Structural)]
pub enum Event {
    /// Bytes were to move from the source into the pipe.
    In(Moved),
    /// The pipe holds so many bytes.
    Counted(usize),
    CountFailed,
    /// Bytes were to move from the pipe to the destination.
    Out(Moved),
    /// The pipe has room, or the source has bytes.
    Woken { by_pipe: bool },
    /// The write half of the destination was to be closed.
    Shut(Closed),
}

/// What a direction does next.
#[derive(Debug, Clone, Copy, PartialEq, Eq, Structural)]
pub enum Action {
    /// Wait for the source, then move bytes into the pipe.
    TakeIn,
    /// Ask how many bytes the pipe holds.
    CountPipe,
    /// Wait for the destination, then move at most so many bytes out.
    PassOn { limit: usize },
    /// Wait for room in the pipe or bytes from the source.
    Wait,
    /// Close the write half of the destination.
    ShutDown,
    /// Return.
    Finish,
    /// Close the write half of the destination, and return the error of the
    /// call.
    Fail,
    /// Close the write half of the destination, and return that the pipe was
    /// empty with bytes still owed.
    FailDrained,
}

/// The next action, and whether the readiness that led to the event is stale.
#[derive(Debug, Clone, Copy, PartialEq, Eq, Structural)]
pub struct Step {
    pub action: Action,
    pub clear_ready: bool,
}

/// One direction of a relay: where it stands, and how many bytes it has passed
/// on. The count wraps around.
#[derive(Debug, Clone, Copy, PartialEq, Eq, Structural)]
pub struct Direction {
    pub phase: Phase,
    pub moved: u64,
}

/// Whether an event can come where a direction stands. No more bytes move out
/// than it asked for.
pub open spec fn expected(d: Direction, e: Event) -> bool {
    match (d.phase, e) {
        (Phase::Take, Event::In(_)) => true,
        (Phase::Count, Event::Counted(_)) => true,
        (Phase::Count, Event::CountFailed) => true,
        (Phase::Drain, Event::Out(_)) => true,
        (Phase::Forward { remaining }, Event::Out(Moved::Bytes(n))) => n <= remaining,
        (Phase::Forward { remaining }, Event::Out(_)) => true,
        (Phase::Park, Event::Woken { .. }) => true,
        (Phase::Close, Event::Shut(_)) => true,
        _ => false,
    }
}

/// `a + b` modulo 2^64.
pub open spec fn wrapped(a: u64, b: usize) -> u64 {
    ((a + b) % 0x1_0000_0000_0000_0000) as u64
}

/// What a direction does where it stands.
pub open spec fn action_of(p: Phase) -> Action {
    match p {
        Phase::Take => Action::TakeIn,
        Phase::Count => Action::CountPipe,
        Phase::Drain => Action::PassOn { limit: PIPE_CAPACITY },
        Phase::Park => Action::Wait,
        Phase::Forward { remaining } => Action::PassOn { limit: remaining },
        Phase::Close => Action::ShutDown,
        Phase::Complete => Action::Finish,
        Phase::Broken => Action::Fail,
    }
}

/// Where a direction stands after an event.
pub open spec fn phase_after(p: Phase, e: Event) -> Phase {
    match e {
        Event::In(Moved::Bytes(n)) => if n > 0 {
            Phase::Forward { remaining: n }
        } else {
            Phase::Close
        },
        Event::In(Moved::Again) => Phase::Count,
        Event::Counted(n) => if n > 0 {
            Phase::Drain
        } else {
            Phase::Park
        },
        Event::Out(Moved::Bytes(n)) => match p {
            Phase::Forward { remaining } => if n == 0 {
                Phase::Broken
            } else if n == remaining {
                Phase::Take
            } else {
                Phase::Forward { remaining: (remaining - n) as usize }
            },
            _ => if n == 0 {
                Phase::Park
            } else {
                p
            },
        },
        Event::Woken { .. } => Phase::Take,
        Event::Shut(Closed::Done) => Phase::Complete,
        Event::Shut(Closed::NotConnected) => Phase::Complete,
        Event::In(Moved::Interrupted) => p,
        Event::Out(Moved::Again) => p,
        Event::Out(Moved::Interrupted) => p,
        Event::Shut(Closed::Interrupted) => p,
        Event::In(Moved::Failed) => Phase::Broken,
        Event::CountFailed => Phase::Broken,
        Event::Out(Moved::Failed) => Phase::Broken,
        Event::Shut(Closed::Failed) => Phase::Broken,
    }
}

/// A direction after an event.
pub open spec fn direction_after(d: Direction, e: Event) -> Direction {
    Direction {
        phase: phase_after(d.phase, e),
        moved: (match e {
            Event::Out(Moved::Bytes(n)) => wrapped(d.moved, n),
            _ => d.moved,
        }),
    }
}

/// What a direction does after an event.
pub open spec fn step_after(d: Direction, e: Event) -> Step {
    Step {
        action: if e == Event::Out(Moved::Bytes(0)) && d.phase is Forward {
            Action::FailDrained
        } else {
            action_of(phase_after(d.phase, e))
        },
        clear_ready: e == Event::In(Moved::Again) || e == Event::Out(Moved::Again) || e == (
        Event::Woken { by_pipe: true }),
    }
}

impl Direction {
    /// A direction that has moved nothing yet. It first takes bytes in.
    pub fn new() -> (r: Direction)
        ensures
            r == (Direction { phase: Phase::Take, moved: 0 }),
    {
        Direction { phase: Phase::Take, moved: 0 }
    }

    fn action(&self) -> (r: Action)
        ensures
            r == action_of(self.phase),
    {
        match self.phase {
            Phase::Take => Action::TakeIn,
            Phase::Count => Action::CountPipe,
            Phase::Drain => Action::PassOn { limit: PIPE_CAPACITY },
            Phase::Park => Action::Wait,
            Phase::Forward { remaining } => Action::PassOn { limit: remaining },
            Phase::Close => Action::ShutDown,
            Phase::Complete => Action::Finish,
            Phase::Broken => Action::Fail,
        }
    }

    /// Bytes moved from the source into the pipe.
    fn on_in(&mut self, m: Moved)
        ensures
            *final(self) == direction_after(*old(self), Event::In(m)),
    {
        match m {
            Moved::Bytes(n) => {
                if n > 0 {
                    self.phase = Phase::Forward { remaining: n };
                } else {
                    self.phase = Phase::Close;
                }
            },
            Moved::Again => {
                self.phase = Phase::Count;
            },
            Moved::Interrupted => {},
            Moved::Failed => {
                self.phase = Phase::Broken;
            },
        }
    }

    /// Bytes moved from the pipe to the destination.
    fn on_out(&mut self, m: Moved)
        requires
            expected(*old(self), Event::Out(m)),
        ensures
            *final(self) == direction_after(*old(self), Event::Out(m)),
    {
        match m {
            Moved::Bytes(n) => {
                self.moved = self.moved.wrapping_add(n as u64);
                match self.phase {
                    Phase::Forward { remaining } => {
                        if n == 0 {
                            self.phase = Phase::Broken;
                        } else if n == remaining {
                            self.phase = Phase::Take;
                        } else {
                            self.phase = Phase::Forward { remaining: remaining - n };
                        }
                    },
                    _ => {
                        if n == 0 {
                            self.phase = Phase::Park;
                        }
                    },
                }
            },
            Moved::Again => {},
            Moved::Interrupted => {},
            Moved::Failed => {
                self.phase = Phase::Broken;
            },
        }
    }

    /// One step of a direction.
    pub fn step(&mut self, e: Event) -> (r: Step)
        requires
            expected(*old(self), e),
        ensures
            *final(self) == direction_after(*old(self), e),
            r == step_after(*old(self), e),
    {
        let forwarding = match self.phase {
            Phase::Forward { .. } => true,
            _ => false,
        };
        let mut clear_ready = false;
        match e {
            Event::In(m) => {
                self.on_in(m);
                clear_ready = m == Moved::Again;
            },
            Event::Counted(n) => {
                self.phase = if n > 0 {
                    Phase::Drain
                } else {
                    Phase::Park
                };
            },
            Event::CountFailed => {
                self.phase = Phase::Broken;
            },
            Event::Out(m) => {
                self.on_out(m);
                if forwarding && m == Moved::Bytes(0) {
                    return Step { action: Action::FailDrained, clear_ready: false };
                }
                clear_ready = m == Moved::Again;
            },
            Event::Woken { by_pipe } => {
                self.phase = Phase::Take;
                clear_ready = by_pipe;
            },
            Event::Shut(c) => match c {
                Closed::Done => {
                    self.phase = Phase::Complete;
                },
                Closed::NotConnected => {
                    self.phase = Phase::Complete;
                },
                Closed::Interrupted => {},
                Closed::Failed => {
                    self.phase = Phase::Broken;
                },
            },
        }
        Step { action: self.action(), clear_ready }
    }
}

// ── conservation ────────────────────────────────────────────────────────

/// The bytes in the pipe after an event.
pub open spec fn pipe_after(in_pipe: int, e: Event) -> int {
    match e {
        Event::In(Moved::Bytes(n)) => in_pipe + n,
        Event::Out(Moved::Bytes(n)) => in_pipe - n,
        _ => in_pipe,
    }
}

/// What holds of a pipe: no more comes out than it holds, something comes out
/// where it holds something, and it counts what it holds.
pub open spec fn honest(in_pipe: int, e: Event) -> bool {
    match e {
        Event::Out(Moved::Bytes(n)) => n <= in_pipe && (n == 0 ==> in_pipe == 0),
        Event::Counted(n) => n == in_pipe,
        _ => true,
    }
}

/// How many bytes the pipe holds where a direction stands.
pub open spec fn balanced(d: Direction, in_pipe: int) -> bool {
    match d.phase {
        Phase::Forward { remaining } => remaining > 0 && in_pipe == remaining,
        Phase::Drain => in_pipe >= 0,
        Phase::Broken => true,
        _ => in_pipe == 0,
    }
}

/// A direction always knows how many bytes the pipe holds: those that it has
/// yet to pass on, and none before it takes more.
pub proof fn law_pipe_is_accounted_for(d: Direction, in_pipe: int, e: Event)
    requires
        balanced(d, in_pipe),
        expected(d, e),
        honest(in_pipe, e),
    ensures
        balanced(direction_after(d, e), pipe_after(in_pipe, e)),
{
}

/// Every byte taken in is counted as passed on or is still in the pipe.
pub proof fn law_no_byte_is_lost(d: Direction, in_pipe: int, e: Event)
    requires
        balanced(d, in_pipe),
        expected(d, e),
        honest(in_pipe, e),
    ensures
        ({
            let after = direction_after(d, e);
            let taken = match e {
                Event::In(Moved::Bytes(n)) => n as int,
                _ => 0,
            };
            (after.moved + pipe_after(in_pipe, e) - d.moved - in_pipe - taken)
                % 0x1_0000_0000_0000_0000 == 0
        }),
{
}

/// The end of the source is passed on once, after the last byte: the write half
/// is closed only with an empty pipe, and a direction that completes has passed
/// on all that it took in.
pub proof fn law_end_follows_the_last_byte(d: Direction, in_pipe: int, e: Event)
    requires
        balanced(d, in_pipe),
        expected(d, e),
        honest(in_pipe, e),
    ensures
        step_after(d, e).action is ShutDown ==> pipe_after(in_pipe, e) == 0 && (e == Event::In(
            Moved::Bytes(0),
        ) || e == Event::Shut(Closed::Interrupted)),
        step_after(d, e).action is Finish ==> pipe_after(in_pipe, e) == 0 && d.phase is Close,
{
}

/// A direction never waits on a full pipe that nobody empties: it parks only
/// with an empty pipe, and never asks to move nothing.
pub proof fn law_parked_with_an_empty_pipe(d: Direction, in_pipe: int, e: Event)
    requires
        balanced(d, in_pipe),
        expected(d, e),
        honest(in_pipe, e),
    ensures
        step_after(d, e).action is Wait ==> pipe_after(in_pipe, e) == 0,
        step_after(d, e).action matches Action::PassOn { limit } ==> limit > 0,
        step_after(d, e).action !is FailDrained,
{
}

// ── both directions ─────────────────────────────────────────────────────

/// A direction of the relay.
#[derive(Debug, Clone, Copy, PartialEq, Eq, Structural)]
pub enum Side {
    UserToWork,
    WorkToUser,
}

/// What the relay does when its first direction has ended.
#[derive(Debug, Clone, Copy, PartialEq, Eq, Structural)]
pub enum Next {
    /// Cancel the other direction and return the error.
    Fail,
    /// Wait for the other direction.
    Await(Side),
}

/// What the relay does when its first direction has ended: a clean end keeps
/// the other one running, an error ends both.
pub fn after_first(side: Side, ok: bool) -> (r: Next)
    ensures
        r == (if !ok {
            Next::Fail
        } else if side == Side::UserToWork {
            Next::Await(Side::WorkToUser)
        } else {
            Next::Await(Side::UserToWork)
        }),
{
    if !ok {
        return Next::Fail;
    }
    match side {
        Side::UserToWork => Next::Await(Side::WorkToUser),
        Side::WorkToUser => Next::Await(Side::UserToWork),
    }
}

// ── progress ────────────────────────────────────────────────────────────

/// What was taken in is passed on next, all of it and no more, and only then is
/// more taken in.
pub proof fn law_bytes_taken_are_passed_on(d: Direction, n: usize, m: usize)
    requires
        d.phase is Take,
        0 < m <= n,
    ensures
        ({
            let taken = Event::In(Moved::Bytes(n));
            let after = direction_after(d, taken);
            let passed = Event::Out(Moved::Bytes(m));
            &&& step_after(d, taken).action == (Action::PassOn { limit: n })
            &&& after.moved == d.moved
            &&& m < n ==> step_after(after, passed).action == (Action::PassOn {
                limit: (n - m) as usize,
            })
            &&& m == n ==> step_after(after, passed).action == Action::TakeIn
            &&& d.moved + m <= u64::MAX ==> direction_after(after, passed).moved == d.moved + m
        }),
{
}

/// A call that was interrupted is made again, and one that could not move
/// anything out yet too; a call that failed ends the direction with its error.
pub proof fn law_interruptions_are_repeated(d: Direction, e: Event)
    requires
        expected(d, e),
    ensures
        e == Event::In(Moved::Interrupted) || e == Event::Out(Moved::Interrupted) || e
            == Event::Out(Moved::Again) || e == Event::Shut(Closed::Interrupted)
            ==> direction_after(d, e) == d && step_after(d, e).action == action_of(d.phase),
        e == Event::In(Moved::Failed) || e == Event::Out(Moved::Failed) || e == Event::CountFailed
            || e == Event::Shut(Closed::Failed) ==> step_after(d, e).action == Action::Fail
            && direction_after(d, e).phase is Broken,
{
}

/// The end of the source closes the destination, and once that is closed, or
/// was before, the direction is complete.
pub proof fn law_end_closes_the_destination(d: Direction)
    ensures
        d.phase is Take ==> step_after(d, Event::In(Moved::Bytes(0))).action == Action::ShutDown
            && direction_after(d, Event::In(Moved::Bytes(0))).moved == d.moved,
        d.phase is Close ==> step_after(d, Event::Shut(Closed::Done)).action == Action::Finish
            && step_after(d, Event::Shut(Closed::NotConnected)).action == Action::Finish,
{
}

/// A source that gives nothing leads to a look into the pipe: bytes left there
/// are drained, with an empty pipe the direction waits, and when it is woken it
/// takes in again. Readiness that led nowhere is given up.
pub proof fn law_quiet_sources_are_waited_for(d: Direction, n: usize, by_pipe: bool)
    requires
        d.phase is Take,
    ensures
        ({
            let counting = direction_after(d, Event::In(Moved::Again));
            let counted = direction_after(counting, Event::Counted(n));
            &&& step_after(d, Event::In(Moved::Again)).action == Action::CountPipe
            &&& step_after(d, Event::In(Moved::Again)).clear_ready
            &&& n > 0 ==> step_after(counting, Event::Counted(n)).action == (Action::PassOn {
                limit: 1_048_576,
            })
            &&& n == 0 ==> step_after(counting, Event::Counted(n)).action == Action::Wait
                && step_after(counted, (Event::Woken { by_pipe })) == (Step {
                action: Action::TakeIn,
                clear_ready: by_pipe,
            })
        }),
{
}

} // verus!
