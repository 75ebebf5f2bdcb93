//! Points in time, in seconds and nanoseconds since the Unix epoch.
use vstd::prelude::*;

verus! {

/// A point in time: `secs` seconds after the epoch (before it where negative)
/// and `nanos` nanoseconds more.
#[derive(Debug, Clone, Copy, PartialEq, Eq, Structural)]
pub struct UnixTime {
    pub secs: i64,
    pub nanos: u32,
}

impl UnixTime {
    /// Nanoseconds since the epoch.
    pub open spec fn at(&self) -> int {
        self.secs * 1_000_000_000 + self.nanos
    }

    /// Whether the nanoseconds are less than a second.
    pub open spec fn wf(&self) -> bool {
        self.nanos < 1_000_000_000
    }
}

/// `SystemTime::now` of std. Its value is turned into a plain one: the whole
/// seconds since the Unix epoch, `None` where the clock stands before it.
/// Nothing is claimed of the time.
#[verifier::external_body]
fn clock_seconds() -> (r: Option<u64>) {
    std::time::SystemTime::now().duration_since(std::time::UNIX_EPOCH).ok().map(|d| d.as_secs())
}

/// The number of the day that a time lies in, counted from the epoch and cut
/// to 32 bits; 0 where the clock stands before the epoch.
pub open spec fn day_number(secs: Option<u64>) -> u32 {
    match secs {
        Some(s) => ((s / 86400) % 0x1_0000_0000) as u32,
        None => 0,
    }
}

/// The number of the day that a time lies in.
pub fn day_of(secs: Option<u64>) -> (r: u32)
    ensures
        r == day_number(secs),
{
    match secs {
        Some(s) => ((s / 86400) % 0x1_0000_0000) as u32,
        None => 0,
    }
}

/// The number of today.
pub fn days_since_epoch() -> (r: u32)
    ensures
        exists|secs: Option<u64>| r == #[trigger] day_number(secs),
{
    day_of(clock_seconds())
}

// ── spans ───────────────────────────────────────────────────────────────

/// A span of time: whole seconds and nanoseconds more.
#[derive(Debug, Clone, Copy, PartialEq, Eq, Structural)]
pub struct Span {
    pub secs: u64,
    pub nanos: u32,
}

/// The longest span, in nanoseconds.
pub open spec fn longest() -> int {
    u64::MAX * 1_000_000_000 + 999_999_999
}

/// A span of that many nanoseconds, or the longest one.
pub open spec fn at_most_longest(nanos: int) -> int {
    if nanos > longest() {
        longest()
    } else {
        nanos
    }
}

impl Span {
    /// Nanoseconds.
    pub open spec fn total(&self) -> int {
        self.secs * 1_000_000_000 + self.nanos
    }

    /// Whether the nanoseconds are less than a second.
    pub open spec fn wf(&self) -> bool {
        self.nanos < 1_000_000_000
    }

    /// Whole seconds.
    pub fn from_secs(secs: u64) -> (r: Span)
        ensures
            r.wf(),
            r.total() == secs * 1_000_000_000,
            r.secs == secs,
            r.nanos == 0,
    {
        Span { secs, nanos: 0 }
    }

    /// Whether no time passes.
    pub fn is_zero(&self) -> (r: bool)
        ensures
            r == (self.total() == 0),
    {
        self.secs == 0 && self.nanos == 0
    }

    /// `n` such spans, or the longest one.
    pub fn times(&self, n: u32) -> (r: Span)
        requires
            self.wf(),
        ensures
            r.wf(),
            r.total() == at_most_longest(self.total() * n),
    {
        let each: u128 = self.secs as u128 * 1_000_000_000 + self.nanos as u128;
        assert(each <= longest());
        assert(0 <= each * n <= longest() * u32::MAX) by (nonlinear_arith)
            requires
                0 <= each <= longest(),
                0 <= n <= u32::MAX,
        ;
        let all: u128 = each * (n as u128);
        let max: u128 = u64::MAX as u128 * 1_000_000_000 + 999_999_999;
        if all > max {
            return Span { secs: u64::MAX, nanos: 999_999_999 };
        }
        Span { secs: (all / 1_000_000_000) as u64, nanos: (all % 1_000_000_000) as u32 }
    }

    /// Whether this span is no shorter than the other.
    pub fn at_least(&self, other: &Span) -> (r: bool)
        requires
            self.wf(),
            other.wf(),
        ensures
            r == (self.total() >= other.total()),
    {
        self.secs > other.secs || (self.secs == other.secs && self.nanos >= other.nanos)
    }
}

/// A day lasts 86400 seconds, and the days are counted from the epoch on.
pub proof fn law_days_are_counted(day: u64, second: u64)
    requires
        day < 0x1_0000_0000,
        second < 86_400,
    ensures
        day_number(Some((86_400 * day + second) as u64)) == day,
        day_number(None) == 0,
{
}

} // verus!
