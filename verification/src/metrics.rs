//! Per-proxy traffic counters and a rolling history of seven days.
use vstd::prelude::*;

use crate::clock;
use crate::text;

verus! {

/// How many days the history spans.
pub const HISTORY_DAYS: usize = 7;

// ── history ─────────────────────────────────────────────────────────────

/// The traffic of the last days, today's first.
#[verifier::ext_equal]
pub struct History {
    pub traffic_in: Seq<u64>,
    pub traffic_out: Seq<u64>,
    pub last_day: u32,
}

/// By how many days the history moves between two days: all of it where the
/// second is not one of the next seven.
pub open spec fn shift_between(last: u32, today: u32) -> int {
    let d = (today - last) % 0x1_0000_0000;
    if d < HISTORY_DAYS {
        d
    } else {
        HISTORY_DAYS as int
    }
}

/// The days moved back by `n`, with nothing on the new ones.
pub open spec fn moved_back(s: Seq<u64>, n: int) -> Seq<u64> {
    Seq::new(
        s.len(),
        |i: int|
            if i < n {
                0u64
            } else {
                s[i - n]
            },
    )
}

/// `a + b`, at most `u64::MAX`.
pub open spec fn capped_sum(a: u64, b: u64) -> u64 {
    if a + b > u64::MAX {
        u64::MAX
    } else {
        (a + b) as u64
    }
}

/// The history brought to `today`.
pub open spec fn brought_to(h: History, today: u32) -> History {
    let n = shift_between(h.last_day, today);
    History {
        traffic_in: moved_back(h.traffic_in, n),
        traffic_out: moved_back(h.traffic_out, n),
        last_day: today,
    }
}

/// Traffic of `today` added.
pub open spec fn recorded(h: History, today: u32, delta_in: u64, delta_out: u64) -> History {
    let t = brought_to(h, today);
    History {
        traffic_in: t.traffic_in.update(0, capped_sum(t.traffic_in[0], delta_in)),
        traffic_out: t.traffic_out.update(0, capped_sum(t.traffic_out[0], delta_out)),
        ..t
    }
}

/// Per-day traffic. Index 0 = today, 6 = 6 days ago. Rotates automatically on
/// day change.
pub struct TrafficHistory {
    traffic_in: [u64; 7],
    traffic_out: [u64; 7],
    last_day: u32,
}

impl View for TrafficHistory {
    type V = History;

    closed spec fn view(&self) -> History {
        History {
            traffic_in: self.traffic_in@,
            traffic_out: self.traffic_out@,
            last_day: self.last_day,
        }
    }
}

impl Default for TrafficHistory {
    fn default() -> (r: TrafficHistory)
        ensures
            r@.traffic_in == Seq::new(7, |i: int| 0u64),
            r@.traffic_out == Seq::new(7, |i: int| 0u64),
    {
        TrafficHistory::new()
    }
}

/// The days moved back by `n`.
fn shifted(s: &[u64; 7], n: usize) -> (r: [u64; 7])
    requires
        n <= 7,
    ensures
        r@ == moved_back(s@, n as int),
{
    let mut r: [u64; 7] = [0; 7];
    let mut i: usize = 0;
    while i < 7
        invariant
            i <= 7,
            n <= 7,
            forall|j: int| 0 <= j < i ==> #[trigger] r@[j] == moved_back(s@, n as int)[j],
        decreases 7 - i,
    {
        if i < n {
            r[i] = 0;
        } else {
            r[i] = s[i - n];
        }
        i += 1;
    }
    assert(r@ =~= moved_back(s@, n as int));
    r
}

impl TrafficHistory {
    /// An empty history that ends on the given day.
    pub fn on_day(today: u32) -> (r: TrafficHistory)
        ensures
            r@ == (History {
                traffic_in: Seq::new(7, |i: int| 0u64),
                traffic_out: Seq::new(7, |i: int| 0u64),
                last_day: today,
            }),
    {
        let r = TrafficHistory { traffic_in: [0; 7], traffic_out: [0; 7], last_day: today };
        assert(r@.traffic_in =~= Seq::new(7, |i: int| 0u64));
        assert(r@.traffic_out =~= Seq::new(7, |i: int| 0u64));
        r
    }

    /// An empty history that ends today.
    pub fn new() -> (r: TrafficHistory)
        ensures
            r@.traffic_in == Seq::new(7, |i: int| 0u64),
            r@.traffic_out == Seq::new(7, |i: int| 0u64),
    {
        TrafficHistory::on_day(clock::days_since_epoch())
    }

    /// Adds traffic of the given day.
    pub fn record_on(&mut self, today: u32, delta_in: u64, delta_out: u64)
        ensures
            final(self)@ == recorded(old(self)@, today, delta_in, delta_out),
    {
        if today != self.last_day {
            let days = today.wrapping_sub(self.last_day);
            let shift: usize = if days < 7 {
                days as usize
            } else {
                7
            };
            self.traffic_in = shifted(&self.traffic_in, shift);
            self.traffic_out = shifted(&self.traffic_out, shift);
            self.last_day = today;
        }
        assert(self@ =~= brought_to(old(self)@, today));
        let ghost t = self@;
        let a = self.traffic_in[0].saturating_add(delta_in);
        let b = self.traffic_out[0].saturating_add(delta_out);
        self.traffic_in[0] = a;
        self.traffic_out[0] = b;
        assert(self@ =~= recorded(old(self)@, today, delta_in, delta_out));
    }

    /// Adds traffic of today.
    pub fn record(&mut self, delta_in: u64, delta_out: u64)
        ensures
            exists|today: u32|
                final(self)@ == #[trigger] recorded(old(self)@, today, delta_in, delta_out),
    {
        let today = clock::days_since_epoch();
        self.record_on(today, delta_in, delta_out);
    }

    /// Return (traffic_in[7], traffic_out[7]) where index 0 = today.
    pub fn snapshot(&self) -> (r: ([u64; 7], [u64; 7]))
        ensures
            r.0@ == self@.traffic_in,
            r.1@ == self@.traffic_out,
    {
        (self.traffic_in, self.traffic_out)
    }
}

/// What was recorded on one day stands that many days back on a later day, and
/// is gone after a week.
pub proof fn law_history_moves_with_the_days(h: History, day: u32, n: int, i: int)
    requires
        h.traffic_in.len() == 7,
        h.traffic_out.len() == 7,
        h.last_day == day,
        0 <= n < 0x1_0000_0000,
        0 <= i < 7,
    ensures
        ({
            let later = brought_to(h, ((day + n) % 0x1_0000_0000) as u32);
            &&& i + n < 7 ==> later.traffic_in[i + n] == h.traffic_in[i] && later.traffic_out[i + n]
                == h.traffic_out[i]
            &&& i < n ==> later.traffic_in[i] == 0 && later.traffic_out[i] == 0
        }),
{
}

/// Two records on one day are one record of both, unless the counter is full.
pub proof fn law_records_of_a_day_add_up(h: History, day: u32, a: u64, b: u64, c: u64, d: u64)
    requires
        h.traffic_in.len() == 7,
        h.traffic_out.len() == 7,
        a + c <= u64::MAX,
        b + d <= u64::MAX,
    ensures
        recorded(recorded(h, day, a, b), day, c, d) == recorded(
            h,
            day,
            (a + c) as u64,
            (b + d) as u64,
        ),
{
    let once = recorded(h, day, a, b);
    assert(moved_back(once.traffic_in, 0) =~= once.traffic_in);
    assert(moved_back(once.traffic_out, 0) =~= once.traffic_out);
    assert(recorded(once, day, c, d) =~= recorded(h, day, (a + c) as u64, (b + d) as u64));
}

// ── counters ────────────────────────────────────────────────────────────

/// The counters of a proxy. They wrap around.
pub struct ProxyMetrics {
    pub name: String,
    pub bytes_in: u64,
    pub bytes_out: u64,
    pub current_conns: i64,
    pub total_conns: u64,
    /// Per-day rolling traffic history (index 0 = today, 6 = 6 days ago).
    pub daily: TrafficHistory,
}

/// The counters at one time.
#[derive(Debug, Clone, Copy, PartialEq, Eq, Structural)]
pub struct MetricsSnapshot {
    pub bytes_in: u64,
    pub bytes_out: u64,
    pub current_conns: i64,
    pub total_conns: u64,
}

impl Default for MetricsSnapshot {
    fn default() -> (r: MetricsSnapshot)
        ensures
            r == (MetricsSnapshot { bytes_in: 0, bytes_out: 0, current_conns: 0, total_conns: 0 }),
    {
        MetricsSnapshot { bytes_in: 0, bytes_out: 0, current_conns: 0, total_conns: 0 }
    }
}

/// `a + b` modulo 2^64.
pub open spec fn wrapped_sum(a: u64, b: u64) -> u64 {
    ((a + b) % 0x1_0000_0000_0000_0000) as u64
}

/// One more, the least after the greatest.
pub open spec fn one_more(n: i64) -> i64 {
    if n == i64::MAX {
        i64::MIN
    } else {
        (n + 1) as i64
    }
}

/// One less, the greatest before the least.
pub open spec fn one_less(n: i64) -> i64 {
    if n == i64::MIN {
        i64::MAX
    } else {
        (n - 1) as i64
    }
}

impl ProxyMetrics {
    /// The counters as they stand.
    pub open spec fn counts(&self) -> MetricsSnapshot {
        MetricsSnapshot {
            bytes_in: self.bytes_in,
            bytes_out: self.bytes_out,
            current_conns: self.current_conns,
            total_conns: self.total_conns,
        }
    }

    pub fn new(name: String) -> (r: ProxyMetrics)
        ensures
            r.name == name,
            r.counts() == (MetricsSnapshot {
                bytes_in: 0,
                bytes_out: 0,
                current_conns: 0,
                total_conns: 0,
            }),
            r.daily@.traffic_in == Seq::new(7, |i: int| 0u64),
            r.daily@.traffic_out == Seq::new(7, |i: int| 0u64),
    {
        ProxyMetrics {
            name,
            bytes_in: 0,
            bytes_out: 0,
            current_conns: 0,
            total_conns: 0,
            daily: TrafficHistory::new(),
        }
    }

    pub fn snapshot(&self) -> (r: MetricsSnapshot)
        ensures
            r == self.counts(),
    {
        MetricsSnapshot {
            bytes_in: self.bytes_in,
            bytes_out: self.bytes_out,
            current_conns: self.current_conns,
            total_conns: self.total_conns,
        }
    }

    /// Record traffic delta. Updates counters and per-day history.
    pub fn record_traffic(&mut self, delta_in: u64, delta_out: u64)
        ensures
            final(self).name == old(self).name,
            final(self).counts() == (MetricsSnapshot {
                bytes_in: wrapped_sum(old(self).bytes_in, delta_in),
                bytes_out: wrapped_sum(old(self).bytes_out, delta_out),
                ..old(self).counts()
            }),
            exists|today: u32|
                final(self).daily@ == #[trigger] recorded(
                    old(self).daily@,
                    today,
                    delta_in,
                    delta_out,
                ),
    {
        self.bytes_in = self.bytes_in.wrapping_add(delta_in);
        self.bytes_out = self.bytes_out.wrapping_add(delta_out);
        self.daily.record(delta_in, delta_out);
    }
}

/// Connection guard: +1 current_conns + total_conns on creation, -1
/// current_conns on release.
pub struct ConnGuard {
    held: bool,
}

impl ConnGuard {
    /// A connection begins.
    pub fn new(metrics: &mut ProxyMetrics) -> (r: ConnGuard)
        ensures
            final(metrics).name == old(metrics).name,
            final(metrics).daily == old(metrics).daily,
            final(metrics).counts() == (MetricsSnapshot {
                current_conns: one_more(old(metrics).current_conns),
                total_conns: wrapped_sum(old(metrics).total_conns, 1),
                ..old(metrics).counts()
            }),
    {
        metrics.current_conns = if metrics.current_conns == i64::MAX {
            i64::MIN
        } else {
            metrics.current_conns + 1
        };
        metrics.total_conns = metrics.total_conns.wrapping_add(1);
        ConnGuard { held: true }
    }

    /// The connection ends.
    pub fn release(self, metrics: &mut ProxyMetrics)
        ensures
            final(metrics).name == old(metrics).name,
            final(metrics).daily == old(metrics).daily,
            final(metrics).counts() == (MetricsSnapshot {
                current_conns: one_less(old(metrics).current_conns),
                ..old(metrics).counts()
            }),
    {
        metrics.current_conns = if metrics.current_conns == i64::MIN {
            i64::MAX
        } else {
            metrics.current_conns - 1
        };
    }
}

/// A connection that begins and ends leaves the number of current connections
/// as it was.
pub proof fn law_connections_balance(n: i64)
    ensures
        one_less(one_more(n)) == n,
{
}

// ── registry ────────────────────────────────────────────────────────────

/// Whether something is kept under the name.
pub open spec fn named<M>(s: Seq<(Seq<char>, M)>, name: Seq<char>) -> bool {
    exists|i: int| 0 <= i < s.len() && (#[trigger] s[i]).0 == name
}

/// Whether no name occurs twice.
pub open spec fn distinct_names<M>(s: Seq<(Seq<char>, M)>) -> bool {
    forall|i: int, j: int| 0 <= i < j < s.len() ==> (#[trigger] s[i]).0 != (#[trigger] s[j]).0
}

/// What is kept of one proxy.
#[derive(Debug)]
struct Entry<M> {
    name: String,
    metrics: M,
}

/// The metrics of all proxies, one for each name: the counters themselves, or
/// what stands for them where they are shared.
#[derive(Debug)]
pub struct ProxyMetricsRegistry<M> {
    entries: Vec<Entry<M>>,
}

impl<M> View for ProxyMetricsRegistry<M> {
    type V = Seq<(Seq<char>, M)>;

    closed spec fn view(&self) -> Seq<(Seq<char>, M)> {
        Seq::new(self.entries@.len(), |i: int| (self.entries@[i].name@, self.entries@[i].metrics))
    }
}

impl<M> Default for ProxyMetricsRegistry<M> {
    fn default() -> (r: ProxyMetricsRegistry<M>)
        ensures
            r.wf(),
            r@.len() == 0,
    {
        ProxyMetricsRegistry::new()
    }
}

impl<M> ProxyMetricsRegistry<M> {
    /// No name occurs twice.
    pub open spec fn wf(&self) -> bool {
        distinct_names(self@)
    }

    pub fn new() -> (r: ProxyMetricsRegistry<M>)
        ensures
            r.wf(),
            r@.len() == 0,
    {
        ProxyMetricsRegistry { entries: Vec::new() }
    }

    /// Where the metrics of a proxy stand.
    fn position(&self, name: &str) -> (r: Option<usize>)
        ensures
            (match r {
                Some(i) => i < self@.len() && self@[i as int].0 == name@,
                None => !named(self@, name@),
            }),
    {
        let mut i: usize = 0;
        while i < self.entries.len()
            invariant
                i <= self@.len(),
                self@.len() == self.entries@.len(),
                forall|j: int| 0 <= j < i ==> (#[trigger] self@[j]).0 != name@,
            decreases self@.len() - i,
        {
            assert(self@[i as int].0 == self.entries@[i as int].name@);
            if text::same_text(self.entries[i].name.as_str(), name) {
                return Some(i);
            }
            i += 1;
        }
        None
    }

    /// Where the metrics of a proxy stand; the given ones are entered where
    /// there are none.
    pub fn get_or_insert(&mut self, name: &str, fresh: M) -> (r: usize)
        requires
            old(self).wf(),
        ensures
            final(self).wf(),
            r < final(self)@.len(),
            final(self)@[r as int].0 == name@,
            named(old(self)@, name@) ==> final(self)@ == old(self)@,
            !named(old(self)@, name@) ==> r == old(self)@.len() && final(self)@
                == old(self)@.push((name@, fresh)),
    {
        match self.position(name) {
            Some(i) => i,
            None => {
                let i = self.entries.len();
                self.entries.push(Entry { name: name.to_owned(), metrics: fresh });
                assert(self@ =~= old(self)@.push((name@, fresh)));
                i
            },
        }
    }

    /// The metrics that stand at `i`.
    pub fn at(&mut self, i: usize) -> (r: &mut M)
        requires
            old(self).wf(),
            i < old(self)@.len(),
        ensures
            *r == old(self)@[i as int].1,
            final(self)@ == old(self)@.update(i as int, (old(self)@[i as int].0, *final(r))),
            final(self).wf(),
    {
        let ghost s = self@;
        proof {
            assert forall|m: M| distinct_names(
                #[trigger] s.update(i as int, (s[i as int].0, m)),
            ) by {
                let t = s.update(i as int, (s[i as int].0, m));
                assert forall|a: int, b: int| 0 <= a < b < t.len() implies (#[trigger] t[a]).0 != (
                #[trigger] t[b]).0 by {
                    assert(t[a].0 == s[a].0 && t[b].0 == s[b].0);
                }
            }
        }
        let e = &mut self.entries[i];
        &mut e.metrics
    }

    /// The metrics of a proxy.
    pub fn get(&self, name: &str) -> (r: Option<&M>)
        ensures
            (match r {
                Some(m) => self@.contains((name@, *m)),
                None => !named(self@, name@),
            }),
    {
        match self.position(name) {
            Some(i) => {
                assert(self@[i as int] == (name@, self.entries@[i as int].metrics));
                Some(&self.entries[i].metrics)
            },
            None => None,
        }
    }

    /// Forgets the metrics of a proxy.
    pub fn remove(&mut self, name: &str)
        requires
            old(self).wf(),
        ensures
            final(self).wf(),
            !named(final(self)@, name@),
            !named(old(self)@, name@) ==> final(self)@ == old(self)@,
            named(old(self)@, name@) ==> exists|i: int|
                0 <= i < old(self)@.len() && old(self)@[i].0 == name@ && final(self)@
                    == #[trigger] old(self)@.remove(i),
    {
        match self.position(name) {
            Some(i) => {
                self.entries.remove(i);
                assert(self@ =~= old(self)@.remove(i as int));
            },
            None => {},
        }
    }
}

impl ProxyMetricsRegistry<ProxyMetrics> {
    /// Where the metrics of a proxy stand; new ones are made where there are
    /// none.
    pub fn get_or_create(&mut self, name: &str) -> (r: usize)
        requires
            old(self).wf(),
        ensures
            final(self).wf(),
            r < final(self)@.len(),
            final(self)@[r as int].0 == name@,
            named(old(self)@, name@) ==> final(self)@ == old(self)@,
            !named(old(self)@, name@) ==> {
                let m = final(self)@[r as int].1;
                &&& r == old(self)@.len()
                &&& final(self)@ == old(self)@.push((name@, m))
                &&& m.name@ == name@
                &&& m.counts() == (MetricsSnapshot {
                    bytes_in: 0,
                    bytes_out: 0,
                    current_conns: 0,
                    total_conns: 0,
                })
                &&& m.daily@.traffic_in == Seq::new(7, |i: int| 0u64)
                &&& m.daily@.traffic_out == Seq::new(7, |i: int| 0u64)
            },
    {
        self.get_or_insert(name, ProxyMetrics::new(name.to_owned()))
    }
}

/// Traffic counts for the day on which it is recorded, each way for itself, and
/// for no other day.
pub proof fn law_traffic_counts_for_its_day(h: History, day: u32, a: u64, b: u64, i: int)
    requires
        h.traffic_in.len() == 7,
        h.traffic_out.len() == 7,
        h.last_day == day,
        h.traffic_in[0] + a <= u64::MAX,
        h.traffic_out[0] + b <= u64::MAX,
        0 < i < 7,
    ensures
        ({
            let t = recorded(h, day, a, b);
            &&& t.traffic_in[0] == h.traffic_in[0] + a
            &&& t.traffic_out[0] == h.traffic_out[0] + b
            &&& t.traffic_in[i] == h.traffic_in[i] && t.traffic_out[i] == h.traffic_out[i]
            &&& t.last_day == day
        }),
{
}

} // verus!
