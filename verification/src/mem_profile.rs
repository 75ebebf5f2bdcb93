//! Accounting of an allocator that counts: live and cumulative bytes, and
//! calls. The allocator itself, which touches memory, stays outside.
use vstd::prelude::*;

use crate::text;

verus! {

/// `n` modulo the range of `usize`.
pub open spec fn wrapped(n: int) -> usize {
    (n % (usize::MAX + 1)) as usize
}

/// How the counters move on one call. Counters wrap around.
#[derive(Debug, Clone, Copy, PartialEq, Eq, Structural)]
pub struct Change {
    pub live_up: usize,
    pub live_down: usize,
    pub total_up: usize,
    pub count_up: usize,
}

/// A block of `size` bytes was handed out.
pub fn on_alloc(size: usize) -> (r: Change)
    ensures
        r == (Change { live_up: size, live_down: 0, total_up: size, count_up: 1 }),
{
    Change { live_up: size, live_down: 0, total_up: size, count_up: 1 }
}

/// A block of `size` bytes was given back.
pub fn on_dealloc(size: usize) -> (r: Change)
    ensures
        r == (Change { live_up: 0, live_down: size, total_up: 0, count_up: 0 }),
{
    Change { live_up: 0, live_down: size, total_up: 0, count_up: 0 }
}

/// A block of `old_size` bytes became one of `new_size`: the difference counts.
pub fn on_realloc(old_size: usize, new_size: usize) -> (r: Change)
    ensures
        r == (if new_size >= old_size {
            Change {
                live_up: (new_size - old_size) as usize,
                live_down: 0,
                total_up: (new_size - old_size) as usize,
                count_up: 1,
            }
        } else {
            Change {
                live_up: 0,
                live_down: (old_size - new_size) as usize,
                total_up: 0,
                count_up: 1,
            }
        }),
{
    if new_size >= old_size {
        let d = new_size - old_size;
        Change { live_up: d, live_down: 0, total_up: d, count_up: 1 }
    } else {
        Change { live_up: 0, live_down: old_size - new_size, total_up: 0, count_up: 1 }
    }
}

/// The counters of the allocator.
#[derive(Debug, Clone, Copy, PartialEq, Eq, Structural)]
pub struct CountingAlloc {
    pub live_bytes: usize,
    pub total_alloc: usize,
    pub alloc_count: usize,
}

/// The counters after a call.
pub open spec fn moved(c: CountingAlloc, d: Change) -> CountingAlloc {
    CountingAlloc {
        live_bytes: wrapped(c.live_bytes + d.live_up - d.live_down),
        total_alloc: wrapped(c.total_alloc + d.total_up),
        alloc_count: wrapped(c.alloc_count + d.count_up),
    }
}

proof fn lemma_wrapped_up(a: usize, b: usize)
    ensures
        a + b <= usize::MAX ==> wrapped(a + b) == a + b,
        a + b > usize::MAX ==> wrapped(a + b) == a + b - usize::MAX - 1,
{
    let m = usize::MAX + 1;
    if a + b <= usize::MAX {
        vstd::arithmetic::div_mod::lemma_small_mod((a + b) as nat, m as nat);
    } else {
        vstd::arithmetic::div_mod::lemma_small_mod((a + b - m) as nat, m as nat);
        vstd::arithmetic::div_mod::lemma_mod_add_multiples_vanish(a + b - m, m);
    }
}

proof fn lemma_wrapped_down(a: usize, b: usize)
    ensures
        a >= b ==> wrapped(a - b) == a - b,
        a < b ==> wrapped(a - b) == a - b + usize::MAX + 1,
{
    let m = usize::MAX + 1;
    if a >= b {
        vstd::arithmetic::div_mod::lemma_small_mod((a - b) as nat, m as nat);
    } else {
        vstd::arithmetic::div_mod::lemma_small_mod((a - b + m) as nat, m as nat);
        vstd::arithmetic::div_mod::lemma_mod_add_multiples_vanish(a - b, m);
    }
}

impl CountingAlloc {
    /// All counters at zero.
    pub fn new() -> (r: CountingAlloc)
        ensures
            r == (CountingAlloc { live_bytes: 0, total_alloc: 0, alloc_count: 0 }),
    {
        CountingAlloc { live_bytes: 0, total_alloc: 0, alloc_count: 0 }
    }

    /// Takes a call into account. It raises the live bytes or lowers them.
    pub fn count(&mut self, d: Change)
        requires
            d.live_up == 0 || d.live_down == 0,
        ensures
            *final(self) == moved(*old(self), d),
    {
        proof {
            lemma_wrapped_up(self.live_bytes, d.live_up);
            lemma_wrapped_down(self.live_bytes, d.live_down);
            lemma_wrapped_up(self.total_alloc, d.total_up);
            lemma_wrapped_up(self.alloc_count, d.count_up);
        }
        if d.live_down == 0 {
            self.live_bytes = self.live_bytes.wrapping_add(d.live_up);
        } else {
            self.live_bytes = self.live_bytes.wrapping_sub(d.live_down);
        }
        self.total_alloc = self.total_alloc.wrapping_add(d.total_up);
        self.alloc_count = self.alloc_count.wrapping_add(d.count_up);
    }

    /// Current `(live_bytes, total_alloc, alloc_count)`.
    pub fn snapshot(&self) -> (r: (usize, usize, usize))
        ensures
            r == (self.live_bytes, self.total_alloc, self.alloc_count),
    {
        (self.live_bytes, self.total_alloc, self.alloc_count)
    }
}

/// A block that is given back leaves the live bytes as they were before it was
/// handed out.
pub proof fn law_live_bytes_balance(c: CountingAlloc, size: usize)
    ensures
        ({
            let up = Change { live_up: size, live_down: 0, total_up: size, count_up: 1 };
            let down = Change { live_up: 0, live_down: size, total_up: 0, count_up: 0 };
            moved(moved(c, up), down).live_bytes == c.live_bytes
        }),
{
    lemma_wrapped_up(c.live_bytes, size);
    lemma_wrapped_down(wrapped(c.live_bytes + size), size);
}

/// The line that reports the counters.
pub fn report_line(live: usize, total: usize, allocs: usize) -> (r: String)
    ensures
        r@ == "MEMPROFILE live="@ + text::decimal(live as nat) + " total="@ + text::decimal(
            total as nat,
        ) + " allocs="@ + text::decimal(allocs as nat),
{
    let mut out = String::new();
    text::push_str(&mut out, "MEMPROFILE live=");
    text::push_decimal(&mut out, live as u64);
    text::push_str(&mut out, " total=");
    text::push_decimal(&mut out, total as u64);
    text::push_str(&mut out, " allocs=");
    text::push_decimal(&mut out, allocs as u64);
    assert(out@ =~= "MEMPROFILE live="@ + text::decimal(live as nat) + " total="@ + text::decimal(
        total as nat,
    ) + " allocs="@ + text::decimal(allocs as nat));
    out
}

/// Counters go up and down by what a call moves, each for itself.
pub proof fn law_counters_follow_calls(c: CountingAlloc, d: Change)
    requires
        d.live_up == 0 || d.live_down == 0,
        c.live_bytes + d.live_up <= usize::MAX,
        d.live_down <= c.live_bytes,
        c.total_alloc + d.total_up <= usize::MAX,
        c.alloc_count + d.count_up <= usize::MAX,
    ensures
        moved(c, d).live_bytes == c.live_bytes + d.live_up - d.live_down,
        moved(c, d).total_alloc == c.total_alloc + d.total_up,
        moved(c, d).alloc_count == c.alloc_count + d.count_up,
{
    lemma_wrapped_up(c.live_bytes, d.live_up);
    lemma_wrapped_down(c.live_bytes, d.live_down);
    lemma_wrapped_up(c.total_alloc, d.total_up);
    lemma_wrapped_up(c.alloc_count, d.count_up);
}

} // verus!
