//! IP addresses and their text forms.
use vstd::prelude::*;

use crate::bytes;
use crate::text;

verus! {

/// An IP address, by its octets or by its 16-bit groups.
#[derive(Debug, Clone, Copy, PartialEq, Eq, Structural)]
pub enum IpAddr {
    V4(u8, u8, u8, u8),
    V6(u16, u16, u16, u16, u16, u16, u16, u16),
}

/// An IP address with a port.
#[derive(Debug, Clone, Copy, PartialEq, Eq, Structural)]
pub struct SocketAddr {
    pub ip: IpAddr,
    pub port: u16,
}

// ── text forms ──────────────────────────────────────────────────────────

/// An octet: one to three decimal digits without a leading zero, at most 255.
pub open spec fn octet(s: Seq<char>) -> Option<u8> {
    if 1 <= s.len() <= 3 && !(s.len() > 1 && s[0] == '0') && text::numeral_value(s, 10) is Some
        && text::numeral_value(s, 10)->0 <= 255 {
        Some(text::numeral_value(s, 10)->0 as u8)
    } else {
        None
    }
}

/// Four octets with dots between them.
pub open spec fn v4_of(s: Seq<char>) -> Option<(u8, u8, u8, u8)> {
    let f = text::split(s, '.');
    if f.len() == 4 {
        match (octet(f[0]), octet(f[1]), octet(f[2]), octet(f[3])) {
            (Some(a), Some(b), Some(c), Some(d)) => Some((a, b, c, d)),
            _ => None,
        }
    } else {
        None
    }
}

/// A group: one to four hexadecimal digits.
pub open spec fn group(s: Seq<char>) -> Option<u16> {
    if 1 <= s.len() <= 4 && text::numeral_value(s, 16) is Some {
        Some(text::numeral_value(s, 16)->0 as u16)
    } else {
        None
    }
}

/// Fields that are groups, every one.
pub open spec fn groups_of(f: Seq<Seq<char>>) -> Option<Seq<u16>>
    decreases f.len(),
{
    if f.len() == 0 {
        Some(Seq::empty())
    } else {
        match (groups_of(f.drop_last()), group(f.last())) {
            (Some(g), Some(x)) => Some(g.push(x)),
            _ => None,
        }
    }
}

/// Fields that are groups, where the last may be four octets in place of two
/// groups.
pub open spec fn tail_groups_of(f: Seq<Seq<char>>) -> Option<Seq<u16>> {
    if f.len() > 0 && v4_of(f.last()) is Some {
        let (a, b, c, d) = v4_of(f.last())->0;
        match groups_of(f.drop_last()) {
            Some(g) => Some(g + seq![(a * 256 + b) as u16, (c * 256 + d) as u16]),
            None => None,
        }
    } else {
        groups_of(f)
    }
}

/// The first empty field from `i` on.
pub open spec fn first_empty(f: Seq<Seq<char>>, i: int) -> int
    decreases f.len() - i,
{
    if i >= f.len() || f[i].len() == 0 {
        i
    } else {
        first_empty(f, i + 1)
    }
}

/// The fields behind the double colon that starts at the empty field `i`: none
/// where the text ends with it.
pub open spec fn fields_behind(f: Seq<Seq<char>>, i: int) -> Seq<Seq<char>> {
    let n = f.len();
    if i + 1 == n - 1 && f[i + 1].len() == 0 {
        Seq::empty()
    } else {
        f.skip(i + 1)
    }
}

/// The groups before and behind a double colon, with zeros in between, of
/// which there is at least one.
pub open spec fn with_gap(head: Option<Seq<u16>>, tail: Option<Seq<u16>>) -> Option<Seq<u16>> {
    match (head, tail) {
        (Some(h), Some(t)) => if h.len() + t.len() <= 7 {
            Some(h + Seq::new((8 - h.len() - t.len()) as nat, |i: int| 0u16) + t)
        } else {
            None
        },
        _ => None,
    }
}

/// Eight groups with colons between them; a double colon stands for one or
/// more groups of zeros.
pub open spec fn v6_of(s: Seq<char>) -> Option<Seq<u16>> {
    let f = text::split(s, ':');
    let i = first_empty(f, 0);
    if i == f.len() {
        match tail_groups_of(f) {
            Some(g) => if g.len() == 8 {
                Some(g)
            } else {
                None
            },
            None => None,
        }
    } else if i == 0 {
        if f.len() > 2 && f[1].len() == 0 {
            with_gap(Some(Seq::empty()), tail_groups_of(fields_behind(f, 1)))
        } else {
            None
        }
    } else if i + 1 < f.len() {
        with_gap(groups_of(f.take(i)), tail_groups_of(fields_behind(f, i)))
    } else {
        None
    }
}

/// The IPv6 address with the groups `g`.
pub open spec fn v6_with(g: Seq<u16>) -> IpAddr {
    IpAddr::V6(g[0], g[1], g[2], g[3], g[4], g[5], g[6], g[7])
}

/// The address that a text denotes, if it does.
pub open spec fn ip_of(s: Seq<char>) -> Option<IpAddr> {
    match v4_of(s) {
        Some((a, b, c, d)) => Some(IpAddr::V4(a, b, c, d)),
        None => match v6_of(s) {
            Some(g) => Some(v6_with(g)),
            None => None,
        },
    }
}

/// Four octets in decimal.
pub open spec fn v4_text(a: u8, b: u8, c: u8, d: u8) -> Seq<char> {
    text::decimal(a as nat) + seq!['.'] + text::decimal(b as nat) + seq!['.'] + text::decimal(
        c as nat,
    ) + seq!['.'] + text::decimal(d as nat)
}

/// Groups in hexadecimal with colons between them.
pub open spec fn groups_text(g: Seq<u16>) -> Seq<char>
    decreases g.len(),
{
    if g.len() == 0 {
        Seq::empty()
    } else if g.len() == 1 {
        text::hexadecimal(g[0] as nat)
    } else {
        groups_text(g.drop_last()) + seq![':'] + text::hexadecimal(g.last() as nat)
    }
}

/// How many zeros stand at `i` and behind.
pub open spec fn zeros_at(g: Seq<u16>, i: int) -> int
    decreases g.len() - i,
{
    if i >= g.len() || g[i] != 0 {
        0
    } else {
        1 + zeros_at(g, i + 1)
    }
}

/// The place of the longest run of zeros that starts before `n`, the first of
/// them where there are several.
pub open spec fn longest_zeros(g: Seq<u16>, n: int) -> int
    decreases n,
{
    if n <= 1 {
        0
    } else {
        let i = longest_zeros(g, n - 1);
        if zeros_at(g, n - 1) > zeros_at(g, i) {
            n - 1
        } else {
            i
        }
    }
}

/// Whether the groups are those of an IPv4-mapped address.
pub open spec fn is_mapped(g: Seq<u16>) -> bool {
    g[0] == 0 && g[1] == 0 && g[2] == 0 && g[3] == 0 && g[4] == 0 && g[5] == 0xffff
}

/// The eight groups of an IPv6 address as text: the longest run of two or more
/// zeros as a double colon, an IPv4-mapped address with its octets.
pub open spec fn v6_text(g: Seq<u16>) -> Seq<char> {
    if is_mapped(g) {
        "::ffff:"@ + v4_text(
            (g[6] / 256) as u8,
            (g[6] % 256) as u8,
            (g[7] / 256) as u8,
            (g[7] % 256) as u8,
        )
    } else {
        let i = longest_zeros(g, 8);
        let n = zeros_at(g, i);
        if n > 1 {
            groups_text(g.take(i)) + seq![':', ':'] + groups_text(g.skip(i + n))
        } else {
            groups_text(g)
        }
    }
}

impl IpAddr {
    /// The groups of an IPv6 address.
    pub open spec fn groups(&self) -> Seq<u16> {
        match *self {
            IpAddr::V4(a, b, c, d) => Seq::empty(),
            IpAddr::V6(a, b, c, d, e, f, g, h) => seq![a, b, c, d, e, f, g, h],
        }
    }

    /// The octets of an address, highest first.
    pub open spec fn octets(&self) -> Seq<u8> {
        match *self {
            IpAddr::V4(a, b, c, d) => seq![a, b, c, d],
            IpAddr::V6(a, b, c, d, e, f, g, h) => bytes::be16(a) + bytes::be16(b) + bytes::be16(c)
                + bytes::be16(d) + bytes::be16(e) + bytes::be16(f) + bytes::be16(g) + bytes::be16(
                h,
            ),
        }
    }

    /// The address as text.
    pub open spec fn text(&self) -> Seq<char> {
        match *self {
            IpAddr::V4(a, b, c, d) => v4_text(a, b, c, d),
            IpAddr::V6(..) => v6_text(self.groups()),
        }
    }
}

impl SocketAddr {
    /// The address with its port as text, an IPv6 address in brackets.
    pub open spec fn text(&self) -> Seq<char> {
        match self.ip {
            IpAddr::V4(..) => self.ip.text() + seq![':'] + text::decimal(self.port as nat),
            IpAddr::V6(..) => seq!['['] + self.ip.text() + seq![']', ':'] + text::decimal(
                self.port as nat,
            ),
        }
    }
}

// ── writing ─────────────────────────────────────────────────────────────

fn push_v4(out: &mut String, a: u8, b: u8, c: u8, d: u8)
    ensures
        final(out)@ == old(out)@ + v4_text(a, b, c, d),
{
    text::push_decimal(out, a as u64);
    out.push('.');
    text::push_decimal(out, b as u64);
    out.push('.');
    text::push_decimal(out, c as u64);
    out.push('.');
    text::push_decimal(out, d as u64);
    assert(out@ =~= old(out)@ + v4_text(a, b, c, d));
}

fn push_groups(out: &mut String, g: &[u16])
    ensures
        final(out)@ == old(out)@ + groups_text(g@),
{
    let mut i: usize = 0;
    assert(out@ =~= old(out)@ + groups_text(g@.take(0)));
    while i < g.len()
        invariant
            i <= g@.len(),
            out@ == old(out)@ + groups_text(g@.take(i as int)),
        decreases g@.len() - i,
    {
        let ghost before = groups_text(g@.take(i as int));
        assert(g@.take(i + 1).drop_last() =~= g@.take(i as int));
        assert(g@.take(i + 1).last() == g@[i as int]);
        if i > 0 {
            out.push(':');
        }
        text::push_hexadecimal(out, g[i] as u64);
        assert(out@ =~= old(out)@ + groups_text(g@.take(i + 1)));
        i += 1;
    }
    assert(g@.take(i as int) =~= g@);
}

fn count_zeros(g: &[u16], i: usize) -> (r: usize)
    requires
        i <= g@.len(),
    ensures
        r == zeros_at(g@, i as int),
        i + r <= g@.len(),
    decreases g@.len() - i,
{
    if i >= g.len() || g[i] != 0 {
        0
    } else {
        1 + count_zeros(g, i + 1)
    }
}

fn find_zeros(g: &[u16]) -> (r: usize)
    requires
        g@.len() == 8,
    ensures
        r == longest_zeros(g@, 8),
        r < 8,
{
    let mut best: usize = 0;
    let mut n: usize = 1;
    while n < 8
        invariant
            g@.len() == 8,
            1 <= n <= 8,
            best < n,
            best == longest_zeros(g@, n as int),
        decreases 8 - n,
    {
        if count_zeros(g, n) > count_zeros(g, best) {
            best = n;
        }
        n += 1;
    }
    best
}

fn push_v6(out: &mut String, g: &[u16])
    requires
        g@.len() == 8,
    ensures
        final(out)@ == old(out)@ + v6_text(g@),
{
    if g[0] == 0 && g[1] == 0 && g[2] == 0 && g[3] == 0 && g[4] == 0 && g[5] == 0xffff {
        text::push_str(out, "::ffff:");
        push_v4(
            out,
            (g[6] / 256) as u8,
            (g[6] % 256) as u8,
            (g[7] / 256) as u8,
            (g[7] % 256) as u8,
        );
        assert(out@ =~= old(out)@ + v6_text(g@));
    } else {
        let i = find_zeros(g);
        let n = count_zeros(g, i);
        if n > 1 {
            let head = &g[0..i];
            assert(head@ =~= g@.take(i as int));
            push_groups(out, head);
            out.push(':');
            out.push(':');
            let tail = &g[i + n..g.len()];
            assert(tail@ =~= g@.skip(i + n));
            push_groups(out, tail);
            assert(out@ =~= old(out)@ + v6_text(g@));
        } else {
            push_groups(out, g);
        }
    }
}

impl IpAddr {
    /// Appends the address as text.
    fn write_to(&self, out: &mut String)
        ensures
            final(out)@ == old(out)@ + self.text(),
    {
        match *self {
            IpAddr::V4(a, b, c, d) => {
                push_v4(out, a, b, c, d);
            },
            IpAddr::V6(a, b, c, d, e, f, g, h) => {
                let v: Vec<u16> = vec![a, b, c, d, e, f, g, h];
                assert(v@ =~= self.groups());
                push_v6(out, v.as_slice());
            },
        }
    }

    /// The address as text.
    pub fn to_text(&self) -> (r: String)
        ensures
            r@ == self.text(),
    {
        let mut out = String::new();
        self.write_to(&mut out);
        assert(out@ =~= self.text());
        out
    }

    /// Appends the octets, highest first.
    pub fn push_octets(&self, out: &mut Vec<u8>)
        ensures
            final(out)@ == old(out)@ + self.octets(),
    {
        match *self {
            IpAddr::V4(a, b, c, d) => {
                out.push(a);
                out.push(b);
                out.push(c);
                out.push(d);
            },
            IpAddr::V6(a, b, c, d, e, f, g, h) => {
                bytes::push_be16(out, a);
                bytes::push_be16(out, b);
                bytes::push_be16(out, c);
                bytes::push_be16(out, d);
                bytes::push_be16(out, e);
                bytes::push_be16(out, f);
                bytes::push_be16(out, g);
                bytes::push_be16(out, h);
            },
        }
        assert(out@ =~= old(out)@ + self.octets());
    }

    /// Whether the address is an IPv4 address.
    pub fn is_ipv4(&self) -> (r: bool)
        ensures
            r == (self is V4),
    {
        match *self {
            IpAddr::V4(..) => true,
            IpAddr::V6(..) => false,
        }
    }
}

impl SocketAddr {
    /// The address with its port as text.
    pub fn to_text(&self) -> (r: String)
        ensures
            r@ == self.text(),
    {
        let mut out = String::new();
        if self.ip.is_ipv4() {
            self.ip.write_to(&mut out);
            out.push(':');
        } else {
            out.push('[');
            self.ip.write_to(&mut out);
            out.push(']');
            out.push(':');
        }
        text::push_decimal(&mut out, self.port as u64);
        assert(out@ =~= self.text());
        out
    }
}

// ── reading ─────────────────────────────────────────────────────────────

/// The fields of a sequence of texts.
pub open spec fn fields(f: Seq<Vec<char>>) -> Seq<Seq<char>> {
    Seq::new(f.len(), |i: int| f[i]@)
}

fn read_octet(s: &Vec<char>) -> (r: Option<u8>)
    ensures
        r == octet(s@),
{
    if s.len() < 1 || s.len() > 3 || (s.len() > 1 && s[0] == '0') {
        return None;
    }
    match text::value_of(s, 10) {
        Some(n) => if n <= 255 {
            Some(n as u8)
        } else {
            None
        },
        None => None,
    }
}

pub(crate) fn read_v4(s: &Vec<char>) -> (r: Option<(u8, u8, u8, u8)>)
    ensures
        r == v4_of(s@),
{
    let f = text::split_at(s, '.');
    if f.len() != 4 {
        return None;
    }
    match (read_octet(&f[0]), read_octet(&f[1]), read_octet(&f[2]), read_octet(&f[3])) {
        (Some(a), Some(b), Some(c), Some(d)) => Some((a, b, c, d)),
        _ => None,
    }
}

fn read_group(s: &Vec<char>) -> (r: Option<u16>)
    ensures
        r == group(s@),
{
    if s.len() < 1 || s.len() > 4 {
        return None;
    }
    match text::value_of(s, 16) {
        Some(n) => Some(n as u16),
        None => None,
    }
}

proof fn lemma_no_groups(f: Seq<Seq<char>>, i: int)
    requires
        0 <= i <= f.len(),
        groups_of(f.take(i)) is None,
    ensures
        groups_of(f) is None,
    decreases f.len(),
{
    if i < f.len() {
        assert(f.drop_last().take(i) =~= f.take(i));
        lemma_no_groups(f.drop_last(), i);
    } else {
        assert(f.take(i) =~= f);
    }
}

/// The groups of the fields `lo .. hi`.
fn read_groups(f: &Vec<Vec<char>>, lo: usize, hi: usize) -> (r: Option<Vec<u16>>)
    requires
        lo <= hi <= f@.len(),
    ensures
        r is Some <==> groups_of(fields(f@).subrange(lo as int, hi as int)) is Some,
        r matches Some(g) ==> groups_of(fields(f@).subrange(lo as int, hi as int)) == Some(g@)
            && g@.len() == hi - lo,
{
    let mut g: Vec<u16> = Vec::new();
    let mut i: usize = lo;
    let ghost part = fields(f@).subrange(lo as int, hi as int);
    assert(part.take(0) =~= Seq::empty());
    while i < hi
        invariant
            lo <= i <= hi <= f@.len(),
            part == fields(f@).subrange(lo as int, hi as int),
            groups_of(part.take(i - lo)) == Some(g@),
            g@.len() == i - lo,
        decreases hi - i,
    {
        assert(part.take(i - lo + 1).drop_last() =~= part.take(i - lo));
        assert(part.take(i - lo + 1).last() == f@[i as int]@);
        match read_group(&f[i]) {
            Some(x) => {
                g.push(x);
            },
            None => {
                proof {
                    lemma_no_groups(part, i - lo + 1);
                }
                return None;
            },
        }
        i += 1;
    }
    assert(part.take(i - lo) =~= part);
    Some(g)
}

/// The groups of the fields from `lo` on, the last of which may be octets.
fn read_tail(f: &Vec<Vec<char>>, lo: usize) -> (r: Option<Vec<u16>>)
    requires
        lo <= f@.len(),
    ensures
        r is Some <==> tail_groups_of(fields(f@).skip(lo as int)) is Some,
        r matches Some(g) ==> tail_groups_of(fields(f@).skip(lo as int)) == Some(g@),
{
    let ghost part = fields(f@).skip(lo as int);
    assert(part =~= fields(f@).subrange(lo as int, f@.len() as int));
    if lo < f.len() {
        assert(part.last() == f@[f@.len() - 1]@);
        match read_v4(&f[f.len() - 1]) {
            Some((a, b, c, d)) => {
                assert(part.drop_last() =~= fields(f@).subrange(lo as int, f@.len() - 1));
                return match read_groups(f, lo, f.len() - 1) {
                    Some(head) => {
                        let mut g = head;
                        g.push(a as u16 * 256 + b as u16);
                        g.push(c as u16 * 256 + d as u16);
                        assert(g@ =~= head@ + seq![(a * 256 + b) as u16, (c * 256 + d) as u16]);
                        Some(g)
                    },
                    None => None,
                };
            },
            None => {},
        }
    }
    read_groups(f, lo, f.len())
}

/// The groups before and behind a double colon, with zeros in between.
fn fill_gap(head: Vec<u16>, tail: Vec<u16>) -> (r: Option<Vec<u16>>)
    ensures
        r is Some <==> with_gap(Some(head@), Some(tail@)) is Some,
        r matches Some(g) ==> with_gap(Some(head@), Some(tail@)) == Some(g@) && g@.len() == 8,
{
    if head.len() > 7 || tail.len() > 7 - head.len() {
        return None;
    }
    let ghost h = head@;
    let ghost t = tail@;
    let n = 8 - head.len() - tail.len();
    let mut g = head;
    let mut i: usize = 0;
    assert(g@ =~= h + Seq::new(0, |j: int| 0u16));
    while i < n
        invariant
            i <= n,
            g@ == h + Seq::new(i as nat, |j: int| 0u16),
        decreases n - i,
    {
        g.push(0);
        i += 1;
        assert(g@ =~= h + Seq::new(i as nat, |j: int| 0u16));
    }
    let mut rest = tail;
    g.append(&mut rest);
    assert(g@ =~= h + Seq::new((8 - h.len() - t.len()) as nat, |j: int| 0u16) + t);
    Some(g)
}

proof fn lemma_first_empty(f: Seq<Seq<char>>, i: int, j: int)
    requires
        0 <= i <= j <= f.len(),
        forall|t: int| i <= t < j ==> (#[trigger] f[t]).len() > 0,
        j < f.len() ==> f[j].len() == 0,
    ensures
        first_empty(f, i) == j,
    decreases j - i,
{
    if i < j {
        lemma_first_empty(f, i + 1, j);
    }
}

/// The groups behind the double colon that starts at the empty field `i`.
fn read_behind(f: &Vec<Vec<char>>, i: usize) -> (r: Option<Vec<u16>>)
    requires
        i + 1 < f@.len(),
    ensures
        r is Some <==> tail_groups_of(fields_behind(fields(f@), i as int)) is Some,
        r matches Some(g) ==> tail_groups_of(fields_behind(fields(f@), i as int)) == Some(g@),
{
    let n = f.len();
    if i + 1 == n - 1 && f[i + 1].len() == 0 {
        let g: Vec<u16> = Vec::new();
        assert(g@ =~= Seq::empty());
        Some(g)
    } else {
        read_tail(f, i + 1)
    }
}

pub(crate) fn read_v6(s: &Vec<char>) -> (r: Option<Vec<u16>>)
    ensures
        r is Some <==> v6_of(s@) is Some,
        r matches Some(g) ==> v6_of(s@) == Some(g@) && g@.len() == 8,
{
    let f = text::split_at(s, ':');
    let ghost fs = fields(f@);
    assert(fs =~= text::split(s@, ':'));
    let mut i: usize = 0;
    while i < f.len() && f[i].len() > 0
        invariant
            i <= f@.len(),
            fs == fields(f@),
            forall|t: int| 0 <= t < i ==> (#[trigger] fs[t]).len() > 0,
        decreases f@.len() - i,
    {
        assert(fs[i as int] == f@[i as int]@);
        i += 1;
    }
    assert(i < fs.len() ==> fs[i as int] == f@[i as int]@);
    proof {
        lemma_first_empty(fs, 0, i as int);
    }
    if i == f.len() {
        assert(fs.skip(0) =~= fs);
        match read_tail(&f, 0) {
            Some(g) => if g.len() == 8 {
                Some(g)
            } else {
                None
            },
            None => None,
        }
    } else if i == 0 {
        if f.len() > 2 && f[1].len() == 0 {
            match read_behind(&f, 1) {
                Some(t) => {
                    let none: Vec<u16> = Vec::new();
                    assert(none@ =~= Seq::empty());
                    fill_gap(none, t)
                },
                None => None,
            }
        } else {
            None
        }
    } else if i + 1 < f.len() {
        assert(fs.take(i as int) =~= fs.subrange(0, i as int));
        match (read_groups(&f, 0, i), read_behind(&f, i)) {
            (Some(h), Some(t)) => fill_gap(h, t),
            _ => None,
        }
    } else {
        None
    }
}

impl IpAddr {
    /// The address that `s` denotes: four octets in decimal, or eight groups
    /// in hexadecimal of which a double colon stands for a run of zeros.
    pub fn parse(s: &str) -> (r: Option<IpAddr>)
        ensures
            r == ip_of(s@),
    {
        let c = text::chars_of(s);
        match read_v4(&c) {
            Some((a, b, c2, d)) => Some(IpAddr::V4(a, b, c2, d)),
            None => match read_v6(&c) {
                Some(g) => Some(IpAddr::V6(g[0], g[1], g[2], g[3], g[4], g[5], g[6], g[7])),
                None => None,
            },
        }
    }
}

} // verus!
