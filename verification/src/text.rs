//! Text: numerals, joining and splitting.
use vstd::prelude::*;
use vstd::string::*;

verus! {

/// `String::push` of std: the character is appended, and nothing else changes.
pub assume_specification[ String::push ](s: &mut String, c: char)
    ensures
        final(s)@ == old(s)@.push(c),
;

/// The numeral of one digit, in lower case.
pub open spec fn digit(d: int) -> char {
    if d < 10 {
        ('0' as int + d) as char
    } else {
        ('a' as int + d - 10) as char
    }
}

/// `n` in decimal, without leading zeros.
pub open spec fn decimal(n: nat) -> Seq<char>
    decreases n,
{
    if n < 10 {
        seq![digit(n as int)]
    } else {
        decimal(n / 10).push(digit((n % 10) as int))
    }
}

/// `n` in lower-case hexadecimal, without leading zeros.
pub open spec fn hexadecimal(n: nat) -> Seq<char>
    decreases n,
{
    if n < 16 {
        seq![digit(n as int)]
    } else {
        hexadecimal(n / 16).push(digit((n % 16) as int))
    }
}

/// The lowest `width` hexadecimal digits of `n`.
pub open spec fn hex_digits(n: nat, width: nat) -> Seq<char>
    decreases width,
{
    if width == 0 {
        Seq::empty()
    } else {
        hex_digits(n / 16, (width - 1) as nat).push(digit((n % 16) as int))
    }
}

/// `bytes` in hexadecimal, two digits each.
pub open spec fn hex_of(bytes: Seq<u8>) -> Seq<char>
    decreases bytes.len(),
{
    if bytes.len() == 0 {
        Seq::empty()
    } else {
        hex_of(bytes.drop_last()) + hex_digits(bytes.last() as nat, 2)
    }
}

/// The parts of `s` between the occurrences of `c`.
pub open spec fn split(s: Seq<char>, c: char) -> Seq<Seq<char>>
    decreases s.len(),
{
    if s.len() == 0 {
        seq![Seq::empty()]
    } else {
        let parts = split(s.drop_last(), c);
        if s.last() == c {
            parts.push(Seq::empty())
        } else {
            parts.update(parts.len() - 1, parts.last().push(s.last()))
        }
    }
}

/// The value of a digit of the given base, if it is one.
pub open spec fn digit_value(c: char, base: int) -> Option<int> {
    let v = if '0' <= c <= '9' {
        c as int - '0' as int
    } else if 'a' <= c <= 'f' {
        c as int - 'a' as int + 10
    } else if 'A' <= c <= 'F' {
        c as int - 'A' as int + 10
    } else {
        16
    };
    if v < base {
        Some(v)
    } else {
        None
    }
}

/// The value of a numeral, if every character is a digit.
pub open spec fn numeral_value(s: Seq<char>, base: int) -> Option<int>
    decreases s.len(),
{
    if s.len() == 0 {
        Some(0)
    } else {
        match (numeral_value(s.drop_last(), base), digit_value(s.last(), base)) {
            (Some(n), Some(d)) => Some(n * base + d),
            _ => None,
        }
    }
}

/// Whether `s` occurs in `t`.
pub open spec fn occurs(t: Seq<char>, s: Seq<char>) -> bool {
    exists|i: int| 0 <= i && i + s.len() <= t.len() && #[trigger] t.subrange(i, i + s.len()) == s
}

pub(crate) proof fn lemma_split_not_empty(s: Seq<char>, c: char)
    ensures
        split(s, c).len() >= 1,
    decreases s.len(),
{
    if s.len() > 0 {
        lemma_split_not_empty(s.drop_last(), c);
    }
}

/// The characters of `s`.
pub(crate) fn chars_of(s: &str) -> (r: Vec<char>)
    ensures
        r@ == s@,
{
    let mut r: Vec<char> = Vec::new();
    for c in it: s.chars()
        invariant
            r@ == s@.take(it.index() as int),
            it.seq() == s@,
    {
        r.push(c);
        assert(r@ =~= s@.take(it.index() + 1));
    }
    assert(r@ =~= s@);
    r
}

/// The text with the characters `v`.
pub(crate) fn string_of(v: &[char]) -> (r: String)
    ensures
        r@ == v@,
{
    let mut r = String::new();
    let mut i: usize = 0;
    while i < v.len()
        invariant
            i <= v@.len(),
            r@ == v@.take(i as int),
        decreases v@.len() - i,
    {
        r.push(v[i]);
        i += 1;
        assert(r@ =~= v@.take(i as int));
    }
    assert(r@ =~= v@);
    r
}

/// Whether `a` and `b` hold the same text.
pub(crate) fn same_text(a: &str, b: &str) -> (r: bool)
    ensures
        r == (a@ == b@),
{
    a.to_owned() == b.to_owned()
}

/// Appends `s`.
pub(crate) fn push_str(out: &mut String, s: &str)
    ensures
        final(out)@ == old(out)@ + s@,
{
    out.append(s);
}

fn digit_char(d: u8) -> (c: char)
    requires
        d < 16,
    ensures
        c == digit(d as int),
{
    if d < 10 {
        (48u8 + d) as char
    } else {
        (87u8 + d) as char
    }
}

/// Appends `n` in decimal.
pub(crate) fn push_decimal(out: &mut String, n: u64)
    ensures
        final(out)@ == old(out)@ + decimal(n as nat),
    decreases n,
{
    if n >= 10 {
        push_decimal(out, n / 10);
    }
    out.push(digit_char((n % 10) as u8));
    assert(out@ =~= old(out)@ + decimal(n as nat));
}

/// Appends `n` in hexadecimal.
pub(crate) fn push_hexadecimal(out: &mut String, n: u64)
    ensures
        final(out)@ == old(out)@ + hexadecimal(n as nat),
    decreases n,
{
    if n >= 16 {
        push_hexadecimal(out, n / 16);
    }
    out.push(digit_char((n % 16) as u8));
    assert(out@ =~= old(out)@ + hexadecimal(n as nat));
}

/// Appends the lowest `width` hexadecimal digits of `n`.
pub(crate) fn push_hex_digits(out: &mut String, n: u64, width: usize)
    ensures
        final(out)@ == old(out)@ + hex_digits(n as nat, width as nat),
    decreases width,
{
    if width > 0 {
        push_hex_digits(out, n / 16, width - 1);
        out.push(digit_char((n % 16) as u8));
    }
    assert(out@ =~= old(out)@ + hex_digits(n as nat, width as nat));
}

/// The parts of `s` between the occurrences of `c`.
pub(crate) fn split_at(s: &Vec<char>, c: char) -> (r: Vec<Vec<char>>)
    ensures
        r@.len() == split(s@, c).len(),
        forall|i: int| 0 <= i < r@.len() ==> (#[trigger] r@[i])@ == split(s@, c)[i],
{
    let mut parts: Vec<Vec<char>> = Vec::new();
    let mut part: Vec<char> = Vec::new();
    let mut i: usize = 0;
    assert(s@.take(0) =~= Seq::empty());
    while i < s.len()
        invariant
            i <= s@.len(),
            parts@.len() + 1 == split(s@.take(i as int), c).len(),
            part@ == split(s@.take(i as int), c).last(),
            forall|j: int|
                0 <= j < parts@.len() ==> (#[trigger] parts@[j])@ == split(s@.take(i as int), c)[j],
        decreases s@.len() - i,
    {
        assert(s@.take(i + 1).drop_last() =~= s@.take(i as int));
        assert(s@.take(i + 1).last() == s@[i as int]);
        if s[i] == c {
            let mut done: Vec<char> = Vec::new();
            std::mem::swap(&mut done, &mut part);
            parts.push(done);
        } else {
            part.push(s[i]);
        }
        i += 1;
    }
    assert(s@.take(i as int) =~= s@);
    parts.push(part);
    parts
}

/// The value of a digit of the given base, if it is one.
pub(crate) fn digit_of(c: char, base: u32) -> (r: Option<u32>)
    requires
        base <= 16,
    ensures
        r is Some <==> digit_value(c, base as int) is Some,
        r matches Some(d) ==> d < base && digit_value(c, base as int) == Some(d as int),
{
    let v: u32 = if '0' <= c && c <= '9' {
        c as u32 - 48
    } else if 'a' <= c && c <= 'f' {
        c as u32 - 87
    } else if 'A' <= c && c <= 'F' {
        c as u32 - 55
    } else {
        16
    };
    if v < base {
        Some(v)
    } else {
        None
    }
}

/// The value of a numeral of at most four digits, if every character is one.
pub(crate) fn value_of(s: &Vec<char>, base: u32) -> (r: Option<u32>)
    requires
        base == 10 || base == 16,
        s@.len() <= 4,
    ensures
        r is Some <==> numeral_value(s@, base as int) is Some,
        r matches Some(n) ==> numeral_value(s@, base as int) == Some(n as int) && n <= 0xFFFF,
        r matches Some(n) ==> base == 10 && s@.len() <= 3 ==> n <= 999,
{
    let mut n: u32 = 0;
    let mut i: usize = 0;
    assert(s@.take(0) =~= Seq::empty());
    while i < s.len()
        invariant
            base == 10 || base == 16,
            i <= s@.len() <= 4,
            numeral_value(s@.take(i as int), base as int) == Some(n as int),
            i == 0 ==> n == 0,
            i == 1 ==> n < 16,
            i == 2 ==> n < 256,
            i == 3 ==> n < 4096,
            i == 4 ==> n < 65536,
            base == 10 && i == 1 ==> n < 10,
            base == 10 && i == 2 ==> n < 100,
            base == 10 && i == 3 ==> n < 1000,
        decreases s@.len() - i,
    {
        assert(s@.take(i + 1).drop_last() =~= s@.take(i as int));
        assert(s@.take(i + 1).last() == s@[i as int]);
        match digit_of(s[i], base) {
            Some(d) => {
                n = if base == 10 {
                    n * 10 + d
                } else {
                    n * 16 + d
                };
            },
            None => {
                proof {
                    lemma_not_a_numeral(s@, base as int, i + 1);
                }
                return None;
            },
        }
        i += 1;
    }
    assert(s@.take(i as int) =~= s@);
    Some(n)
}

proof fn lemma_not_a_numeral(s: Seq<char>, base: int, i: int)
    requires
        0 <= i <= s.len(),
        numeral_value(s.take(i), base) is None,
    ensures
        numeral_value(s, base) is None,
    decreases s.len(),
{
    if i < s.len() {
        assert(s.drop_last().take(i) =~= s.take(i));
        lemma_not_a_numeral(s.drop_last(), base, i);
    } else {
        assert(s.take(i) =~= s);
    }
}

/// Whether the characters `s` stand in `t` at `at`.
fn stands_at(t: &Vec<char>, at: usize, s: &Vec<char>) -> (r: bool)
    requires
        at + s@.len() <= t@.len(),
    ensures
        r == (t@.subrange(at as int, at + s@.len()) == s@),
{
    let mut i: usize = 0;
    let ghost part = t@.subrange(at as int, at + s@.len());
    while i < s.len()
        invariant
            i <= s@.len(),
            at + s@.len() <= t@.len(),
            part == t@.subrange(at as int, at + s@.len()),
            forall|j: int| 0 <= j < i ==> part[j] == s@[j],
        decreases s@.len() - i,
    {
        assert(part[i as int] == t@[at + i]);
        assert(at + i < t.len());
        if t[at + i] != s[i] {
            return false;
        }
        i += 1;
    }
    assert(part =~= s@);
    true
}

/// Whether `s` occurs in `t`.
pub(crate) fn contains(t: &str, s: &str) -> (r: bool)
    ensures
        r == occurs(t@, s@),
{
    let tc = chars_of(t);
    let sc = chars_of(s);
    if sc.len() > tc.len() {
        return false;
    }
    let last = tc.len() - sc.len();
    let mut i: usize = 0;
    while i <= last
        invariant
            tc@ == t@,
            sc@ == s@,
            last == tc@.len() - sc@.len(),
            i <= last + 1,
            last < usize::MAX || i <= last,
            forall|j: int| 0 <= j < i ==> #[trigger] t@.subrange(j, j + s@.len()) != s@,
        decreases last + 1 - i,
    {
        if stands_at(&tc, i, &sc) {
            return true;
        }
        if i == last {
            assert forall|j: int|
                0 <= j && j + s@.len() <= t@.len() implies #[trigger] t@.subrange(j, j + s@.len())
                != s@ by {}
            return false;
        }
        i += 1;
    }
    false
}

/// Whether `t` starts with `s`.
pub(crate) fn starts_with(t: &str, s: &str) -> (r: bool)
    ensures
        r == s@.is_prefix_of(t@),
{
    let tc = chars_of(t);
    let sc = chars_of(s);
    if sc.len() > tc.len() {
        return false;
    }
    let r = stands_at(&tc, 0, &sc);
    assert(t@.subrange(0, s@.len() as int) =~= t@.take(s@.len() as int));
    r
}

/// `n` in decimal, with zeros before it up to `width` digits.
pub open spec fn padded(n: nat, width: nat) -> Seq<char> {
    if decimal(n).len() >= width {
        decimal(n)
    } else {
        Seq::new((width - decimal(n).len()) as nat, |i: int| '0') + decimal(n)
    }
}

/// Appends `n` in decimal, with zeros before it up to `width` digits.
pub(crate) fn push_padded(out: &mut String, n: u64, width: usize)
    ensures
        final(out)@ == old(out)@ + padded(n as nat, width as nat),
{
    let mut num = String::new();
    push_decimal(&mut num, n);
    assert(num@ =~= decimal(n as nat));
    let len = num.as_str().unicode_len();
    let mut i: usize = len;
    assert(out@ =~= old(out)@ + Seq::new(0, |j: int| '0'));
    while i < width
        invariant
            len == decimal(n as nat).len(),
            len <= i,
            i <= width || i == len,
            out@ == old(out)@ + Seq::new((i - len) as nat, |j: int| '0'),
        decreases width - i,
    {
        out.push('0');
        i += 1;
        assert(out@ =~= old(out)@ + Seq::new((i - len) as nat, |j: int| '0'));
    }
    push_str(out, num.as_str());
    assert(out@ =~= old(out)@ + padded(n as nat, width as nat));
}

// ── laws ────────────────────────────────────────────────────────────────

/// Parts with a character between each two of them.
pub open spec fn joined(parts: Seq<Seq<char>>, c: char) -> Seq<char>
    decreases parts.len(),
{
    if parts.len() == 0 {
        Seq::empty()
    } else if parts.len() == 1 {
        parts[0]
    } else {
        joined(parts.drop_last(), c).push(c) + parts.last()
    }
}

/// Splitting takes out the character and nothing else: the parts do not hold it,
/// and joined with it they are the text.
pub proof fn law_split_parts_join(s: Seq<char>, c: char)
    ensures
        joined(split(s, c), c) == s,
        forall|i: int, j: int|
            0 <= i < split(s, c).len() && 0 <= j < split(s, c)[i].len() ==> #[trigger] split(
                s,
                c,
            )[i][j] != c,
    decreases s.len(),
{
    lemma_split_not_empty(s, c);
    if s.len() > 0 {
        let t = s.drop_last();
        let parts = split(t, c);
        let all = split(s, c);
        lemma_split_not_empty(t, c);
        law_split_parts_join(t, c);
        if s.last() == c {
            assert(all.drop_last() =~= parts);
            assert(joined(all, c) =~= s);
        } else {
            assert(all.drop_last() =~= parts.drop_last());
            assert(joined(all, c) =~= joined(parts, c).push(s.last()));
            assert(joined(all, c) =~= s);
        }
        assert forall|i: int, j: int|
            0 <= i < all.len() && 0 <= j < all[i].len() implies #[trigger] all[i][j] != c by {
            if i < parts.len() {
                if j < parts[i].len() {
                    assert(parts[i][j] != c);
                    assert(all[i][j] == parts[i][j]);
                }
            }
        }
    } else {
        assert(joined(split(s, c), c) =~= s);
    }
}

/// Bytes in hexadecimal are two digits each, and each pair is read as its byte.
pub proof fn law_hex_pairs_are_bytes(b: Seq<u8>, i: int)
    requires
        0 <= i < b.len(),
    ensures
        hex_of(b).len() == 2 * b.len(),
        ({
            let hi = digit_value(hex_of(b)[2 * i], 16);
            let lo = digit_value(hex_of(b)[2 * i + 1], 16);
            hi is Some && lo is Some && 16 * hi->0 + lo->0 == b[i]
        }),
    decreases b.len(),
{
    let n = b.len() - 1;
    let last = hex_digits(b.last() as nat, 2);
    reveal_with_fuel(hex_digits, 3);
    assert(last.len() == 2);
    lemma_hex_len(b.drop_last());
    if i < n {
        law_hex_pairs_are_bytes(b.drop_last(), i);
        assert(hex_of(b)[2 * i] == hex_of(b.drop_last())[2 * i]);
        assert(hex_of(b)[2 * i + 1] == hex_of(b.drop_last())[2 * i + 1]);
    } else {
        assert(hex_of(b)[2 * n] == last[0] && hex_of(b)[2 * n + 1] == last[1]);
    }
}

proof fn lemma_hex_len(b: Seq<u8>)
    ensures
        hex_of(b).len() == 2 * b.len(),
    decreases b.len(),
{
    if b.len() > 0 {
        lemma_hex_len(b.drop_last());
        reveal_with_fuel(hex_digits, 3);
    }
}

} // verus!
