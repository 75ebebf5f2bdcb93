//! Base64 with the standard alphabet and padding: how bytes stand in messages.
use vstd::prelude::*;

use crate::text;

verus! {

/// The digit for a value below 64.
pub open spec fn digit(v: int) -> char {
    if v < 26 {
        ('A' as int + v) as char
    } else if v < 52 {
        ('a' as int + v - 26) as char
    } else if v < 62 {
        ('0' as int + v - 52) as char
    } else if v == 62 {
        '+'
    } else {
        '/'
    }
}

/// The value of a digit.
pub open spec fn value(c: char) -> Option<int> {
    if 'A' <= c && c <= 'Z' {
        Some(c as int - 'A' as int)
    } else if 'a' <= c && c <= 'z' {
        Some(c as int - 'a' as int + 26)
    } else if '0' <= c && c <= '9' {
        Some(c as int - '0' as int + 52)
    } else if c == '+' {
        Some(62)
    } else if c == '/' {
        Some(63)
    } else {
        None
    }
}

/// Bytes in base64: three bytes make four digits; the end is padded with `=`.
pub open spec fn encoded(b: Seq<u8>) -> Seq<char>
    decreases b.len(),
{
    if b.len() == 0 {
        Seq::empty()
    } else if b.len() == 1 {
        seq![digit(b[0] as int / 4), digit(b[0] as int % 4 * 16), '=', '=']
    } else if b.len() == 2 {
        seq![
            digit(b[0] as int / 4),
            digit(b[0] as int % 4 * 16 + b[1] as int / 16),
            digit(b[1] as int % 16 * 4),
            '=',
        ]
    } else {
        seq![
            digit(b[0] as int / 4),
            digit(b[0] as int % 4 * 16 + b[1] as int / 16),
            digit(b[1] as int % 16 * 4 + b[2] as int / 64),
            digit(b[2] as int % 64),
        ] + encoded(b.skip(3))
    }
}

/// What a final group of four characters stands for.
pub open spec fn last_group(s: Seq<char>) -> Option<Seq<u8>> {
    if value(s[0]) is None || value(s[1]) is None {
        None
    } else {
        let v0 = value(s[0])->0;
        let v1 = value(s[1])->0;
        if s[2] == '=' && s[3] == '=' {
            if v1 % 16 == 0 {
                Some(seq![(v0 * 4 + v1 / 16) as u8])
            } else {
                None
            }
        } else if value(s[2]) is None {
            None
        } else {
            let v2 = value(s[2])->0;
            if s[3] == '=' {
                if v2 % 4 == 0 {
                    Some(seq![(v0 * 4 + v1 / 16) as u8, (v1 % 16 * 16 + v2 / 4) as u8])
                } else {
                    None
                }
            } else {
                full_group(s)
            }
        }
    }
}

/// What four digits stand for.
pub open spec fn full_group(s: Seq<char>) -> Option<Seq<u8>> {
    if value(s[0]) is None || value(s[1]) is None || value(s[2]) is None || value(s[3]) is None {
        None
    } else {
        let v0 = value(s[0])->0;
        let v1 = value(s[1])->0;
        let v2 = value(s[2])->0;
        let v3 = value(s[3])->0;
        Some(
            seq![
                (v0 * 4 + v1 / 16) as u8,
                (v1 % 16 * 16 + v2 / 4) as u8,
                (v2 % 4 * 64 + v3) as u8,
            ],
        )
    }
}

/// What a text stands for: groups of four digits, the last one padded.
pub open spec fn decoded(s: Seq<char>) -> Option<Seq<u8>>
    decreases s.len(),
{
    if s.len() == 0 {
        Some(Seq::empty())
    } else if s.len() < 4 {
        None
    } else if s.len() == 4 {
        last_group(s)
    } else {
        match full_group(s) {
            Some(g) => match decoded(s.skip(4)) {
                Some(rest) => Some(g + rest),
                None => None,
            },
            None => None,
        }
    }
}

fn digit_of(v: u8) -> (r: char)
    requires
        v < 64,
    ensures
        r == digit(v as int),
{
    if v < 26 {
        (65 + v) as char
    } else if v < 52 {
        (71 + v) as char
    } else if v < 62 {
        (v - 4) as char
    } else if v == 62 {
        '+'
    } else {
        '/'
    }
}

fn value_of(c: char) -> (r: Option<u8>)
    ensures
        (match r {
            Some(v) => v < 64 && value(c) == Some(v as int),
            None => value(c) is None,
        }),
{
    let n = c as u32;
    if 65 <= n && n <= 90 {
        Some((n - 65) as u8)
    } else if 97 <= n && n <= 122 {
        Some((n - 71) as u8)
    } else if 48 <= n && n <= 57 {
        Some((n + 4) as u8)
    } else if c == '+' {
        Some(62)
    } else if c == '/' {
        Some(63)
    } else {
        None
    }
}

/// Bytes in base64.
pub fn encode(data: &[u8]) -> (r: String)
    ensures
        r@ == encoded(data@),
{
    let mut out = String::new();
    let mut i: usize = 0;
    let n = data.len();
    assert(data@.skip(0) =~= data@);
    assert(out@ + encoded(data@.skip(0)) =~= encoded(data@));
    while n - i >= 3
        invariant
            i <= n,
            n == data@.len(),
            out@ + encoded(data@.skip(i as int)) == encoded(data@),
        decreases n - i,
    {
        let a = data[i];
        let b = data[i + 1];
        let c = data[i + 2];
        let ghost rest = data@.skip(i as int);
        let ghost before = out@;
        assert(rest[0] == a && rest[1] == b && rest[2] == c);
        assert(rest.skip(3) =~= data@.skip(i + 3));
        out.push(digit_of(a / 4));
        out.push(digit_of(a % 4 * 16 + b / 16));
        out.push(digit_of(b % 16 * 4 + c / 64));
        out.push(digit_of(c % 64));
        i += 3;
        assert(out@ + encoded(data@.skip(i as int)) =~= before + encoded(rest));
    }
    let ghost rest = data@.skip(i as int);
    let ghost before = out@;
    if n - i == 1 {
        let a = data[i];
        assert(rest[0] == a);
        out.push(digit_of(a / 4));
        out.push(digit_of(a % 4 * 16));
        out.push('=');
        out.push('=');
    } else if n - i == 2 {
        let a = data[i];
        let b = data[i + 1];
        assert(rest[0] == a && rest[1] == b);
        out.push(digit_of(a / 4));
        out.push(digit_of(a % 4 * 16 + b / 16));
        out.push(digit_of(b % 16 * 4));
        out.push('=');
    }
    assert(out@ =~= before + encoded(rest));
    out
}

/// Appends what four digits stand for, if they are digits.
fn push_full(out: &mut Vec<u8>, c0: char, c1: char, c2: char, c3: char) -> (r: bool)
    ensures
        (match full_group(seq![c0, c1, c2, c3]) {
            Some(g) => r && final(out)@ == old(out)@ + g,
            None => !r && final(out)@ == old(out)@,
        }),
{
    match (value_of(c0), value_of(c1), value_of(c2), value_of(c3)) {
        (Some(v0), Some(v1), Some(v2), Some(v3)) => {
            out.push(v0 * 4 + v1 / 16);
            out.push(v1 % 16 * 16 + v2 / 4);
            out.push(v2 % 4 * 64 + v3);
            assert(out@ =~= old(out)@ + full_group(seq![c0, c1, c2, c3])->0);
            true
        },
        _ => false,
    }
}

/// Appends what a final group stands for, if it stands for anything.
fn push_last(out: &mut Vec<u8>, c0: char, c1: char, c2: char, c3: char) -> (r: bool)
    ensures
        (match last_group(seq![c0, c1, c2, c3]) {
            Some(g) => r && final(out)@ == old(out)@ + g,
            None => !r && final(out)@ == old(out)@,
        }),
{
    if c3 != '=' {
        if c2 == '=' {
            return false;
        }
        return push_full(out, c0, c1, c2, c3);
    }
    match (value_of(c0), value_of(c1)) {
        (Some(v0), Some(v1)) => {
            if c2 == '=' {
                if v1 % 16 != 0 {
                    return false;
                }
                out.push(v0 * 4 + v1 / 16);
            } else {
                match value_of(c2) {
                    Some(v2) => {
                        if v2 % 4 != 0 {
                            return false;
                        }
                        out.push(v0 * 4 + v1 / 16);
                        out.push(v1 % 16 * 16 + v2 / 4);
                    },
                    None => {
                        return false;
                    },
                }
            }
            assert(out@ =~= old(out)@ + last_group(seq![c0, c1, c2, c3])->0);
            true
        },
        _ => false,
    }
}

/// What a text in base64 stands for; `None` where it is no base64.
pub fn decode(s: &str) -> (r: Option<Vec<u8>>)
    ensures
        (match r {
            Some(b) => decoded(s@) == Some(b@),
            None => decoded(s@) is None,
        }),
{
    let c = text::chars_of(s);
    let n = c.len();
    let mut out: Vec<u8> = Vec::new();
    let mut i: usize = 0;
    assert(s@.skip(0) =~= s@);
    assert(forall|x: Seq<u8>| #[trigger] (Seq::<u8>::empty() + x) =~= x);
    while n - i > 4
        invariant
            i <= n,
            n == s@.len(),
            c@ == s@,
            decoded(s@) == (match decoded(s@.skip(i as int)) {
                Some(rest) => Some(out@ + rest),
                None => None,
            }),
        decreases n - i,
    {
        let ghost rest = s@.skip(i as int);
        let ghost before = out@;
        assert(rest[0] == s@[i as int] && rest[1] == s@[i + 1] && rest[2] == s@[i + 2] && rest[3]
            == s@[i + 3]);
        assert(rest.skip(4) =~= s@.skip(i + 4));
        if !push_full(&mut out, c[i], c[i + 1], c[i + 2], c[i + 3]) {
            return None;
        }
        i += 4;
        proof {
            let g = full_group(rest)->0;
            match decoded(s@.skip(i as int)) {
                Some(tail) => {
                    assert(before + (g + tail) =~= out@ + tail);
                },
                None => {},
            }
        }
    }
    let ghost rest = s@.skip(i as int);
    if n == i {
        assert(rest =~= Seq::empty());
        assert(out@ + Seq::<u8>::empty() =~= out@);
        return Some(out);
    }
    if n - i < 4 {
        return None;
    }
    assert(rest[0] == s@[i as int] && rest[1] == s@[i + 1] && rest[2] == s@[i + 2] && rest[3]
        == s@[i + 3]);
    assert(rest =~= seq![c@[i as int], c@[i + 1], c@[i + 2], c@[i + 3]]);
    if push_last(&mut out, c[i], c[i + 1], c[i + 2], c[i + 3]) {
        Some(out)
    } else {
        None
    }
}

proof fn lemma_digit_value(v: int)
    requires
        0 <= v < 64,
    ensures
        value(digit(v)) == Some(v),
        digit(v) != '=',
{
}

proof fn lemma_value_digit(c: char)
    requires
        value(c) is Some,
    ensures
        0 <= value(c)->0 < 64,
        digit(value(c)->0) == c,
{
}

/// Bytes come back from base64 as they were.
pub proof fn law_base64_roundtrip(b: Seq<u8>)
    ensures
        decoded(encoded(b)) == Some(b),
    decreases b.len(),
{
    let e = encoded(b);
    if b.len() == 0 {
        assert(b =~= Seq::empty());
    } else {
        let a = b[0] as int;
        lemma_digit_value(a / 4);
        if b.len() == 1 {
            lemma_digit_value(a % 4 * 16);
            assert(last_group(e)->0 =~= b);
        } else {
            let c = b[1] as int;
            lemma_digit_value(a % 4 * 16 + c / 16);
            if b.len() == 2 {
                lemma_digit_value(c % 16 * 4);
                assert(last_group(e)->0 =~= b);
            } else {
                let d = b[2] as int;
                lemma_digit_value(c % 16 * 4 + d / 64);
                lemma_digit_value(d % 64);
                let rest = encoded(b.skip(3));
                law_base64_roundtrip(b.skip(3));
                assert(e.skip(4) =~= rest);
                assert(full_group(e)->0 =~= b.take(3));
                assert(b.take(3) + b.skip(3) =~= b);
                if b.len() == 3 {
                    assert(b.skip(3) =~= Seq::empty());
                    assert(last_group(e) == full_group(e));
                    assert(b.take(3) =~= b);
                }
            }
        }
    }
}

proof fn lemma_regrouped(v0: int, v1: int, v2: int, v3: int)
    requires
        0 <= v0 < 64,
        0 <= v1 < 64,
        0 <= v2 < 64,
        0 <= v3 < 64,
    ensures
        ({
            let x = v0 * 4 + v1 / 16;
            let y = v1 % 16 * 16 + v2 / 4;
            let z = v2 % 4 * 64 + v3;
            &&& 0 <= x < 256 && 0 <= y < 256 && 0 <= z < 256
            &&& x / 4 == v0
            &&& x % 4 * 16 + y / 16 == v1
            &&& y % 16 * 4 + z / 64 == v2
            &&& z % 64 == v3
            &&& v1 % 16 == 0 ==> x % 4 * 16 == v1
            &&& v2 % 4 == 0 ==> y % 16 * 4 == v2
        }),
{
}

/// Four digits are written as they were read, whatever follows.
proof fn lemma_full_strict(s: Seq<char>, b: Seq<u8>)
    requires
        s.len() >= 4,
        full_group(s) is Some,
        b.len() >= 3,
        b.take(3) == full_group(s)->0,
    ensures
        encoded(b) == s.take(4) + encoded(b.skip(3)),
{
    lemma_value_digit(s[0]);
    lemma_value_digit(s[1]);
    lemma_value_digit(s[2]);
    lemma_value_digit(s[3]);
    lemma_regrouped(value(s[0])->0, value(s[1])->0, value(s[2])->0, value(s[3])->0);
    let g = full_group(s)->0;
    assert(b[0] == g[0] && b[1] == g[1] && b[2] == g[2]) by {
        let c = b.take(3);
        assert(c[0] == b[0] && c[1] == b[1] && c[2] == b[2]);
    }
    assert(encoded(b) =~= s.take(4) + encoded(b.skip(3)));
}

/// A padded group is written as it was read.
proof fn lemma_last_strict(s: Seq<char>)
    requires
        s.len() == 4,
        last_group(s) is Some,
        s[3] == '=',
    ensures
        encoded(last_group(s)->0) == s,
{
    let b = last_group(s)->0;
    lemma_value_digit(s[0]);
    lemma_value_digit(s[1]);
    let v0 = value(s[0])->0;
    let v1 = value(s[1])->0;
    if s[2] == '=' {
        lemma_regrouped(v0, v1, 0, 0);
        assert(encoded(b) =~= s);
    } else {
        lemma_value_digit(s[2]);
        let v2 = value(s[2])->0;
        lemma_regrouped(v0, v1, v2, 0);
        assert(encoded(b) =~= s);
    }
}

/// Nothing else stands for bytes than what they are written as: every text that
/// decodes is the encoding of what it decodes to.
pub proof fn law_base64_is_strict(s: Seq<char>)
    requires
        decoded(s) is Some,
    ensures
        encoded(decoded(s)->0) == s,
    decreases s.len(),
{
    let b = decoded(s)->0;
    if s.len() == 0 {
        assert(encoded(b) =~= s);
    } else if s.len() == 4 {
        if s[3] == '=' {
            lemma_last_strict(s);
        } else {
            assert(b.take(3) =~= full_group(s)->0);
            lemma_full_strict(s, b);
            assert(b.skip(3) =~= Seq::empty());
            assert(s.take(4) + encoded(b.skip(3)) =~= s);
        }
    } else {
        let rest = decoded(s.skip(4))->0;
        law_base64_is_strict(s.skip(4));
        assert(b.take(3) =~= full_group(s)->0);
        assert(b.skip(3) =~= rest);
        lemma_full_strict(s, b);
        assert(s.take(4) + s.skip(4) =~= s);
    }
}

/// The alphabet: capital letters, small letters, digits, plus and slash, in
/// this order.
pub proof fn law_base64_alphabet(v: int)
    requires
        0 <= v < 64,
    ensures
        digit(0) == 'A' && digit(25) == 'Z' && digit(26) == 'a' && digit(51) == 'z',
        digit(52) == '0' && digit(61) == '9' && digit(62) == '+' && digit(63) == '/',
        0 < v < 62 && v != 26 && v != 52 ==> digit(v) as int == digit(v - 1) as int + 1,
{
}

/// Three bytes and the four digits that they make are the same number, to the
/// base of 256 and of 64, highest first.
pub proof fn law_base64_groups_are_numbers(b: Seq<u8>)
    requires
        b.len() >= 3,
    ensures
        ({
            let e = encoded(b);
            &&& e.len() >= 4
            &&& value(e[0]) is Some && value(e[1]) is Some && value(e[2]) is Some && value(
                e[3],
            ) is Some
            &&& 262_144 * value(e[0])->0 + 4_096 * value(e[1])->0 + 64 * value(e[2])->0 + value(
                e[3],
            )->0 == 65_536 * b[0] + 256 * b[1] + b[2]
            &&& e.skip(4) == encoded(b.skip(3))
        }),
{
    let (x, y, z) = (b[0] as int, b[1] as int, b[2] as int);
    lemma_digit_value(x / 4);
    lemma_digit_value(x % 4 * 16 + y / 16);
    lemma_digit_value(y % 16 * 4 + z / 64);
    lemma_digit_value(z % 64);
    assert(encoded(b).skip(4) =~= encoded(b.skip(3)));
}

} // verus!
