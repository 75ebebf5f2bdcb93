//! Addresses come back from their text forms.
use vstd::prelude::*;

use crate::addr;
use crate::addr::{IpAddr, SocketAddr};
use crate::msg;
use crate::text;

verus! {

// ── numerals ────────────────────────────────────────────────────────────

/// Whether every character is a lower-case hexadecimal digit.
pub open spec fn all_digits(s: Seq<char>) -> bool {
    forall|i: int|
        0 <= i < s.len() ==> '0' <= #[trigger] s[i] <= '9' || 'a' <= s[i] <= 'f'
}

proof fn lemma_decimal(n: nat)
    ensures
        text::numeral_value(text::decimal(n), 10) == Some(n as int),
        all_digits(text::decimal(n)),
        text::decimal(n).len() >= 1,
        n > 0 ==> text::decimal(n)[0] != '0',
        n < 10 ==> text::decimal(n).len() == 1,
        10 <= n < 100 ==> text::decimal(n).len() == 2,
        100 <= n < 1000 ==> text::decimal(n).len() == 3,
    decreases n,
{
    let s = text::decimal(n);
    if n < 10 {
        assert(s.drop_last() =~= Seq::empty());
        assert(text::numeral_value(s.drop_last(), 10) == Some(0int));
        assert(text::digit_value(s.last(), 10) == Some(n as int));
    } else {
        lemma_decimal(n / 10);
        assert(s.drop_last() =~= text::decimal(n / 10));
        assert(s[0] == text::decimal(n / 10)[0]);
        assert(text::digit_value(s.last(), 10) == Some((n % 10) as int));
    }
}

proof fn lemma_hexadecimal(n: nat)
    ensures
        text::numeral_value(text::hexadecimal(n), 16) == Some(n as int),
        all_digits(text::hexadecimal(n)),
        text::hexadecimal(n).len() >= 1,
        n < 0x10 ==> text::hexadecimal(n).len() == 1,
        n < 0x100 ==> text::hexadecimal(n).len() <= 2,
        n < 0x1000 ==> text::hexadecimal(n).len() <= 3,
        n < 0x1_0000 ==> text::hexadecimal(n).len() <= 4,
    decreases n,
{
    let s = text::hexadecimal(n);
    if n < 16 {
        assert(s.drop_last() =~= Seq::empty());
        assert(text::numeral_value(s.drop_last(), 16) == Some(0int));
        assert(text::digit_value(s.last(), 16) == Some(n as int));
    } else {
        lemma_hexadecimal(n / 16);
        assert(s.drop_last() =~= text::hexadecimal(n / 16));
        assert(text::digit_value(s.last(), 16) == Some((n % 16) as int));
    }
}

proof fn lemma_octet(n: u8)
    ensures
        addr::octet(text::decimal(n as nat)) == Some(n),
{
    lemma_decimal(n as nat);
}

proof fn lemma_group(n: u16)
    ensures
        addr::group(text::hexadecimal(n as nat)) == Some(n),
        text::hexadecimal(n as nat).len() >= 1,
        all_digits(text::hexadecimal(n as nat)),
{
    lemma_hexadecimal(n as nat);
}

// ── fields ──────────────────────────────────────────────────────────────

proof fn lemma_split_plain(s: Seq<char>, c: char)
    requires
        forall|i: int| 0 <= i < s.len() ==> s[i] != c,
    ensures
        text::split(s, c) == seq![s],
    decreases s.len(),
{
    if s.len() == 0 {
        assert(s =~= Seq::empty());
    } else {
        lemma_split_plain(s.drop_last(), c);
        assert(s.drop_last().push(s.last()) =~= s);
        assert(text::split(s, c) =~= seq![s]);
    }
}

proof fn lemma_split_concat(a: Seq<char>, c: char, b: Seq<char>)
    ensures
        text::split(a + seq![c] + b, c) == text::split(a, c) + text::split(b, c),
    decreases b.len(),
{
    let s = a + seq![c] + b;
    text::lemma_split_not_empty(b, c);
    if b.len() == 0 {
        assert(s.drop_last() =~= a);
        assert(text::split(s, c) =~= text::split(a, c) + text::split(b, c));
    } else {
        lemma_split_concat(a, c, b.drop_last());
        text::lemma_split_not_empty(b.drop_last(), c);
        assert(s.drop_last() =~= a + seq![c] + b.drop_last());
        assert(text::split(s, c) =~= text::split(a, c) + text::split(b, c));
    }
}

// ── four octets ─────────────────────────────────────────────────────────

proof fn lemma_v4_fields(a: u8, b: u8, c: u8, d: u8)
    ensures
        text::split(addr::v4_text(a, b, c, d), '.') == seq![
            text::decimal(a as nat),
            text::decimal(b as nat),
            text::decimal(c as nat),
            text::decimal(d as nat),
        ],
        forall|i: int|
            0 <= i < addr::v4_text(a, b, c, d).len() ==> addr::v4_text(a, b, c, d)[i] != ':',
        addr::v4_text(a, b, c, d).len() > 0,
{
    let (x, y, z, w) = (
        text::decimal(a as nat),
        text::decimal(b as nat),
        text::decimal(c as nat),
        text::decimal(d as nat),
    );
    lemma_decimal(a as nat);
    lemma_decimal(b as nat);
    lemma_decimal(c as nat);
    lemma_decimal(d as nat);
    lemma_split_plain(x, '.');
    lemma_split_plain(y, '.');
    lemma_split_plain(z, '.');
    lemma_split_plain(w, '.');
    lemma_split_concat(x, '.', y);
    lemma_split_concat(x + seq!['.'] + y, '.', z);
    lemma_split_concat(x + seq!['.'] + y + seq!['.'] + z, '.', w);
    assert(text::split(addr::v4_text(a, b, c, d), '.') =~= seq![x, y, z, w]);
}

proof fn lemma_v4_roundtrip(a: u8, b: u8, c: u8, d: u8)
    ensures
        addr::v4_of(addr::v4_text(a, b, c, d)) == Some((a, b, c, d)),
{
    lemma_v4_fields(a, b, c, d);
    lemma_octet(a);
    lemma_octet(b);
    lemma_octet(c);
    lemma_octet(d);
}

// ── eight groups ────────────────────────────────────────────────────────

/// The fields of groups.
pub open spec fn hex_fields(g: Seq<u16>) -> Seq<Seq<char>> {
    Seq::new(g.len(), |i: int| text::hexadecimal(g[i] as nat))
}

proof fn lemma_groups_fields(g: Seq<u16>)
    requires
        g.len() > 0,
    ensures
        text::split(addr::groups_text(g), ':') == hex_fields(g),
    decreases g.len(),
{
    let last = text::hexadecimal(g.last() as nat);
    lemma_group(g.last());
    lemma_split_plain(last, ':');
    if g.len() == 1 {
        assert(hex_fields(g) =~= seq![last]);
    } else {
        lemma_groups_fields(g.drop_last());
        lemma_split_concat(addr::groups_text(g.drop_last()), ':', last);
        assert(hex_fields(g) =~= hex_fields(g.drop_last()) + seq![last]);
    }
}

proof fn lemma_groups_read(g: Seq<u16>)
    ensures
        addr::groups_of(hex_fields(g)) == Some(g),
    decreases g.len(),
{
    let f = hex_fields(g);
    if g.len() == 0 {
        assert(g =~= Seq::empty());
    } else {
        lemma_groups_read(g.drop_last());
        lemma_group(g.last());
        assert(f.drop_last() =~= hex_fields(g.drop_last()));
        assert(g.drop_last().push(g.last()) =~= g);
    }
}

proof fn lemma_group_is_no_v4(n: u16)
    ensures
        addr::v4_of(text::hexadecimal(n as nat)) is None,
{
    lemma_group(n);
    lemma_split_plain(text::hexadecimal(n as nat), '.');
}

proof fn lemma_tail_read(g: Seq<u16>)
    ensures
        addr::tail_groups_of(hex_fields(g)) == Some(g),
{
    lemma_groups_read(g);
    if g.len() > 0 {
        lemma_group_is_no_v4(g.last());
    }
}

proof fn lemma_no_dots(g: Seq<u16>)
    ensures
        forall|i: int| 0 <= i < addr::groups_text(g).len() ==> addr::groups_text(g)[i] != '.',
    decreases g.len(),
{
    if g.len() == 1 {
        lemma_group(g[0]);
    } else if g.len() > 1 {
        lemma_no_dots(g.drop_last());
        lemma_group(g.last());
        let (s, a, b) = (
            addr::groups_text(g),
            addr::groups_text(g.drop_last()),
            text::hexadecimal(g.last() as nat),
        );
        assert(s == a + seq![':'] + b);
        assert forall|i: int| 0 <= i < s.len() implies s[i] != '.' by {
            if i < a.len() {
                assert(s[i] == a[i]);
            } else if i > a.len() {
                assert(s[i] == b[i - a.len() - 1]);
            }
        }
    }
}

proof fn lemma_first_empty(f: Seq<Seq<char>>, i: int, k: int)
    requires
        0 <= i <= k <= f.len(),
        forall|j: int| 0 <= j < k ==> (#[trigger] f[j]).len() > 0,
        k < f.len() ==> f[k].len() == 0,
    ensures
        addr::first_empty(f, i) == k,
    decreases k - i,
{
    if i < k {
        lemma_first_empty(f, i + 1, k);
    }
}

proof fn lemma_zeros(g: Seq<u16>, i: int)
    requires
        0 <= i <= g.len(),
    ensures
        0 <= addr::zeros_at(g, i) <= g.len() - i,
        forall|j: int| i <= j < i + addr::zeros_at(g, i) ==> #[trigger] g[j] == 0,
    decreases g.len() - i,
{
    if i < g.len() && g[i] == 0 {
        lemma_zeros(g, i + 1);
    }
}

proof fn lemma_longest(g: Seq<u16>, n: int)
    requires
        0 <= n <= g.len(),
        g.len() > 0,
    ensures
        0 <= addr::longest_zeros(g, n) < g.len(),
    decreases n,
{
    if n > 1 {
        lemma_longest(g, n - 1);
    }
}

/// The fields of an empty or a longer list of groups.
proof fn lemma_part_fields(g: Seq<u16>)
    ensures
        text::split(addr::groups_text(g), ':') == (if g.len() == 0 {
            seq![Seq::<char>::empty()]
        } else {
            hex_fields(g)
        }),
{
    if g.len() > 0 {
        lemma_groups_fields(g);
    }
}

proof fn lemma_gap_fields(h: Seq<u16>, t: Seq<u16>)
    ensures
        text::split(addr::groups_text(h) + seq![':', ':'] + addr::groups_text(t), ':')
            == text::split(addr::groups_text(h), ':') + seq![Seq::<char>::empty()] + text::split(
            addr::groups_text(t),
            ':',
        ),
{
    let (x, y) = (addr::groups_text(h), addr::groups_text(t));
    let e = Seq::<char>::empty();
    lemma_split_concat(e, ':', y);
    lemma_split_concat(x, ':', e + seq![':'] + y);
    assert(x + seq![':', ':'] + y =~= x + seq![':'] + (e + seq![':'] + y));
    assert(text::split(x, ':') + (seq![e] + text::split(y, ':')) =~= text::split(x, ':') + seq![e]
        + text::split(y, ':'));
}

proof fn lemma_gap_roundtrip(h: Seq<u16>, n: int, t: Seq<u16>)
    requires
        n >= 2,
        h.len() + n + t.len() == 8,
    ensures
        addr::v6_of(addr::groups_text(h) + seq![':', ':'] + addr::groups_text(t)) == Some(
            h + Seq::new(n as nat, |i: int| 0u16) + t,
        ),
{
    let s = addr::groups_text(h) + seq![':', ':'] + addr::groups_text(t);
    let f = text::split(s, ':');
    let e = Seq::<char>::empty();
    lemma_gap_fields(h, t);
    lemma_part_fields(h);
    lemma_part_fields(t);
    lemma_groups_read(h);
    lemma_tail_read(t);
    let k = h.len() as int;
    let ft = if t.len() == 0 {
        seq![e]
    } else {
        hex_fields(t)
    };
    assert forall|j: int| 0 <= j < h.len() implies (#[trigger] hex_fields(h)[j]).len() > 0 by {
        lemma_group(h[j]);
    }
    if h.len() == 0 {
        assert(f =~= seq![e, e] + ft);
        lemma_first_empty(f, 0, 0);
        if t.len() > 0 {
            lemma_group(t[0]);
            assert(f[2] == hex_fields(t)[0]);
            assert(f.skip(2) =~= hex_fields(t));
            assert(addr::fields_behind(f, 1) == hex_fields(t));
        } else {
            assert(hex_fields(t) =~= Seq::empty());
            assert(addr::fields_behind(f, 1) =~= hex_fields(t));
        }
        assert(h =~= Seq::empty());
    } else {
        assert(f =~= hex_fields(h) + seq![e] + ft);
        assert forall|j: int| 0 <= j < k implies (#[trigger] f[j]).len() > 0 by {
            assert(f[j] == hex_fields(h)[j]);
        }
        assert(f[k] == e);
        lemma_first_empty(f, 0, k);
        assert(f.take(k) =~= hex_fields(h));
        if t.len() > 0 {
            lemma_group(t[0]);
            assert(f[k + 1] == hex_fields(t)[0]);
            assert(f.skip(k + 1) =~= hex_fields(t));
            assert(addr::fields_behind(f, k) == hex_fields(t));
        } else {
            assert(hex_fields(t) =~= Seq::empty());
            assert(addr::fields_behind(f, k) =~= hex_fields(t));
        }
    }
}

proof fn lemma_plain_roundtrip(g: Seq<u16>)
    requires
        g.len() == 8,
    ensures
        addr::v6_of(addr::groups_text(g)) == Some(g),
{
    lemma_groups_fields(g);
    lemma_tail_read(g);
    let f = hex_fields(g);
    assert forall|j: int| 0 <= j < 8 implies (#[trigger] f[j]).len() > 0 by {
        lemma_group(g[j]);
    }
    lemma_first_empty(f, 0, 8);
}

proof fn lemma_mapped_fields(w: Seq<char>)
    requires
        forall|i: int| 0 <= i < w.len() ==> w[i] != ':',
    ensures
        text::split("::ffff:"@ + w, ':') == seq![Seq::<char>::empty(), Seq::empty(), "ffff"@, w],
{
    reveal_strlit("::ffff:");
    reveal_strlit("ffff");
    let e = Seq::<char>::empty();
    let four = "ffff"@;
    lemma_split_plain(four, ':');
    lemma_split_plain(w, ':');
    lemma_split_concat(four, ':', w);
    lemma_split_concat(e, ':', four + seq![':'] + w);
    lemma_split_concat(e, ':', e + seq![':'] + (four + seq![':'] + w));
    assert("::ffff:"@ + w =~= e + seq![':'] + (e + seq![':'] + (four + seq![':'] + w)));
    assert(text::split("::ffff:"@ + w, ':') =~= seq![e, e, four, w]);
}

proof fn lemma_ffff()
    ensures
        addr::group("ffff"@) == Some(0xffffu16),
{
    reveal_strlit("ffff");
    let s = "ffff"@;
    let s3 = s.drop_last();
    let s2 = s3.drop_last();
    let s1 = s2.drop_last();
    assert(s1.drop_last() =~= Seq::empty());
    assert(text::numeral_value(s1, 16) == Some(15int)) by {
        assert(text::numeral_value(s1.drop_last(), 16) == Some(0int));
    }
    assert(text::numeral_value(s2, 16) == Some(255int));
    assert(text::numeral_value(s3, 16) == Some(4095int));
    assert(text::numeral_value(s, 16) == Some(65535int));
}

/// What stands behind the colons of an IPv4-mapped address.
proof fn lemma_mapped_tail(w: Seq<char>, a: u8, b: u8, c: u8, d: u8)
    requires
        addr::v4_of(w) == Some((a, b, c, d)),
    ensures
        addr::tail_groups_of(seq!["ffff"@, w]) == Some(
            seq![0xffffu16, (a * 256 + b) as u16, (c * 256 + d) as u16],
        ),
{
    let tail = seq!["ffff"@, w];
    let one = seq!["ffff"@];
    let none = Seq::<Seq<char>>::empty();
    lemma_ffff();
    assert(tail.drop_last() =~= one);
    assert(one.drop_last() =~= none);
    assert(addr::groups_of(none) == Some(Seq::<u16>::empty()));
    assert(addr::groups_of(one) == Some(Seq::<u16>::empty().push(0xffff)));
    assert(addr::tail_groups_of(tail)->0 =~= seq![
        0xffffu16,
        (a * 256 + b) as u16,
        (c * 256 + d) as u16,
    ]);
}

/// An IPv4-mapped address is read by its colons.
proof fn lemma_mapped_read(w: Seq<char>, a: u8, b: u8, c: u8, d: u8)
    requires
        addr::v4_of(w) == Some((a, b, c, d)),
        w.len() > 0,
        forall|i: int| 0 <= i < w.len() ==> w[i] != ':',
    ensures
        addr::v6_of("::ffff:"@ + w) == Some(
            seq![0u16, 0, 0, 0, 0, 0xffff, (a * 256 + b) as u16, (c * 256 + d) as u16],
        ),
{
    let s = "::ffff:"@ + w;
    lemma_mapped_fields(w);
    lemma_mapped_tail(w, a, b, c, d);
    let f = text::split(s, ':');
    assert(addr::first_empty(f, 0) == 0);
    assert(addr::fields_behind(f, 1) =~= seq!["ffff"@, w]) by {
        reveal_strlit("ffff");
    }
    let groups = seq![0xffffu16, (a * 256 + b) as u16, (c * 256 + d) as u16];
    assert(Seq::<u16>::empty() + Seq::new(5, |i: int| 0u16) + groups =~= seq![
        0u16,
        0,
        0,
        0,
        0,
        0xffff,
        (a * 256 + b) as u16,
        (c * 256 + d) as u16,
    ]);
}

/// As four octets the first field of an IPv4-mapped address is too long.
proof fn lemma_mapped_is_no_v4(a: u8, b: u8, c: u8, d: u8)
    ensures
        addr::v4_of("::ffff:"@ + addr::v4_text(a, b, c, d)) is None,
{
    let s = "::ffff:"@ + addr::v4_text(a, b, c, d);
    let x = text::decimal(a as nat);
    let rest = text::decimal(b as nat) + seq!['.'] + text::decimal(c as nat) + seq!['.']
        + text::decimal(d as nat);
    reveal_strlit("::ffff:");
    lemma_decimal(a as nat);
    lemma_split_plain("::ffff:"@ + x, '.');
    lemma_split_concat("::ffff:"@ + x, '.', rest);
    assert(s =~= ("::ffff:"@ + x) + seq!['.'] + rest);
    text::lemma_split_not_empty(rest, '.');
    assert(text::split(s, '.')[0] == "::ffff:"@ + x);
}

proof fn lemma_mapped_roundtrip(g: Seq<u16>)
    requires
        g.len() == 8,
        addr::is_mapped(g),
    ensures
        addr::v6_of(addr::v6_text(g)) == Some(g),
        addr::v4_of(addr::v6_text(g)) is None,
{
    let (a, b, c, d) = (
        (g[6] / 256) as u8,
        (g[6] % 256) as u8,
        (g[7] / 256) as u8,
        (g[7] % 256) as u8,
    );
    let w = addr::v4_text(a, b, c, d);
    lemma_v4_fields(a, b, c, d);
    lemma_v4_roundtrip(a, b, c, d);
    lemma_mapped_read(w, a, b, c, d);
    lemma_mapped_is_no_v4(a, b, c, d);
    assert(seq![0u16, 0, 0, 0, 0, 0xffff, (a * 256 + b) as u16, (c * 256 + d) as u16] =~= g);
}

proof fn lemma_v6_roundtrip(g: Seq<u16>)
    requires
        g.len() == 8,
    ensures
        addr::v6_of(addr::v6_text(g)) == Some(g),
        addr::v4_of(addr::v6_text(g)) is None,
{
    if addr::is_mapped(g) {
        lemma_mapped_roundtrip(g);
    } else {
        let i = addr::longest_zeros(g, 8);
        lemma_longest(g, 8);
        lemma_zeros(g, i);
        let n = addr::zeros_at(g, i);
        if n > 1 {
            let h = g.take(i);
            let t = g.skip(i + n);
            lemma_gap_roundtrip(h, n, t);
            assert(h + Seq::new(n as nat, |j: int| 0u16) + t =~= g);
            lemma_no_dots(h);
            lemma_no_dots(t);
        } else {
            lemma_plain_roundtrip(g);
            lemma_no_dots(g);
        }
        lemma_split_plain(addr::v6_text(g), '.');
    }
}

/// An address is read from its text form as it was.
pub proof fn law_address_text_roundtrip(ip: IpAddr)
    ensures
        addr::ip_of(ip.text()) == Some(ip),
{
    match ip {
        IpAddr::V4(a, b, c, d) => {
            lemma_v4_roundtrip(a, b, c, d);
        },
        IpAddr::V6(..) => {
            lemma_v6_roundtrip(ip.groups());
        },
    }
}

// ── with a port ─────────────────────────────────────────────────────────

/// Whether every character is a digit, a dot or a colon.
pub open spec fn address_characters(s: Seq<char>) -> bool {
    forall|i: int|
        0 <= i < s.len() ==> '0' <= #[trigger] s[i] <= '9' || 'a' <= s[i] <= 'f' || s[i] == '.'
            || s[i] == ':'
}

proof fn lemma_characters_concat(a: Seq<char>, b: Seq<char>)
    requires
        address_characters(a),
        address_characters(b),
    ensures
        address_characters(a + b),
{
    let s = a + b;
    assert forall|i: int| 0 <= i < s.len() implies '0' <= #[trigger] s[i] <= '9' || 'a' <= s[i]
        <= 'f' || s[i] == '.' || s[i] == ':' by {
        if i < a.len() {
            assert(s[i] == a[i]);
        } else {
            assert(s[i] == b[i - a.len()]);
        }
    }
}

proof fn lemma_v4_characters(a: u8, b: u8, c: u8, d: u8)
    ensures
        address_characters(addr::v4_text(a, b, c, d)),
{
    let (x, y, z, w) = (
        text::decimal(a as nat),
        text::decimal(b as nat),
        text::decimal(c as nat),
        text::decimal(d as nat),
    );
    lemma_decimal(a as nat);
    lemma_decimal(b as nat);
    lemma_decimal(c as nat);
    lemma_decimal(d as nat);
    let dot = seq!['.'];
    lemma_characters_concat(x, dot);
    lemma_characters_concat(x + dot, y);
    lemma_characters_concat(x + dot + y, dot);
    lemma_characters_concat(x + dot + y + dot, z);
    lemma_characters_concat(x + dot + y + dot + z, dot);
    lemma_characters_concat(x + dot + y + dot + z + dot, w);
}

proof fn lemma_groups_characters(g: Seq<u16>)
    ensures
        address_characters(addr::groups_text(g)),
    decreases g.len(),
{
    if g.len() == 1 {
        lemma_group(g[0]);
    } else if g.len() > 1 {
        lemma_groups_characters(g.drop_last());
        lemma_group(g.last());
        let colon = seq![':'];
        lemma_characters_concat(addr::groups_text(g.drop_last()), colon);
        lemma_characters_concat(
            addr::groups_text(g.drop_last()) + colon,
            text::hexadecimal(g.last() as nat),
        );
    }
}

proof fn lemma_v6_characters(g: Seq<u16>)
    ensures
        address_characters(addr::v6_text(g)),
{
    if addr::is_mapped(g) {
        reveal_strlit("::ffff:");
        lemma_v4_characters(
            (g[6] / 256) as u8,
            (g[6] % 256) as u8,
            (g[7] / 256) as u8,
            (g[7] % 256) as u8,
        );
        lemma_characters_concat(
            "::ffff:"@,
            addr::v4_text(
                (g[6] / 256) as u8,
                (g[6] % 256) as u8,
                (g[7] / 256) as u8,
                (g[7] % 256) as u8,
            ),
        );
    } else {
        let i = addr::longest_zeros(g, 8);
        let n = addr::zeros_at(g, i);
        lemma_groups_characters(g);
        lemma_groups_characters(g.take(i));
        lemma_groups_characters(g.skip(i + n));
        let colons = seq![':', ':'];
        lemma_characters_concat(addr::groups_text(g.take(i)), colons);
        lemma_characters_concat(
            addr::groups_text(g.take(i)) + colons,
            addr::groups_text(g.skip(i + n)),
        );
    }
}

proof fn lemma_v4_socket(ip: Seq<char>, q: (u8, u8, u8, u8), port: u16)
    requires
        addr::v4_of(ip) == Some(q),
        ip.len() > 0,
        forall|i: int| 0 <= i < ip.len() ==> ip[i] != ':',
        ip[0] != '[',
    ensures
        msg::socket_addr_of(ip + seq![':'] + text::decimal(port as nat)) == Some(
            SocketAddr { ip: IpAddr::V4(q.0, q.1, q.2, q.3), port },
        ),
{
    let p = text::decimal(port as nat);
    let s = ip + seq![':'] + p;
    lemma_decimal(port as nat);
    assert(s[0] == ip[0]);
    lemma_split_plain(ip, ':');
    lemma_split_plain(p, ':');
    lemma_split_concat(ip, ':', p);
    assert(text::split(s, ':') =~= seq![ip, p]);
}

proof fn lemma_v6_socket(ip: Seq<char>, g: Seq<u16>, port: u16)
    requires
        addr::v6_of(ip) == Some(g),
        address_characters(ip),
    ensures
        msg::socket_addr_of(seq!['['] + ip + seq![']', ':'] + text::decimal(port as nat)) == Some(
            SocketAddr { ip: addr::v6_with(g), port },
        ),
{
    let p = text::decimal(port as nat);
    let s = seq!['['] + ip + seq![']', ':'] + p;
    lemma_decimal(port as nat);
    let i = ip.len() as int + 1;
    assert(s[0] == '[');
    assert forall|t: int| 0 <= t < i implies s[t] != ']' by {
        if t > 0 {
            assert(s[t] == ip[t - 1]);
        }
    }
    assert(s[i] == ']' && s[i + 1] == ':');
    msg::lemma_first_of(s, ']', 0, i);
    assert(s.subrange(1, i) =~= ip);
    assert(s.skip(i + 2) =~= p);
    lemma_split_plain(ip, '%');
}

/// An address with its port is read from its text form as it was.
pub proof fn law_socket_address_text_roundtrip(a: SocketAddr)
    ensures
        msg::socket_addr_of(a.text()) == Some(a),
{
    match a.ip {
        IpAddr::V4(x, y, z, w) => {
            let ip = addr::v4_text(x, y, z, w);
            lemma_v4_characters(x, y, z, w);
            lemma_v4_roundtrip(x, y, z, w);
            lemma_v4_fields(x, y, z, w);
            lemma_v4_socket(ip, (x, y, z, w), a.port);
        },
        IpAddr::V6(..) => {
            let g = a.ip.groups();
            lemma_v6_characters(g);
            lemma_v6_roundtrip(g);
            lemma_v6_socket(addr::v6_text(g), g, a.port);
        },
    }
}

// ── canonical forms ─────────────────────────────────────────────────────

/// Numerals are read as the numbers that they were made from, and none has a
/// zero in front.
pub proof fn law_numerals_are_read_back(n: nat)
    ensures
        text::numeral_value(text::decimal(n), 10) == Some(n as int),
        text::numeral_value(text::hexadecimal(n), 16) == Some(n as int),
        n > 0 ==> text::decimal(n)[0] != '0',
        n > 0 ==> text::hexadecimal(n)[0] != '0',
        text::decimal(0) == seq!['0'] && text::hexadecimal(0) == seq!['0'],
{
    lemma_decimal(n);
    lemma_hexadecimal(n);
    lemma_hexadecimal_front(n);
    assert(text::decimal(0) =~= seq!['0']);
    assert(text::hexadecimal(0) =~= seq!['0']);
}

proof fn lemma_hexadecimal_front(n: nat)
    ensures
        text::hexadecimal(n).len() >= 1,
        n > 0 ==> text::hexadecimal(n)[0] != '0',
    decreases n,
{
    if n >= 16 {
        lemma_hexadecimal_front(n / 16);
    }
}

/// Where the double colon of an IPv6 text stands: it replaces a run of zero
/// groups that no other run exceeds in length, the first of such runs.
pub proof fn law_double_colon_is_longest(g: Seq<u16>, j: int)
    requires
        g.len() == 8,
        0 <= j < 8,
    ensures
        ({
            let i = addr::longest_zeros(g, 8);
            &&& 0 <= i < 8
            &&& addr::zeros_at(g, j) <= addr::zeros_at(g, i)
            &&& j < i ==> addr::zeros_at(g, j) < addr::zeros_at(g, i)
        }),
{
    lemma_longest_run(g, 8, j);
}

proof fn lemma_longest_run(g: Seq<u16>, n: int, j: int)
    requires
        1 <= n <= g.len(),
        0 <= j < n,
    ensures
        ({
            let i = addr::longest_zeros(g, n);
            &&& 0 <= i < n
            &&& addr::zeros_at(g, j) <= addr::zeros_at(g, i)
            &&& j < i ==> addr::zeros_at(g, j) < addr::zeros_at(g, i)
        }),
    decreases n,
{
    if n > 1 {
        let k = if j < n - 1 {
            j
        } else {
            0
        };
        lemma_longest_run(g, n - 1, k);
    }
}

/// A run of zeros is all zeros, and what stands behind it is none.
pub proof fn law_runs_are_zeros(g: Seq<u16>, i: int, k: int)
    requires
        0 <= i <= g.len(),
    ensures
        0 <= addr::zeros_at(g, i) <= g.len() - i,
        0 <= k < addr::zeros_at(g, i) ==> g[i + k] == 0,
        i + addr::zeros_at(g, i) < g.len() ==> g[i + addr::zeros_at(g, i)] != 0,
    decreases g.len() - i,
{
    if i < g.len() && g[i] == 0 {
        law_runs_are_zeros(g, i + 1, k - 1);
    }
}

/// An IPv6 text that is not an IPv4-mapped address is shortened just where two
/// or more zero groups stand together, and says nothing else than its groups.
pub proof fn law_v6_texts_are_shortened(g: Seq<u16>)
    requires
        g.len() == 8,
        !(g[0] == 0 && g[1] == 0 && g[2] == 0 && g[3] == 0 && g[4] == 0 && g[5] == 0xffff),
    ensures
        (forall|i: int| 0 <= i < 7 ==> !(#[trigger] g[i] == 0 && g[i + 1] == 0)) ==> addr::v6_text(
            g,
        ) == addr::groups_text(g),
        forall|i: int|
            0 <= i < 7 && #[trigger] g[i] == 0 && g[i + 1] == 0 ==> {
                let at = addr::longest_zeros(g, 8);
                let n = addr::zeros_at(g, at);
                n >= 2 && addr::v6_text(g) == addr::groups_text(g.take(at)) + seq![':', ':']
                    + addr::groups_text(g.skip(at + n))
            },
{
    let at = addr::longest_zeros(g, 8);
    let n = addr::zeros_at(g, at);
    lemma_longest(g, 8);
    law_runs_are_zeros(g, at, 0);
    law_runs_are_zeros(g, at, 1);
    if n >= 2 {
        assert(g[at] == 0 && g[at + 1] == 0);
    }
    assert forall|i: int| 0 <= i < 7 && #[trigger] g[i] == 0 && g[i + 1] == 0 implies n >= 2 by {
        law_double_colon_is_longest(g, i);
        assert(addr::zeros_at(g, i + 1) >= 1) by {
            law_runs_are_zeros(g, i + 2, 0);
        }
        law_runs_are_zeros(g, i + 1, 0);
    }
}

/// A double colon stands for the groups that are missing, wherever it stands.
pub proof fn law_double_colons_are_filled(h: Seq<u16>, n: int, t: Seq<u16>)
    requires
        n >= 2,
        h.len() + n + t.len() == 8,
    ensures
        addr::v6_of(addr::groups_text(h) + seq![':', ':'] + addr::groups_text(t)) == Some(
            h + Seq::new(n as nat, |i: int| 0u16) + t,
        ),
{
    lemma_gap_roundtrip(h, n, t);
}

/// The octets of an address: an IPv4 address has its four, an IPv6 address two
/// for each group, the higher first.
pub proof fn law_octets_are_in_order(ip: IpAddr, i: int)
    requires
        0 <= i < 8,
    ensures
        ip matches IpAddr::V4(a, b, c, d) ==> ip.octets() == seq![a, b, c, d],
        ip is V6 ==> ip.octets().len() == 16 && 256 * ip.octets()[2 * i] + ip.octets()[2 * i + 1]
            == ip.groups()[i],
{
    if ip is V6 {
        let o = ip.octets();
        let g = ip.groups();
        assert(i == 0 || i == 1 || i == 2 || i == 3 || i == 4 || i == 5 || i == 6 || i == 7);
        assert(256 * o[0] + o[1] == g[0] && 256 * o[2] + o[3] == g[1]);
        assert(256 * o[4] + o[5] == g[2] && 256 * o[6] + o[7] == g[3]);
        assert(256 * o[8] + o[9] == g[4] && 256 * o[10] + o[11] == g[5]);
        assert(256 * o[12] + o[13] == g[6] && 256 * o[14] + o[15] == g[7]);
    }
}

/// A host that is an address and its port are read back from the text that is
/// made of them; any other host stands before its port as it is.
pub proof fn law_host_and_port_are_read_back(host: Seq<char>, port: u16)
    ensures
        addr::ip_of(host) matches Some(ip) ==> msg::socket_addr_of(crate::host_port(host, port))
            == Some(SocketAddr { ip, port }),
        addr::ip_of(host) is None ==> crate::host_port(host, port) == host + seq![':']
            + text::decimal(port as nat),
{
    if addr::ip_of(host) is Some {
        law_socket_address_text_roundtrip(SocketAddr { ip: addr::ip_of(host)->0, port });
    }
}

/// A decimal numeral without a zero in front is the numeral of its number.
proof fn lemma_numeral_is_decimal(s: Seq<char>)
    requires
        s.len() >= 1,
        s.len() > 1 ==> s[0] != '0',
        text::numeral_value(s, 10) is Some,
    ensures
        text::numeral_value(s, 10)->0 >= 0,
        text::decimal(text::numeral_value(s, 10)->0 as nat) == s,
        s[0] != '0' ==> text::numeral_value(s, 10)->0 > 0,
    decreases s.len(),
{
    let t = s.drop_last();
    let n = text::numeral_value(s, 10)->0;
    let d = text::digit_value(s.last(), 10)->0;
    assert(0 <= d < 10);
    assert(text::digit(d) == s.last());
    if t.len() == 0 {
        assert(text::numeral_value(t, 10) == Some(0int));
        assert(text::decimal(n as nat) =~= s);
    } else {
        assert(t[0] == s[0]);
        lemma_numeral_is_decimal(t);
        let m = text::numeral_value(t, 10)->0;
        assert(n == m * 10 + d);
        assert(n / 10 == m && n % 10 == d);
        assert(text::decimal(n as nat) =~= text::decimal(m as nat).push(s.last()));
        assert(t.push(s.last()) =~= s);
    }
}

/// An IPv4 address has one text: every text that denotes one is the text form of
/// what it denotes.
pub proof fn law_v4_texts_are_strict(s: Seq<char>)
    requires
        addr::v4_of(s) is Some,
    ensures
        ({
            let (a, b, c, d) = addr::v4_of(s)->0;
            addr::v4_text(a, b, c, d) == s
        }),
{
    let f = text::split(s, '.');
    let (a, b, c, d) = addr::v4_of(s)->0;
    assert(addr::octet(f[0]) == Some(a) && addr::octet(f[1]) == Some(b) && addr::octet(f[2])
        == Some(c) && addr::octet(f[3]) == Some(d));
    lemma_numeral_is_decimal(f[0]);
    lemma_numeral_is_decimal(f[1]);
    lemma_numeral_is_decimal(f[2]);
    lemma_numeral_is_decimal(f[3]);
    text::law_split_parts_join(s, '.');
    let three = f.drop_last();
    let two = three.drop_last();
    let one = two.drop_last();
    assert(text::joined(one, '.') == f[0]);
    assert(text::joined(two, '.') == f[0].push('.') + f[1]);
    assert(text::joined(three, '.') == (f[0].push('.') + f[1]).push('.') + f[2]);
    assert(text::joined(f, '.') == ((f[0].push('.') + f[1]).push('.') + f[2]).push('.') + f[3]);
    assert(addr::v4_text(a, b, c, d) =~= s);
}

} // verus!
