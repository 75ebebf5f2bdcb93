//! PROXY protocol header builder (HAProxy PROXY protocol v1/v2).
//!
//! TCP sessions produce `TCP4/TCP6` lines (v1) or transport bytes 0x11/0x21
//! (v2); UDP sessions produce `PROXY UNKNOWN` (v1: the grammar has no UDP
//! line) or transport bytes 0x12/0x22 (v2).
use vstd::prelude::*;
use vstd::slice::slice_to_vec;
use vstd::string::*;

use crate::addr;
use crate::addr::IpAddr;
use crate::bytes;
use crate::text;

verus! {

/// Transport the PROXY header describes (TCP stream vs UDP datagram).
#[derive(Clone, Copy, PartialEq, Eq, Debug, Structural)]
pub enum ProxyTransport {
    /// TCP stream (`tcp`/`http`/`https`/`stcp`/`xtcp`/... proxies).
    Tcp,
    /// UDP datagram (`udp` proxies; the header prefixes the first packet of
    /// each remote session toward the local service).
    Udp,
}

/// What is said of a text that is no IP address.
pub open spec fn bad_address(which: Seq<char>) -> Seq<char> {
    which + "_addr parse: invalid IP address syntax"@
}

/// The address line of a TCP session: TCP4 where both addresses are IPv4
/// addresses, else TCP6. The addresses stand in it as they were given.
pub open spec fn tcp_line(
    src: Seq<char>,
    dst: Seq<char>,
    src_port: u16,
    dst_port: u16,
) -> Seq<char> {
    "PROXY "@ + (if addr::ip_of(src)->0 is V4 && addr::ip_of(dst)->0 is V4 {
        "TCP4"@
    } else {
        "TCP6"@
    }) + seq![' '] + src + seq![' '] + dst + seq![' '] + text::decimal(src_port as nat) + seq![' ']
        + text::decimal(dst_port as nat) + seq!['\r', '\n']
}

/// The v1 header, or why there is none.
pub open spec fn v1_header(
    src: Seq<char>,
    dst: Seq<char>,
    src_port: u16,
    dst_port: u16,
    transport: ProxyTransport,
) -> Result<Seq<char>, Seq<char>> {
    if transport == ProxyTransport::Udp {
        Ok("PROXY UNKNOWN\r\n"@)
    } else if addr::ip_of(src) is None {
        Err(bad_address("v1 src"@))
    } else if addr::ip_of(dst) is None {
        Err(bad_address("v1 dst"@))
    } else {
        Ok(tcp_line(src, dst, src_port, dst_port))
    }
}

/// The signature of a v2 header.
pub open spec fn v2_signature() -> Seq<u8> {
    seq![0x0Du8, 0x0A, 0x0D, 0x0A, 0x00, 0x0D, 0x0A, 0x51, 0x55, 0x49, 0x54, 0x0A]
}

/// The transport byte: the address family in the high nibble (1 = IPv4, 2 =
/// IPv6), the transport protocol in the low one (1 = stream, 2 = datagram).
pub open spec fn transport_byte(v4: bool, transport: ProxyTransport) -> u8 {
    match (v4, transport) {
        (true, ProxyTransport::Tcp) => 0x11,
        (true, ProxyTransport::Udp) => 0x12,
        (false, ProxyTransport::Tcp) => 0x21,
        (false, ProxyTransport::Udp) => 0x22,
    }
}

/// The bytes of a v2 header: signature, version and command, transport, length
/// of what follows, then addresses and ports.
pub open spec fn v2_bytes(
    src: IpAddr,
    dst: IpAddr,
    src_port: u16,
    dst_port: u16,
    transport: ProxyTransport,
) -> Seq<u8> {
    v2_signature() + seq![0x21u8, transport_byte(src is V4, transport)] + bytes::be16(
        if src is V4 {
            12
        } else {
            36
        },
    ) + src.octets() + dst.octets() + bytes::be16(src_port) + bytes::be16(dst_port)
}

/// The v2 header, or why there is none.
pub open spec fn v2_header(
    src: Seq<char>,
    dst: Seq<char>,
    src_port: u16,
    dst_port: u16,
    transport: ProxyTransport,
) -> Result<Seq<u8>, Seq<char>> {
    if addr::ip_of(src) is None {
        Err(bad_address("v2 src"@))
    } else if addr::ip_of(dst) is None {
        Err(bad_address("v2 dst"@))
    } else if (addr::ip_of(src)->0 is V4) != (addr::ip_of(dst)->0 is V4) {
        Err("v2 PROXY: mismatched address families (IPv4/IPv6)"@)
    } else {
        Ok(v2_bytes(addr::ip_of(src)->0, addr::ip_of(dst)->0, src_port, dst_port, transport))
    }
}

/// The header of the given version, or why there is none.
pub open spec fn header(
    src: Seq<char>,
    dst: Seq<char>,
    src_port: u16,
    dst_port: u16,
    version: Seq<char>,
    transport: ProxyTransport,
) -> Result<Seq<u8>, Seq<char>> {
    if version == "v1"@ {
        match v1_header(src, dst, src_port, dst_port, transport) {
            Ok(line) => Ok(vstd::utf8::encode_utf8(line)),
            Err(e) => Err(e),
        }
    } else if version == "v2"@ {
        v2_header(src, dst, src_port, dst_port, transport)
    } else {
        Err("unknown PROXY protocol version: "@ + version)
    }
}

/// The length that a v2 header states is that of what follows it.
pub proof fn law_v2_length_is_stated(
    src: IpAddr,
    dst: IpAddr,
    src_port: u16,
    dst_port: u16,
    transport: ProxyTransport,
)
    requires
        (src is V4) == (dst is V4),
    ensures
        v2_bytes(src, dst, src_port, dst_port, transport).len() == 16 + bytes::be16_at(
            v2_bytes(src, dst, src_port, dst_port, transport),
            14,
        ),
        v2_bytes(src, dst, src_port, dst_port, transport)[13] == transport_byte(src is V4, transport),
{
    let h = v2_bytes(src, dst, src_port, dst_port, transport);
    let n: u16 = if src is V4 {
        12
    } else {
        36
    };
    assert(h.subrange(14, 16) =~= bytes::be16(n));
    bytes::law_big_endian_roundtrip(h, 14, n, 0, 0);
}

/// Where each field of a v2 header stands: the signature, version 2 and the
/// command that proxies, family and transport, the length, the address of the
/// source, that of the destination, and their ports, highest byte first.
pub proof fn law_v2_layout(
    src: IpAddr,
    dst: IpAddr,
    src_port: u16,
    dst_port: u16,
    transport: ProxyTransport,
)
    requires
        (src is V4) == (dst is V4),
    ensures
        ({
            let h = v2_bytes(src, dst, src_port, dst_port, transport);
            let n: int = if src is V4 {
                4
            } else {
                16
            };
            &&& h.len() == 20 + 2 * n
            &&& h.take(12) == seq![
                0x0du8,
                0x0a,
                0x0d,
                0x0a,
                0x00,
                0x0d,
                0x0a,
                0x51,
                0x55,
                0x49,
                0x54,
                0x0a,
            ]
            &&& h[12] == 0x21
            &&& h[13] / 16 == (if src is V4 {
                1int
            } else {
                2
            })
            &&& h[13] % 16 == (if transport == ProxyTransport::Tcp {
                1int
            } else {
                2
            })
            &&& 256 * h[14] + h[15] == 2 * n + 4
            &&& h.subrange(16, 16 + n) == src.octets()
            &&& h.subrange(16 + n, 16 + 2 * n) == dst.octets()
            &&& 256 * h[16 + 2 * n] + h[17 + 2 * n] == src_port
            &&& 256 * h[18 + 2 * n] + h[19 + 2 * n] == dst_port
            &&& bytes::be16_at(h, 16 + 2 * n) == src_port
            &&& bytes::be16_at(h, 18 + 2 * n) == dst_port
        }),
{
    let h = v2_bytes(src, dst, src_port, dst_port, transport);
    let n: int = if src is V4 {
        4
    } else {
        16
    };
    assert(src.octets().len() == n && dst.octets().len() == n);
    assert(h.take(12) =~= v2_signature());
    assert(h.subrange(16, 16 + n) =~= src.octets());
    assert(h.subrange(16 + n, 16 + 2 * n) =~= dst.octets());
    let (p, q) = (bytes::be16(src_port), bytes::be16(dst_port));
    assert(h[16 + 2 * n] == p[0] && h[17 + 2 * n] == p[1]);
    assert(h[18 + 2 * n] == q[0] && h[19 + 2 * n] == q[1]);
}

/// The ends of a connection tell their roles apart: exchanging source and
/// destination exchanges their places in the header, and nothing else.
pub proof fn law_v2_roles_are_told_apart(
    src: IpAddr,
    dst: IpAddr,
    src_port: u16,
    dst_port: u16,
    transport: ProxyTransport,
)
    requires
        (src is V4) == (dst is V4),
        src.octets() != dst.octets() || src_port != dst_port,
    ensures
        v2_bytes(src, dst, src_port, dst_port, transport) != v2_bytes(
            dst,
            src,
            dst_port,
            src_port,
            transport,
        ),
{
    law_v2_layout(src, dst, src_port, dst_port, transport);
    law_v2_layout(dst, src, dst_port, src_port, transport);
}

/// A TCP line is six words with single spaces between them, ended by CR LF: the
/// addresses as they were given, source before destination, and the ports in
/// the same order. It says TCP4 just where both addresses are IPv4 addresses.
pub proof fn law_v1_layout(src: Seq<char>, dst: Seq<char>, src_port: u16, dst_port: u16)
    requires
        addr::ip_of(src) is Some,
        addr::ip_of(dst) is Some,
    ensures
        v1_header(src, dst, src_port, dst_port, ProxyTransport::Tcp) matches Ok(line) && {
            let sp = text::decimal(src_port as nat);
            let dp = text::decimal(dst_port as nat);
            let a = 11 + src.len() as int;
            let b = a + 1 + dst.len() as int;
            let c = b + 1 + sp.len() as int;
            let e = c + 1 + dp.len() as int;
            &&& line.len() == e + 2
            &&& line.take(9) == seq!['P', 'R', 'O', 'X', 'Y', ' ', 'T', 'C', 'P']
            &&& line[9] == (if addr::ip_of(src)->0 is V4 && addr::ip_of(dst)->0 is V4 {
                '4'
            } else {
                '6'
            })
            &&& line[10] == ' ' && line[a] == ' ' && line[b] == ' ' && line[c] == ' '
            &&& line.subrange(11, a) == src
            &&& line.subrange(a + 1, b) == dst
            &&& line.subrange(b + 1, c) == sp
            &&& line.subrange(c + 1, e) == dp
            &&& line[e] == '\r' && line[e + 1] == '\n'
        },
        v1_header(src, dst, src_port, dst_port, ProxyTransport::Udp) == Ok::<Seq<char>, Seq<char>>(
            "PROXY UNKNOWN\r\n"@,
        ),
{
    reveal_strlit("PROXY ");
    reveal_strlit("TCP4");
    reveal_strlit("TCP6");
    let line = tcp_line(src, dst, src_port, dst_port);
    let sp = text::decimal(src_port as nat);
    let dp = text::decimal(dst_port as nat);
    let a = 11 + src.len() as int;
    let b = a + 1 + dst.len() as int;
    let c = b + 1 + sp.len() as int;
    let e = c + 1 + dp.len() as int;
    assert(line.take(9) =~= seq!['P', 'R', 'O', 'X', 'Y', ' ', 'T', 'C', 'P']);
    assert(line.subrange(11, a) =~= src);
    assert(line.subrange(a + 1, b) =~= dst);
    assert(line.subrange(b + 1, c) =~= sp);
    assert(line.subrange(c + 1, e) =~= dp);
}

/// A header is made for every pair of addresses of one family, in both
/// versions; what is no address is refused in both, and a UDP session needs
/// none in the first.
pub proof fn law_headers_are_owed(
    src: Seq<char>,
    dst: Seq<char>,
    src_port: u16,
    dst_port: u16,
    transport: ProxyTransport,
)
    ensures
        ({
            let first = v1_header(src, dst, src_port, dst_port, transport);
            let second = v2_header(src, dst, src_port, dst_port, transport);
            let known = addr::ip_of(src) is Some && addr::ip_of(dst) is Some;
            &&& first is Ok <==> known || transport == ProxyTransport::Udp
            &&& second is Ok <==> known && (addr::ip_of(src)->0 is V4 <==> addr::ip_of(
                dst,
            )->0 is V4)
            &&& header(src, dst, src_port, dst_port, "v2"@, transport) == second
            &&& first matches Ok(line) ==> header(
                src,
                dst,
                src_port,
                dst_port,
                "v1"@,
                transport,
            ) == Ok::<Seq<u8>, Seq<char>>(vstd::utf8::encode_utf8(line))
        }),
{
    reveal_strlit("v1");
    reveal_strlit("v2");
    assert("v1"@[1] != "v2"@[1]);
}

/// Characters that a text which denotes an address has.
pub open spec fn address_char(c: char) -> bool {
    c == '.' || c == ':' || text::digit_value(c, 16) is Some
}

proof fn lemma_numeral_chars(s: Seq<char>, base: int)
    requires
        base <= 16,
        text::numeral_value(s, base) is Some,
    ensures
        forall|i: int| 0 <= i < s.len() ==> address_char(#[trigger] s[i]),
    decreases s.len(),
{
    if s.len() > 0 {
        lemma_numeral_chars(s.drop_last(), base);
        assert forall|i: int| 0 <= i < s.len() implies address_char(#[trigger] s[i]) by {
            if i < s.len() - 1 {
                assert(s.drop_last()[i] == s[i]);
            } else {
                assert(text::digit_value(s.last(), base) is Some);
            }
        }
    }
}

/// A text is its parts and what they were split at.
proof fn lemma_split_chars(s: Seq<char>, c: char)
    requires
        c == '.' || c == ':',
        forall|j: int|
            0 <= j < text::split(s, c).len() ==> forall|i: int|
                0 <= i < text::split(s, c)[j].len() ==> address_char(
                    #[trigger] (#[trigger] text::split(s, c)[j])[i],
                ),
    ensures
        forall|i: int| 0 <= i < s.len() ==> address_char(#[trigger] s[i]),
    decreases s.len(),
{
    if s.len() > 0 {
        let t = s.drop_last();
        let f = text::split(s, c);
        let ft = text::split(t, c);
        text::lemma_split_not_empty(t, c);
        assert forall|j: int| 0 <= j < ft.len() implies forall|i: int|
            0 <= i < ft[j].len() ==> address_char(#[trigger] (#[trigger] ft[j])[i]) by {
            assert forall|i: int| 0 <= i < ft[j].len() implies address_char(
                #[trigger] ft[j][i],
            ) by {
                assert(f[j][i] == ft[j][i]);
            }
        }
        lemma_split_chars(t, c);
        assert forall|i: int| 0 <= i < s.len() implies address_char(#[trigger] s[i]) by {
            if i < t.len() {
                assert(t[i] == s[i]);
            } else if s.last() != c {
                let last = f[ft.len() - 1];
                assert(last[last.len() - 1] == s.last());
            }
        }
    }
}

proof fn lemma_v4_chars(s: Seq<char>)
    requires
        addr::v4_of(s) is Some,
    ensures
        forall|i: int| 0 <= i < s.len() ==> address_char(#[trigger] s[i]),
{
    let f = text::split(s, '.');
    assert forall|j: int| 0 <= j < f.len() implies forall|i: int|
        0 <= i < f[j].len() ==> address_char(#[trigger] (#[trigger] f[j])[i]) by {
        assert(addr::octet(f[0]) is Some && addr::octet(f[1]) is Some && addr::octet(f[2]) is Some
            && addr::octet(f[3]) is Some);
        assert(addr::octet(f[j]) is Some);
        lemma_numeral_chars(f[j], 10);
    }
    lemma_split_chars(s, '.');
}

proof fn lemma_groups_chars(f: Seq<Seq<char>>, j: int)
    requires
        addr::groups_of(f) is Some,
        0 <= j < f.len(),
    ensures
        forall|i: int| 0 <= i < f[j].len() ==> address_char(#[trigger] f[j][i]),
    decreases f.len(),
{
    if j == f.len() - 1 {
        assert(addr::group(f.last()) is Some);
        lemma_numeral_chars(f[j], 16);
    } else {
        assert(f.drop_last()[j] == f[j]);
        lemma_groups_chars(f.drop_last(), j);
    }
}

proof fn lemma_tail_chars(f: Seq<Seq<char>>, j: int)
    requires
        addr::tail_groups_of(f) is Some,
        0 <= j < f.len(),
    ensures
        forall|i: int| 0 <= i < f[j].len() ==> address_char(#[trigger] f[j][i]),
{
    if addr::v4_of(f.last()) is Some {
        if j == f.len() - 1 {
            lemma_v4_chars(f[j]);
        } else {
            assert(f.drop_last()[j] == f[j]);
            lemma_groups_chars(f.drop_last(), j);
        }
    } else {
        lemma_groups_chars(f, j);
    }
}

proof fn lemma_v6_chars(s: Seq<char>)
    requires
        addr::v6_of(s) is Some,
    ensures
        forall|i: int| 0 <= i < s.len() ==> address_char(#[trigger] s[i]),
{
    let f = text::split(s, ':');
    let k = addr::first_empty(f, 0);
    lemma_first_empty_at(f, 0);
    assert forall|j: int| 0 <= j < f.len() implies forall|i: int|
        0 <= i < f[j].len() ==> address_char(#[trigger] (#[trigger] f[j])[i]) by {
        if k == f.len() {
            lemma_tail_chars(f, j);
        } else {
            let e = if k == 0 {
                1
            } else {
                k
            };
            let b = addr::fields_behind(f, e);
            if j < k {
                assert(f.take(k)[j] == f[j]);
                lemma_groups_chars(f.take(k), j);
            } else if j > e && b.len() > 0 {
                assert(b[j - e - 1] == f[j]);
                lemma_tail_chars(b, j - e - 1);
            }
        }
    }
    lemma_split_chars(s, ':');
}

proof fn lemma_first_empty_at(f: Seq<Seq<char>>, i: int)
    requires
        0 <= i <= f.len(),
    ensures
        i <= addr::first_empty(f, i) <= f.len(),
        addr::first_empty(f, i) < f.len() ==> f[addr::first_empty(f, i)].len() == 0,
    decreases f.len() - i,
{
    if i < f.len() && f[i].len() != 0 {
        lemma_first_empty_at(f, i + 1);
    }
}

/// Nothing but an address gets into a TCP line where an address belongs: a text
/// that denotes one has only hexadecimal digits, dots and colons, so neither a
/// line end nor a space can come with it.
pub proof fn law_addresses_cannot_break_the_line(s: Seq<char>)
    requires
        addr::ip_of(s) is Some,
    ensures
        forall|i: int|
            0 <= i < s.len() ==> address_char(#[trigger] s[i]) && s[i] != '\r' && s[i] != '\n'
                && s[i] != ' ',
{
    if addr::v4_of(s) is Some {
        lemma_v4_chars(s);
    } else {
        lemma_v6_chars(s);
    }
}

// ── building ────────────────────────────────────────────────────────────

/// TCP-stream form of the v1 builder. UDP callers must use
/// [`build_proxy_protocol_header`] with [`ProxyTransport::Udp`]: the v1 grammar
/// has no UDP address line.
///
/// Both addresses must denote IP addresses; an unparsable one is rejected, so
/// that none with a line end in it can reach the wire.
pub fn build_proxy_protocol_v1(
    src_addr: &str,
    dst_addr: &str,
    src_port: u16,
    dst_port: u16,
) -> (r: Result<String, String>)
    ensures
        match v1_header(src_addr@, dst_addr@, src_port, dst_port, ProxyTransport::Tcp) {
            Ok(line) => r is Ok && r->Ok_0@ == line,
            Err(e) => r is Err && r->Err_0@ == e,
        },
{
    build_proxy_protocol_v1_with(src_addr, dst_addr, src_port, dst_port, ProxyTransport::Tcp)
}

fn unparsable(which: &str) -> (r: String)
    ensures
        r@ == bad_address(which@),
{
    let mut e = which.to_owned();
    text::push_str(&mut e, "_addr parse: invalid IP address syntax");
    e
}

fn build_proxy_protocol_v1_with(
    src_addr: &str,
    dst_addr: &str,
    src_port: u16,
    dst_port: u16,
    transport: ProxyTransport,
) -> (r: Result<String, String>)
    ensures
        match v1_header(src_addr@, dst_addr@, src_port, dst_port, transport) {
            Ok(line) => r is Ok && r->Ok_0@ == line,
            Err(e) => r is Err && r->Err_0@ == e,
        },
{
    if transport == ProxyTransport::Udp {
        return Ok("PROXY UNKNOWN\r\n".to_owned());
    }
    let src_ip = match IpAddr::parse(src_addr) {
        Some(ip) => ip,
        None => {
            return Err(unparsable("v1 src"));
        },
    };
    let dst_ip = match IpAddr::parse(dst_addr) {
        Some(ip) => ip,
        None => {
            return Err(unparsable("v1 dst"));
        },
    };
    let mut line = "PROXY ".to_owned();
    if src_ip.is_ipv4() && dst_ip.is_ipv4() {
        text::push_str(&mut line, "TCP4");
    } else {
        // Mixed or IPv6 pairs use TCP6.
        text::push_str(&mut line, "TCP6");
    }
    line.push(' ');
    text::push_str(&mut line, src_addr);
    line.push(' ');
    text::push_str(&mut line, dst_addr);
    line.push(' ');
    text::push_decimal(&mut line, src_port as u64);
    line.push(' ');
    text::push_decimal(&mut line, dst_port as u64);
    line.push('\r');
    line.push('\n');
    assert(line@ =~= tcp_line(src_addr@, dst_addr@, src_port, dst_port));
    Ok(line)
}

/// TCP-stream form of the v2 builder. UDP callers must use
/// [`build_proxy_protocol_header`] with [`ProxyTransport::Udp`].
///
/// Format: 12-byte signature + 4-byte header block + address block.
pub fn build_proxy_protocol_v2(
    src_addr: &str,
    dst_addr: &str,
    src_port: u16,
    dst_port: u16,
) -> (r: Result<Vec<u8>, String>)
    ensures
        match v2_header(src_addr@, dst_addr@, src_port, dst_port, ProxyTransport::Tcp) {
            Ok(h) => r is Ok && r->Ok_0@ == h,
            Err(e) => r is Err && r->Err_0@ == e,
        },
{
    build_proxy_protocol_v2_with(src_addr, dst_addr, src_port, dst_port, ProxyTransport::Tcp)
}

fn build_proxy_protocol_v2_with(
    src_addr: &str,
    dst_addr: &str,
    src_port: u16,
    dst_port: u16,
    transport: ProxyTransport,
) -> (r: Result<Vec<u8>, String>)
    ensures
        match v2_header(src_addr@, dst_addr@, src_port, dst_port, transport) {
            Ok(h) => r is Ok && r->Ok_0@ == h,
            Err(e) => r is Err && r->Err_0@ == e,
        },
{
    let src_ip = match IpAddr::parse(src_addr) {
        Some(ip) => ip,
        None => {
            return Err(unparsable("v2 src"));
        },
    };
    let dst_ip = match IpAddr::parse(dst_addr) {
        Some(ip) => ip,
        None => {
            return Err(unparsable("v2 dst"));
        },
    };
    if src_ip.is_ipv4() != dst_ip.is_ipv4() {
        return Err("v2 PROXY: mismatched address families (IPv4/IPv6)".to_owned());
    }
    let mut buf: Vec<u8> = vec![
        0x0D,
        0x0A,
        0x0D,
        0x0A,
        0x00,
        0x0D,
        0x0A,
        0x51,
        0x55,
        0x49,
        0x54,
        0x0A,
    ];
    assert(buf@ =~= v2_signature());
    // version (0x20) | command (0x01 = PROXY)
    buf.push(0x21);
    buf.push(
        match (src_ip.is_ipv4(), transport) {
            (true, ProxyTransport::Tcp) => 0x11,
            (true, ProxyTransport::Udp) => 0x12,
            (false, ProxyTransport::Tcp) => 0x21,
            (false, ProxyTransport::Udp) => 0x22,
        },
    );
    let addr_len: u16 = if src_ip.is_ipv4() {
        12
    } else {
        36
    };
    bytes::push_be16(&mut buf, addr_len);
    src_ip.push_octets(&mut buf);
    dst_ip.push_octets(&mut buf);
    bytes::push_be16(&mut buf, src_port);
    bytes::push_be16(&mut buf, dst_port);
    assert(buf@ =~= v2_bytes(src_ip, dst_ip, src_port, dst_port, transport));
    Ok(buf)
}

/// Build a PROXY protocol header, picking v1 or v2 based on version string and
/// the transport kind (TCP stream vs UDP datagram).
///
/// Returns the header bytes ready to write to a stream.
pub fn build_proxy_protocol_header(
    src_addr: &str,
    dst_addr: &str,
    src_port: u16,
    dst_port: u16,
    version: &str,
    transport: ProxyTransport,
) -> (r: Result<Vec<u8>, String>)
    ensures
        match header(src_addr@, dst_addr@, src_port, dst_port, version@, transport) {
            Ok(h) => r is Ok && r->Ok_0@ == h,
            Err(e) => r is Err && r->Err_0@ == e,
        },
{
    if text::same_text(version, "v1") {
        match build_proxy_protocol_v1_with(src_addr, dst_addr, src_port, dst_port, transport) {
            Ok(line) => Ok(slice_to_vec(line.as_str().as_bytes())),
            Err(e) => Err(e),
        }
    } else if text::same_text(version, "v2") {
        proof {
            reveal_strlit("v1");
            reveal_strlit("v2");
        }
        build_proxy_protocol_v2_with(src_addr, dst_addr, src_port, dst_port, transport)
    } else {
        let mut e = "unknown PROXY protocol version: ".to_owned();
        text::push_str(&mut e, version);
        Err(e)
    }
}

} // verus!
