//! PROXY protocol headers.
use frp_core::proxy_protocol::{
    build_proxy_protocol_header, build_proxy_protocol_v1, build_proxy_protocol_v2, ProxyTransport,
};

#[test]
fn test_v1_format() {
    let h = build_proxy_protocol_v1("10.0.0.1", "10.0.0.2", 1234, 5678).unwrap();
    assert_eq!(h, "PROXY TCP4 10.0.0.1 10.0.0.2 1234 5678\r\n");
}

#[test]
fn test_v1_ipv6_emits_tcp6() {
    // Either address being IPv6 selects TCP6.
    let h = build_proxy_protocol_v1("::1", "2001:db8::2", 1234, 5678).unwrap();
    assert_eq!(h, "PROXY TCP6 ::1 2001:db8::2 1234 5678\r\n");
    // Mixed families also use TCP6.
    let mixed = build_proxy_protocol_v1("10.0.0.1", "::1", 1234, 5678).unwrap();
    assert_eq!(mixed, "PROXY TCP6 10.0.0.1 ::1 1234 5678\r\n");
}

#[test]
fn test_v1_rejects_unparsable_addrs() {
    let crlf = build_proxy_protocol_v1(
        "10.0.0.1\r\nPROXY TCP4 9.9.9.9 9.9.9.9 1 1",
        "10.0.0.2",
        1,
        2,
    );
    assert!(crlf.is_err(), "CRLF-bearing src_addr must be rejected");

    let hostname = build_proxy_protocol_v1("example.com", "10.0.0.2", 1, 2);
    assert!(hostname.is_err(), "hostname src_addr must be rejected");

    let bad_dst = build_proxy_protocol_v1("10.0.0.1", "not-an-ip\r\n", 1, 2);
    assert!(bad_dst.is_err(), "unparsable dst_addr must be rejected");

    let ok = build_proxy_protocol_v1("10.0.0.1", "10.0.0.2", 0, 0).unwrap();
    assert_eq!(ok, "PROXY TCP4 10.0.0.1 10.0.0.2 0 0\r\n");
}

#[test]
fn test_v2_tcpv4_binary() {
    let h = build_proxy_protocol_v2("10.0.0.1", "10.0.0.2", 1234, 5678).unwrap();
    // 12 sig + 4 hdr + 12 addr = 28 bytes
    assert_eq!(h.len(), 28);
    // Check signature
    assert_eq!(
        &h[..12],
        b"\x0D\x0A\x0D\x0A\x00\x0D\x0A\x51\x55\x49\x54\x0A"
    );
    // Version+command byte
    assert_eq!(h[12], 0x21);
    // Transport byte (TCPv4)
    assert_eq!(h[13], 0x11);
    // Address length (12)
    assert_eq!(u16::from_be_bytes([h[14], h[15]]), 12);
}

#[test]
fn test_v2_tcpv6_binary() {
    let h = build_proxy_protocol_v2("::1", "::1", 8080, 9090).unwrap();
    // 12 sig + 4 hdr + 36 addr = 52 bytes
    assert_eq!(h.len(), 52);
    assert_eq!(h[13], 0x21); // TCPv6
    assert_eq!(u16::from_be_bytes([h[14], h[15]]), 36);
}

#[test]
fn test_v2_mismatched_families() {
    let r = build_proxy_protocol_v2("10.0.0.1", "::1", 1, 2);
    assert!(r.is_err());
    assert!(r.unwrap_err().contains("mismatched"));
}

#[test]
fn test_unified_v1() {
    let h =
        build_proxy_protocol_header("10.0.0.1", "10.0.0.2", 1, 2, "v1", ProxyTransport::Tcp)
            .unwrap();
    assert_eq!(h, b"PROXY TCP4 10.0.0.1 10.0.0.2 1 2\r\n");
    // The unified builder rejects unparsable addrs too.
    let bad = build_proxy_protocol_header(
        "10.0.0.1\r\n",
        "10.0.0.2",
        1,
        2,
        "v1",
        ProxyTransport::Tcp,
    );
    assert!(bad.is_err(), "unified v1 must reject CRLF-bearing src_addr");
}

#[test]
fn test_unified_v2() {
    let h =
        build_proxy_protocol_header("10.0.0.1", "10.0.0.2", 1, 2, "v2", ProxyTransport::Tcp)
            .unwrap();
    assert_eq!(h.len(), 28);
    assert_eq!(h[13], 0x11);
}

#[test]
fn test_unified_unknown_version() {
    let r = build_proxy_protocol_header("1.1.1.1", "2.2.2.2", 1, 2, "v3", ProxyTransport::Tcp);
    assert!(r.is_err());
}

#[test]
fn test_udp_v1_emits_unknown_short_form() {
    let h = build_proxy_protocol_header(
        "10.0.0.1",
        "10.0.0.2",
        1234,
        5678,
        "v1",
        ProxyTransport::Udp,
    )
    .unwrap();
    assert_eq!(h, b"PROXY UNKNOWN\r\n");

    // Family-independent: an IPv6 pair yields the same short form.
    let h6 = build_proxy_protocol_header(
        "::1",
        "2001:db8::2",
        1234,
        5678,
        "v1",
        ProxyTransport::Udp,
    )
    .unwrap();
    assert_eq!(h6, b"PROXY UNKNOWN\r\n");

    let hostile = build_proxy_protocol_header(
        "10.0.0.1\r\nPROXY TCP4 9.9.9.9 9.9.9.9 1 1",
        "10.0.0.2",
        1,
        2,
        "v1",
        ProxyTransport::Udp,
    )
    .unwrap();
    assert_eq!(hostile, b"PROXY UNKNOWN\r\n");
}

#[test]
fn test_udp_v2_datagram_transport_bytes() {
    let h = build_proxy_protocol_header(
        "10.0.0.1",
        "10.0.0.2",
        1234,
        5678,
        "v2",
        ProxyTransport::Udp,
    )
    .unwrap();
    // 12 sig + 4 hdr + 12 addr = 28 bytes
    assert_eq!(h.len(), 28);
    assert_eq!(
        &h[..12],
        b"\x0D\x0A\x0D\x0A\x00\x0D\x0A\x51\x55\x49\x54\x0A",
        "v2 signature"
    );
    assert_eq!(h[12], 0x21, "version+command byte");
    assert_eq!(h[13], 0x12, "UDPv4 transport byte");
    assert_eq!(u16::from_be_bytes([h[14], h[15]]), 12, "addr len");
    assert_eq!(&h[16..20], &[10, 0, 0, 1], "src IP");
    assert_eq!(&h[20..24], &[10, 0, 0, 2], "dst IP");
    assert_eq!(u16::from_be_bytes([h[24], h[25]]), 1234, "src port");
    assert_eq!(u16::from_be_bytes([h[26], h[27]]), 5678, "dst port");

    let h6 = build_proxy_protocol_header("::1", "::1", 8080, 9090, "v2", ProxyTransport::Udp)
        .unwrap();
    // 12 sig + 4 hdr + 36 addr = 52 bytes
    assert_eq!(h6.len(), 52);
    assert_eq!(h6[13], 0x22, "UDPv6 transport byte");
    assert_eq!(u16::from_be_bytes([h6[14], h6[15]]), 36, "addr len");
}

#[test]
fn test_udp_v2_mismatched_families_rejected() {
    let r = build_proxy_protocol_header("10.0.0.1", "::1", 1, 2, "v2", ProxyTransport::Udp);
    assert!(r.is_err());
    assert!(r.unwrap_err().contains("mismatched"));
}

#[test]
fn v2_addresses_stand_in_network_order() {
    let h = build_proxy_protocol_v2("1.2.3.4", "5.6.7.8", 0x0102, 0x0304).unwrap();
    assert_eq!(&h[16..], &[1, 2, 3, 4, 5, 6, 7, 8, 1, 2, 3, 4]);
}

#[test]
fn stated_length_is_the_length_of_the_rest() {
    for (a, b) in [("10.0.0.1", "10.0.0.2"), ("::1", "fe80::2")] {
        let h = build_proxy_protocol_v2(a, b, 1, 2).unwrap();
        assert_eq!(u16::from_be_bytes([h[14], h[15]]) as usize, h.len() - 16);
    }
}

#[test]
fn unknown_version_is_named() {
    let r = build_proxy_protocol_header("1.1.1.1", "2.2.2.2", 1, 2, "v3", ProxyTransport::Udp);
    assert_eq!(r.unwrap_err(), "unknown PROXY protocol version: v3");
}
