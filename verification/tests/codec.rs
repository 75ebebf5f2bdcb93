use frp_core::addr::{IpAddr, SocketAddr};
use frp_core::base64;
use frp_core::kcp::socket::driver_may_exit;

#[test]
fn base64_known_texts() {
    assert_eq!(base64::encode(b""), "");
    assert_eq!(base64::encode(b"f"), "Zg==");
    assert_eq!(base64::encode(b"fo"), "Zm8=");
    assert_eq!(base64::encode(b"foo"), "Zm9v");
    assert_eq!(base64::encode(b"hello"), "aGVsbG8=");
    assert_eq!(base64::encode(&[0xfb, 0xff]), "+/8=");
}

#[test]
fn base64_decodes_what_it_encodes() {
    for len in 0..20usize {
        let data: Vec<u8> = (0..len).map(|i| (i * 37 + len * 11) as u8).collect();
        let text = base64::encode(&data);
        assert_eq!(base64::decode(&text), Some(data));
    }
}

#[test]
fn base64_rejects_other_texts() {
    for bad in ["Zg", "Zg=", "Zm9", "Zm9v=", "Z===", "====", "Zm 9", "Zm9v\n", "Zh==", "Zm9="] {
        assert_eq!(base64::decode(bad), None, "{bad}");
    }
}

#[test]
fn ip_addresses_keep_their_text() {
    for s in [
        "0.0.0.0",
        "192.168.1.254",
        "::",
        "::1",
        "fe80::1:2",
        "2001:db8::",
        "1:2:3:4:5:6:7:8",
        "2001:db8:0:1:1:1:1:1",
        "2001:0:0:1::1",
    ] {
        let ip = IpAddr::parse(s).unwrap();
        assert_eq!(ip.to_text(), s);
    }
}

#[test]
fn ip_addresses_that_are_none() {
    for s in ["", "1.2.3", "1.2.3.256", "01.2.3.4", "1.2.3.4.5", ":::", "1::2::3", "12345::", "g::"] {
        assert_eq!(IpAddr::parse(s), None, "{s}");
    }
}

#[test]
fn socket_addresses_keep_their_text() {
    let v4 = SocketAddr { ip: IpAddr::V4(127, 0, 0, 1), port: 7000 };
    assert_eq!(v4.to_text(), "127.0.0.1:7000");
    let v6 = SocketAddr { ip: IpAddr::V6(0, 0, 0, 0, 0, 0, 0, 1), port: 7000 };
    assert_eq!(v6.to_text(), "[::1]:7000");
    for a in [v4, v6] {
        assert_eq!(frp_core::msg::parse_socket_addr(&a.to_text()), Some(a));
    }
}

#[test]
fn a_driver_ends_when_nothing_is_left() {
    assert!(driver_may_exit(true, 0));
    assert!(!driver_may_exit(true, 1));
    assert!(!driver_may_exit(false, 0));
}
