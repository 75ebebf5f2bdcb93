//! Message kinds and addresses.
use frp_core::msg::{
    parse_socket_addr, FrpMessage, MsgKind, Ping, UdpAddr, TYPE_CLOSE_PROXY, TYPE_CLOSE_PROXY_RESP,
    TYPE_ERROR, TYPE_LOGIN, TYPE_LOGIN_RESP, TYPE_NAT_HOLE_CLIENT, TYPE_NAT_HOLE_REPORT,
    TYPE_NAT_HOLE_RESP, TYPE_NAT_HOLE_SID, TYPE_NAT_HOLE_VISITOR, TYPE_NEW_PROXY,
    TYPE_NEW_PROXY_RESP, TYPE_NEW_VISITOR_CONN, TYPE_NEW_VISITOR_CONN_RESP, TYPE_NEW_WORK_CONN,
    TYPE_PING, TYPE_PONG, TYPE_REQ_WORK_CONN, TYPE_START_WORK_CONN, TYPE_UDP_PACKET,
};

#[test]
fn test_frp_message_v1_type_bytes() {
    // Verify every known type byte maps to the correct variant
    let cases: Vec<(u8, &str)> = vec![
        (TYPE_LOGIN, "Login"),
        (TYPE_LOGIN_RESP, "LoginResp"),
        (TYPE_NEW_PROXY, "NewProxy"),
        (TYPE_NEW_PROXY_RESP, "NewProxyResp"),
        (TYPE_CLOSE_PROXY, "CloseProxy"),
        (TYPE_CLOSE_PROXY_RESP, "CloseProxyResp"),
        (TYPE_NEW_WORK_CONN, "NewWorkConn"),
        (TYPE_REQ_WORK_CONN, "ReqWorkConn"),
        (TYPE_START_WORK_CONN, "StartWorkConn"),
        (TYPE_PING, "Ping"),
        (TYPE_PONG, "Pong"),
        (TYPE_NEW_VISITOR_CONN, "NewVisitorConn"),
        (TYPE_NEW_VISITOR_CONN_RESP, "NewVisitorConnResp"),
        (TYPE_UDP_PACKET, "UDPPacket"),
        (TYPE_NAT_HOLE_VISITOR, "NatHoleVisitor"),
        (TYPE_NAT_HOLE_CLIENT, "NatHoleClient"),
        (TYPE_NAT_HOLE_RESP, "NatHoleResp"),
        (TYPE_NAT_HOLE_SID, "NatHoleSid"),
        (TYPE_NAT_HOLE_REPORT, "NatHoleReport"),
        (TYPE_ERROR, "Error"),
    ];
    for (ty, label) in cases {
        let msg = FrpMessage::from_v1_type_byte(ty)
            .unwrap_or_else(|| panic!("from_v1_type_byte({})", ty));
        assert_eq!(
            msg.v1_type_byte(),
            ty,
            "v1_type_byte roundtrip for {}",
            label
        );
    }
}

#[test]
fn test_unknown_type_byte() {
    assert!(FrpMessage::from_v1_type_byte(0x00).is_none());
    assert!(FrpMessage::from_v1_type_byte(0xFF).is_none());
}

#[test]
fn test_udp_addr_from_string_ipv4() {
    let addr = UdpAddr::from_string("1.2.3.4:5678").expect("should parse IPv4:port");
    assert_eq!(addr.ip, "1.2.3.4");
    assert_eq!(addr.port, 5678);
    assert_eq!(addr.zone, "");
}

#[test]
fn test_udp_addr_from_string_ipv6() {
    let addr = UdpAddr::from_string("[::1]:9090").expect("should parse IPv6:port");
    assert_eq!(addr.ip, "::1");
    assert_eq!(addr.port, 9090);
    assert_eq!(addr.zone, "");
}

#[test]
fn test_udp_addr_from_string_invalid() {
    assert!(UdpAddr::from_string("not-an-address").is_none());
    assert!(UdpAddr::from_string("").is_none());
}

#[test]
fn test_udp_addr_to_string() {
    let addr = UdpAddr {
        ip: "192.168.1.1".into(),
        port: 3000,
        zone: String::new(),
    };
    assert_eq!(addr.to_text(), "192.168.1.1:3000");
}

#[test]
fn type_bytes_and_ids_name_one_kind() {
    let mut seen: Vec<u8> = Vec::new();
    for ty in 0..=255u8 {
        if let Some(k) = MsgKind::from_v1_type_byte(ty) {
            assert_eq!(k.v1_type_byte(), ty);
            assert!(!seen.contains(&ty));
            seen.push(ty);
        }
    }
    for id in 0..200u16 {
        if let Some(k) = MsgKind::from_v2_type_id(id) {
            assert_eq!(k.v2_type_id(), id);
        }
    }
}

#[test]
fn accessors_see_their_own_kind_alone() {
    let m = FrpMessage::Ping(Ping { privilege_key: None, timestamp: Some(42) });
    assert_eq!(m.as_ping().unwrap().timestamp, Some(42));
    assert!(m.as_login().is_none());
    assert!(m.as_pong().is_none());
    assert_eq!(m.v1_type_byte(), TYPE_PING);
}

#[test]
fn each_kind_has_at_most_its_own_accessor() {
    let cases: Vec<(u8, usize)> = vec![
        (TYPE_LOGIN, 0),
        (TYPE_LOGIN_RESP, 1),
        (TYPE_NEW_PROXY, 2),
        (TYPE_NEW_PROXY_RESP, 3),
        (TYPE_CLOSE_PROXY, 4),
        (TYPE_NEW_WORK_CONN, 5),
        (TYPE_START_WORK_CONN, 6),
        (TYPE_PING, 7),
        (TYPE_NEW_VISITOR_CONN, 8),
        (TYPE_NEW_VISITOR_CONN_RESP, 9),
        (TYPE_CLOSE_PROXY_RESP, 10),
        (TYPE_PONG, 11),
        (TYPE_ERROR, 12),
    ];
    for (ty, own) in cases {
        let m = FrpMessage::from_v1_type_byte(ty).unwrap();
        let seen = [
            m.as_login().is_some(),
            m.as_login_resp().is_some(),
            m.as_new_proxy().is_some(),
            m.as_new_proxy_resp().is_some(),
            m.as_close_proxy().is_some(),
            m.as_new_work_conn().is_some(),
            m.as_start_work_conn().is_some(),
            m.as_ping().is_some(),
            m.as_new_visitor_conn().is_some(),
            m.as_new_visitor_conn_resp().is_some(),
            m.as_close_proxy_resp().is_some(),
            m.as_pong().is_some(),
            m.as_error().is_some(),
        ];
        for (i, some) in seen.iter().enumerate() {
            assert_eq!(*some, i == own, "type {ty}, accessor {i}");
        }
    }
}

#[test]
fn socket_addresses_are_read_as_written() {
    let a = parse_socket_addr("[2001:db8::1]:443").unwrap();
    assert_eq!(a.port, 443);
    assert_eq!(a.to_text(), "[2001:db8::1]:443");
    assert_eq!(parse_socket_addr("10.0.0.1:65535").unwrap().to_text(), "10.0.0.1:65535");
    for bad in ["10.0.0.1", "10.0.0.1:65536", "10.0.0.256:1", "::1:80", "[::1]", "[::1]:", "1.2.3.4:"] {
        assert!(parse_socket_addr(bad).is_none(), "{bad}");
    }
}
