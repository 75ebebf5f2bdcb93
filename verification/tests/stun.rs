//! STUN binding requests and responses.
use frp_core::addr::{IpAddr, SocketAddr};
use frp_core::stun::{
    accept_response, accept_response_full, bind_addresses, build_binding_request, describe_error,
    new_binding_request,
    parse_binding_response, parse_binding_response_full, parse_mapped_address,
    parse_xor_mapped_address, strip_stun_prefix, ATTR_CHANGED_ADDRESS, ATTR_ERROR_CODE,
    ATTR_MAPPED_ADDRESS, ATTR_OTHER_ADDRESS, ATTR_XOR_MAPPED_ADDRESS, MAGIC_COOKIE,
};

#[test]
fn test_build_binding_request() {
    let tx_id = [
        0x01, 0x02, 0x03, 0x04, 0x05, 0x06, 0x07, 0x08, 0x09, 0x0a, 0x0b, 0x0c,
    ];
    let pkt = build_binding_request(&tx_id);
    assert_eq!(pkt.len(), 20);
    assert_eq!(u16::from_be_bytes([pkt[0], pkt[1]]), 0x0001);
    assert_eq!(u16::from_be_bytes([pkt[2], pkt[3]]), 0);
    assert_eq!(
        u32::from_be_bytes([pkt[4], pkt[5], pkt[6], pkt[7]]),
        MAGIC_COOKIE
    );
    assert_eq!(&pkt[8..20], &tx_id);
}

#[test]
fn test_parse_mapped_address_ipv4() {
    let data = [0x00, 0x01, 0x1F, 0x90, 192, 168, 1, 1];
    let result = parse_mapped_address(&data);
    assert_eq!(result, Some("192.168.1.1:8080".to_string()));
}

#[test]
fn test_parse_mapped_address_ipv6() {
    let mut data = vec![0x00, 0x02, 0x1F, 0x90];
    data.extend_from_slice(&[
        0x20, 0x01, 0x0d, 0xb8, 0, 0, 0, 0, 0, 0, 0, 0, 0, 0, 0, 0x01,
    ]);
    let result = parse_mapped_address(&data);
    assert_eq!(result, Some("[2001:db8::1]:8080".to_string()));
}

#[test]
fn test_parse_mapped_address_too_short() {
    assert_eq!(parse_mapped_address(&[0x00, 0x01, 0x1F]), None);
    assert_eq!(
        parse_mapped_address(&[0x00, 0x01, 0x1F, 0x90, 192, 168]),
        None
    );
    assert_eq!(parse_mapped_address(&[0x00, 0x02, 0x1F, 0x90]), None);
}

#[test]
fn test_parse_mapped_address_unknown_family() {
    let data = [0x00, 0x03, 0x1F, 0x90, 0, 0, 0, 0];
    assert_eq!(parse_mapped_address(&data), None);
}

#[test]
fn test_parse_xor_mapped_address_ipv4() {
    let cookie: u32 = 0x2112A442;
    let cookie_hi = (cookie >> 16) as u16;
    let real_port: u16 = 8080;
    let xored_port = real_port ^ cookie_hi;
    let real_ip: [u8; 4] = [10, 0, 0, 1];
    let real_ip_u32 = u32::from_be_bytes(real_ip);
    let xored_ip = real_ip_u32 ^ cookie;

    let mut data = vec![0x00, 0x01];
    data.extend_from_slice(&xored_port.to_be_bytes());
    data.extend_from_slice(&xored_ip.to_be_bytes());

    let result = parse_xor_mapped_address(&data, cookie, &[0u8; 12]);
    assert_eq!(result, Some("10.0.0.1:8080".to_string()));
}

#[test]
fn test_parse_xor_mapped_address_too_short() {
    assert_eq!(
        parse_xor_mapped_address(&[0x00, 0x01, 0x1F], MAGIC_COOKIE, &[0u8; 12]),
        None
    );
    assert_eq!(
        parse_xor_mapped_address(&[0x00, 0x01, 0x1F, 0x90, 10, 0], MAGIC_COOKIE, &[0u8; 12]),
        None
    );
}

#[test]
fn test_parse_xor_mapped_address_unknown_family() {
    let data = [0x00, 0x03, 0x1F, 0x90, 0, 0, 0, 0];
    assert_eq!(
        parse_xor_mapped_address(&data, MAGIC_COOKIE, &[0u8; 12]),
        None
    );
}

fn build_binding_response(tx_id: &[u8; 12], attrs: &[u8]) -> Vec<u8> {
    let mut pkt = Vec::new();
    pkt.extend_from_slice(&0x0101u16.to_be_bytes());
    pkt.extend_from_slice(&(attrs.len() as u16).to_be_bytes());
    pkt.extend_from_slice(&MAGIC_COOKIE.to_be_bytes());
    pkt.extend_from_slice(tx_id);
    pkt.extend_from_slice(attrs);
    pkt
}

fn build_xor_mapped_attr(ip: &[u8; 4], port: u16) -> Vec<u8> {
    let cookie = MAGIC_COOKIE;
    let cookie_hi = (cookie >> 16) as u16;
    let xored_port = port ^ cookie_hi;
    let ip_u32 = u32::from_be_bytes(*ip);
    let xored_ip = ip_u32 ^ cookie;

    let mut attr = Vec::new();
    attr.extend_from_slice(&ATTR_XOR_MAPPED_ADDRESS.to_be_bytes());
    attr.extend_from_slice(&8u16.to_be_bytes());
    attr.push(0x00);
    attr.push(0x01);
    attr.extend_from_slice(&xored_port.to_be_bytes());
    attr.extend_from_slice(&xored_ip.to_be_bytes());
    attr
}

fn build_other_addr_attr(ip: &[u8; 4], port: u16) -> Vec<u8> {
    let cookie = MAGIC_COOKIE;
    let cookie_hi = (cookie >> 16) as u16;
    let xored_port = port ^ cookie_hi;
    let ip_u32 = u32::from_be_bytes(*ip);
    let xored_ip = ip_u32 ^ cookie;

    let mut attr = Vec::new();
    attr.extend_from_slice(&ATTR_OTHER_ADDRESS.to_be_bytes());
    attr.extend_from_slice(&8u16.to_be_bytes());
    attr.push(0x00);
    attr.push(0x01);
    attr.extend_from_slice(&xored_port.to_be_bytes());
    attr.extend_from_slice(&xored_ip.to_be_bytes());
    attr
}

#[test]
fn test_parse_binding_response_full_with_other_addr() {
    let tx_id = [0xBB; 12];
    let mapped_attr = build_xor_mapped_attr(&[10, 20, 30, 40], 12345);
    let other_attr = build_other_addr_attr(&[192, 168, 1, 1], 3478);
    let mut combined = mapped_attr;
    combined.extend_from_slice(&other_attr);
    let pkt = build_binding_response(&tx_id, &combined);

    let result = parse_binding_response_full(&pkt, &tx_id).unwrap();
    assert_eq!(result.mapped_addr, "10.20.30.40:12345");
    assert_eq!(result.other_addr, Some("192.168.1.1:3478".to_string()));
}

#[test]
fn test_parse_binding_response_full_no_other_addr() {
    let tx_id = [0xCC; 12];
    let attr = build_xor_mapped_attr(&[10, 20, 30, 40], 12345);
    let pkt = build_binding_response(&tx_id, &attr);

    let result = parse_binding_response_full(&pkt, &tx_id).unwrap();
    assert_eq!(result.mapped_addr, "10.20.30.40:12345");
    assert_eq!(result.other_addr, None);
}

#[test]
fn test_parse_binding_response_full_other_addr_mapped_fallback() {
    // OTHER-ADDRESS present, but no XOR-MAPPED-ADDRESS → fall back to MAPPED-ADDRESS
    let tx_id = [0xDD; 12];
    let mapped_attr = {
        let mut attr = Vec::new();
        attr.extend_from_slice(&ATTR_MAPPED_ADDRESS.to_be_bytes());
        attr.extend_from_slice(&8u16.to_be_bytes());
        attr.push(0x00);
        attr.push(0x01);
        attr.extend_from_slice(&8080u16.to_be_bytes());
        attr.extend_from_slice(&[10, 0, 0, 1]);
        attr
    };
    let other_attr = build_other_addr_attr(&[192, 168, 1, 1], 3478);
    let mut combined = mapped_attr;
    combined.extend_from_slice(&other_attr);
    let pkt = build_binding_response(&tx_id, &combined);

    let result = parse_binding_response_full(&pkt, &tx_id).unwrap();
    assert_eq!(result.mapped_addr, "10.0.0.1:8080");
    assert_eq!(result.other_addr, Some("192.168.1.1:3478".to_string()));
}

#[test]
fn test_parse_binding_response_success() {
    let tx_id = [0xAA; 12];
    let attr = build_xor_mapped_attr(&[10, 20, 30, 40], 12345);
    let pkt = build_binding_response(&tx_id, &attr);

    let result = parse_binding_response(&pkt, &tx_id);
    assert_eq!(result, Ok("10.20.30.40:12345".to_string()));
}

#[test]
fn test_parse_binding_response_wrong_type() {
    let tx_id = [0xBB; 12];
    let mut pkt = Vec::new();
    pkt.extend_from_slice(&0x0001u16.to_be_bytes());
    pkt.extend_from_slice(&0u16.to_be_bytes());
    pkt.extend_from_slice(&MAGIC_COOKIE.to_be_bytes());
    pkt.extend_from_slice(&tx_id);

    let result = parse_binding_response(&pkt, &tx_id);
    assert!(result.is_err());
    assert!(result.unwrap_err().contains("unexpected STUN message type"));
}

#[test]
fn test_parse_binding_response_bad_cookie() {
    let tx_id = [0xCC; 12];
    let mut pkt = Vec::new();
    pkt.extend_from_slice(&0x0101u16.to_be_bytes());
    pkt.extend_from_slice(&0u16.to_be_bytes());
    pkt.extend_from_slice(&0xDEADBEEFu32.to_be_bytes());
    pkt.extend_from_slice(&tx_id);

    let result = parse_binding_response(&pkt, &tx_id);
    assert!(result.is_err());
    assert!(result.unwrap_err().contains("bad magic cookie"));
}

#[test]
fn test_parse_binding_response_tx_id_mismatch() {
    let tx_id = [0x11; 12];
    let other_id = [0x22; 12];
    let attr = build_xor_mapped_attr(&[1, 2, 3, 4], 80);
    let pkt = build_binding_response(&tx_id, &attr);

    let result = parse_binding_response(&pkt, &other_id);
    assert!(result.is_err());
    assert!(result.unwrap_err().contains("transaction ID mismatch"));
}

#[test]
fn test_parse_binding_response_truncated() {
    let tx_id = [0xDD; 12];
    let mut pkt = Vec::new();
    pkt.extend_from_slice(&0x0101u16.to_be_bytes());
    pkt.extend_from_slice(&0u16.to_be_bytes());
    pkt.extend_from_slice(&MAGIC_COOKIE.to_be_bytes());
    pkt.extend_from_slice(&tx_id);

    let mut pkt2 = pkt.clone();
    pkt2[2] = 0x00;
    pkt2[3] = 0x10;
    let result = parse_binding_response(&pkt2, &tx_id);
    assert!(result.is_err());
    assert!(result.unwrap_err().contains("truncated"));

    let result = parse_binding_response(&pkt, &tx_id);
    assert!(result.is_err());
    assert!(result.unwrap_err().contains("missing MAPPED-ADDRESS"));
}

#[test]
fn test_parse_binding_response_too_short() {
    // 20-byte header claims 10 bytes of attrs, but only header present
    let mut pkt = Vec::new();
    pkt.extend_from_slice(&0x0101u16.to_be_bytes());
    pkt.extend_from_slice(&10u16.to_be_bytes()); // claims 10 bytes of attributes
    pkt.extend_from_slice(&MAGIC_COOKIE.to_be_bytes());
    pkt.extend_from_slice(&[0u8; 12]);
    // No attributes — data is shorter than 20 + 10
    let result = parse_binding_response(&pkt, &[0u8; 12]);
    assert!(result.is_err());
    assert!(result.unwrap_err().contains("truncated"));
}

// --- IPv6 XOR-MAPPED-ADDRESS tests ---

#[test]
fn test_parse_xor_mapped_address_ipv6() {
    // XOR key = cookie (4 bytes) || tx_id (12 bytes) = 16 bytes
    let cookie: u32 = 0x2112A442;
    let tx_id: [u8; 12] = [
        0x01, 0x02, 0x03, 0x04, 0x05, 0x06, 0x07, 0x08, 0x09, 0x0a, 0x0b, 0x0c,
    ];
    let mut key = [0u8; 16];
    key[..4].copy_from_slice(&cookie.to_be_bytes());
    key[4..].copy_from_slice(&tx_id);

    let real_ip: [u8; 16] = [
        0x20, 0x01, 0x0d, 0xb8, 0, 0, 0, 0, 0, 0, 0, 0, 0, 0, 0, 0x01,
    ];
    let cookie_hi = (cookie >> 16) as u16;
    let real_port: u16 = 8080;
    let xored_port = real_port ^ cookie_hi;
    let mut xored_ip = [0u8; 16];
    for i in 0..16 {
        xored_ip[i] = real_ip[i] ^ key[i];
    }

    let mut data = vec![0x00, 0x02]; // family = IPv6
    data.extend_from_slice(&xored_port.to_be_bytes());
    data.extend_from_slice(&xored_ip);

    let result = parse_xor_mapped_address(&data, cookie, &tx_id);
    assert_eq!(result, Some("[2001:db8::1]:8080".to_string()));
}

#[test]
fn test_parse_xor_mapped_address_ipv6_too_short() {
    let data = [0x00, 0x02, 0x1F, 0x90, 0, 0, 0, 0]; // only 8 bytes, need 20
    assert_eq!(
        parse_xor_mapped_address(&data, MAGIC_COOKIE, &[0u8; 12]),
        None
    );
}

#[test]
fn test_parse_binding_response_xor_ipv6() {
    let tx_id = [0xEE; 12];
    let cookie = MAGIC_COOKIE;
    let mut key = [0u8; 16];
    key[..4].copy_from_slice(&cookie.to_be_bytes());
    key[4..].copy_from_slice(&tx_id);

    let real_ip: [u8; 16] = [
        0x20, 0x01, 0x0d, 0xb8, 0, 0, 0, 0, 0, 0, 0, 0, 0, 0, 0, 0x01,
    ];
    let cookie_hi = (cookie >> 16) as u16;
    let real_port: u16 = 443;
    let xored_port = real_port ^ cookie_hi;
    let mut xored_ip = [0u8; 16];
    for i in 0..16 {
        xored_ip[i] = real_ip[i] ^ key[i];
    }

    let mut attr = Vec::new();
    attr.extend_from_slice(&ATTR_XOR_MAPPED_ADDRESS.to_be_bytes());
    attr.extend_from_slice(&20u16.to_be_bytes()); // 4 + 16 bytes
    attr.push(0x00);
    attr.push(0x02); // IPv6
    attr.extend_from_slice(&xored_port.to_be_bytes());
    attr.extend_from_slice(&xored_ip);

    let pkt = build_binding_response(&tx_id, &attr);
    let result = parse_binding_response(&pkt, &tx_id).unwrap();
    assert_eq!(result, "[2001:db8::1]:443");
}

// --- CHANGED-ADDRESS fallback test ---

#[test]
fn test_parse_binding_response_full_changed_address_fallback() {
    let tx_id = [0xFF; 12];
    let cookie = MAGIC_COOKIE;
    let cookie_hi = (cookie >> 16) as u16;

    // Build XOR-MAPPED-ADDRESS for the primary mapped address
    let mapped_ip: [u8; 4] = [10, 20, 30, 40];
    let mapped_port: u16 = 12345;
    let xored_mapped_port = mapped_port ^ cookie_hi;
    let mapped_ip_u32 = u32::from_be_bytes(mapped_ip);
    let xored_mapped_ip = mapped_ip_u32 ^ cookie;
    let mut mapped_attr = Vec::new();
    mapped_attr.extend_from_slice(&ATTR_XOR_MAPPED_ADDRESS.to_be_bytes());
    mapped_attr.extend_from_slice(&8u16.to_be_bytes());
    mapped_attr.push(0x00);
    mapped_attr.push(0x01);
    mapped_attr.extend_from_slice(&xored_mapped_port.to_be_bytes());
    mapped_attr.extend_from_slice(&xored_mapped_ip.to_be_bytes());

    // Build CHANGED-ADDRESS (0x0005) as the second server address
    let changed_ip: [u8; 4] = [192, 168, 1, 1];
    let changed_port: u16 = 3478;
    let xored_changed_port = changed_port ^ cookie_hi;
    let changed_ip_u32 = u32::from_be_bytes(changed_ip);
    let xored_changed_ip = changed_ip_u32 ^ cookie;
    let mut changed_attr = Vec::new();
    changed_attr.extend_from_slice(&ATTR_CHANGED_ADDRESS.to_be_bytes());
    changed_attr.extend_from_slice(&8u16.to_be_bytes());
    changed_attr.push(0x00);
    changed_attr.push(0x01);
    changed_attr.extend_from_slice(&xored_changed_port.to_be_bytes());
    changed_attr.extend_from_slice(&xored_changed_ip.to_be_bytes());

    let mut combined = mapped_attr;
    combined.extend_from_slice(&changed_attr);
    let pkt = build_binding_response(&tx_id, &combined);

    let result = parse_binding_response_full(&pkt, &tx_id).unwrap();
    assert_eq!(result.mapped_addr, "10.20.30.40:12345");
    // CHANGED-ADDRESS should be picked up as the other_addr (RFC 3489 fallback)
    assert_eq!(result.other_addr, Some("192.168.1.1:3478".to_string()));
}

// --- STUN Error Response tests ---

fn build_error_response(tx_id: &[u8; 12], code: u32, reason: &str) -> Vec<u8> {
    let class = (code / 100) as u8;
    let number = (code % 100) as u8;
    let reason_bytes = reason.as_bytes();
    // ERROR-CODE attribute: 4 + reason length (padded to 4-byte boundary)
    let attr_value_len = 4 + reason_bytes.len();
    let padding = (4 - (attr_value_len % 4)) % 4;
    let attr_len = attr_value_len + padding;

    let mut pkt = Vec::new();
    pkt.extend_from_slice(&0x0111u16.to_be_bytes()); // type = Binding Error Response
    pkt.extend_from_slice(&((4 + attr_len) as u16).to_be_bytes()); // length
    pkt.extend_from_slice(&MAGIC_COOKIE.to_be_bytes());
    pkt.extend_from_slice(tx_id);
    // ERROR-CODE attribute TLV
    pkt.extend_from_slice(&ATTR_ERROR_CODE.to_be_bytes());
    pkt.extend_from_slice(&(attr_value_len as u16).to_be_bytes());
    pkt.push(0x00);
    pkt.push(0x00);
    pkt.push(class & 0x07);
    pkt.push(number);
    pkt.extend_from_slice(reason_bytes);
    // padding
    if padding > 0 {
        pkt.extend(vec![0x00u8; padding]);
    }
    pkt
}

#[test]
fn test_parse_error_response_unknown_attribute() {
    let tx_id = [0xAB; 12];
    let pkt = build_error_response(&tx_id, 420, "Unknown Attribute");
    let result = parse_binding_response(&pkt, &tx_id);
    assert!(result.is_err());
    let err = result.unwrap_err();
    assert!(err.contains("420"), "expected error code 420, got: {err}");
    assert!(
        err.contains("Unknown Attribute"),
        "expected reason, got: {err}"
    );
}

#[test]
fn test_parse_error_response_server_error() {
    let tx_id = [0xCD; 12];
    let pkt = build_error_response(&tx_id, 500, "Server Error");
    let result = parse_binding_response_full(&pkt, &tx_id);
    assert!(result.is_err());
    let err = result.unwrap_err();
    assert!(err.contains("500"), "expected error code 500, got: {err}");
}

#[test]
fn test_parse_error_response_truncated() {
    let tx_id = [0xEF; 12];
    let mut pkt = Vec::new();
    pkt.extend_from_slice(&0x0111u16.to_be_bytes());
    pkt.extend_from_slice(&100u16.to_be_bytes()); // claims 100 bytes
    pkt.extend_from_slice(&MAGIC_COOKIE.to_be_bytes());
    pkt.extend_from_slice(&tx_id);
    // no actual attributes
    let result = parse_binding_response(&pkt, &tx_id);
    assert!(result.is_err());
    assert!(result.unwrap_err().contains("truncated"));
}

#[test]
fn short_responses_are_refused() {
    let tx_id = [0x11; 12];
    for n in 0..20usize {
        let pkt = vec![0u8; n];
        assert_eq!(accept_response(&pkt, &tx_id), Err("STUN response too short".to_string()));
        assert!(accept_response_full(&pkt, &tx_id).is_err());
    }
    let attr = build_xor_mapped_attr(&[10, 20, 30, 40], 12345);
    let pkt = build_binding_response(&tx_id, &attr);
    assert_eq!(accept_response(&pkt, &tx_id), Ok("10.20.30.40:12345".to_string()));
    assert_eq!(accept_response_full(&pkt, &tx_id).unwrap().mapped_addr, "10.20.30.40:12345");
}

#[test]
fn new_requests_carry_fresh_transactions() {
    let a = new_binding_request();
    let b = new_binding_request();
    assert_eq!(a.packet, build_binding_request(&a.tx_id));
    assert_eq!(&a.packet[8..20], &a.tx_id);
    assert_ne!(a.tx_id, b.tx_id);
}

#[test]
fn scheme_is_taken_off() {
    assert_eq!(strip_stun_prefix("stun:stun.example.com:3478"), "stun.example.com:3478");
    assert_eq!(strip_stun_prefix("stun.example.com:3478"), "stun.example.com:3478");
}

#[test]
fn reasons_are_read_leniently_and_trimmed() {
    let tx_id = [0xAB; 12];
    // Not UTF-8: the replacement character stands for the bad byte.
    let mut pkt = build_error_response(&tx_id, 400, "Bad??");
    let n = pkt.len();
    let at = n - 3 - 2;
    pkt[at] = 0xFF;
    let err = parse_binding_response(&pkt, &tx_id).unwrap_err();
    assert!(err.contains("400"), "{err}");
    assert!(err.contains('\u{FFFD}'), "{err}");
    // White space around the reason goes.
    let pkt = build_error_response(&tx_id, 401, "  Unauthorized  ");
    let err = parse_binding_response(&pkt, &tx_id).unwrap_err();
    assert_eq!(err, "STUN error response: 401 Unauthorized");
}

#[test]
fn errors_are_described_by_code_and_trimmed_reason() {
    assert_eq!(describe_error(420, " Unknown Attribute\r\n"), "STUN error response: 420 Unknown Attribute");
    assert_eq!(describe_error(500, "a b"), "STUN error response: 500 a b");
    assert_eq!(describe_error(7, " \t "), "STUN error response: 7 ");
    assert_eq!(describe_error(0, ""), "STUN error response: 0 ");
}

#[test]
fn unicode_white_space_goes_too() {
    let white = "\u{9}\u{b}\u{d}\u{20}\u{85}\u{a0}\u{1680}\u{2000}\u{200a}\u{2028}\u{2029}\u{202f}\u{205f}\u{3000}";
    let reason = format!("{white}a{white}b{white}");
    assert_eq!(describe_error(400, &reason), format!("STUN error response: 400 a{white}b"));
    // These have not the property.
    let kept = "\u{8}\u{e}\u{1f}\u{200b}\u{2060}\u{feff}";
    assert_eq!(describe_error(400, kept), format!("STUN error response: 400 {kept}"));
    // All of std's white space is on the list.
    let all: String = (0..=0x10FFFFu32).filter_map(char::from_u32).filter(|c| c.is_whitespace()).collect();
    assert_eq!(all.chars().count(), 25);
    assert_eq!(describe_error(1, &all), "STUN error response: 1 ");
}

#[test]
fn requests_go_out_from_the_family_of_the_server() {
    let v4 = SocketAddr { ip: IpAddr::V4(1, 2, 3, 4), port: 3478 };
    let v6 = SocketAddr { ip: IpAddr::V6(1, 0, 0, 0, 0, 0, 0, 2), port: 3478 };
    assert_eq!(bind_addresses(&v4), ("0.0.0.0:0".to_string(), "[::]:0".to_string()));
    assert_eq!(bind_addresses(&v6), ("[::]:0".to_string(), "0.0.0.0:0".to_string()));
}
