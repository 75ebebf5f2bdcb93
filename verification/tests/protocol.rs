//! Frames of both protocol versions.
use frp_core::msg::{MsgKind, TYPE_LOGIN, TYPE_PING};
use frp_core::protocol::{
    kind_name, open_v2_message, parse_v1_header, parse_v2_header, undecodable, v1_frame, v1_kind,
    v2_frame, v2_kind, v2_magic_bytes, v2_magic_or_replay, v2_message_frame, V2_FRAME_TYPE_CLIENT_HELLO,
    V2_FRAME_TYPE_MESSAGE, V2_MAX_FRAME_PAYLOAD,
};

#[test]
fn test_v1_frame_max_payload() {
    // 65535-byte payload should be accepted
    let payload = vec![b'x'; 65535];
    let mut header = vec![TYPE_PING];
    header.extend_from_slice(&65535i64.to_be_bytes());
    let h = parse_v1_header(&header).expect("read");
    assert_eq!(h.length, 65535);
    let frame = v1_frame(TYPE_PING, &payload).expect("write");
    assert_eq!(&frame[..9], &header[..]);
    assert_eq!(&frame[9..], &payload[..]);
}

#[test]
fn test_v1_frame_oversized() {
    // Writing a message > 64KB should fail
    let result = v1_frame(TYPE_PING, &vec![b'x'; 70000]);
    assert!(result.is_err(), "oversized payload should error");
}

#[test]
fn test_v1_frame_invalid_length() {
    // A negative length value
    let mut header = vec![TYPE_PING];
    header.extend_from_slice(&(-1i64).to_be_bytes());
    let result = parse_v1_header(&header);
    assert!(result.is_err(), "negative length should error");
}

#[test]
fn test_v1_frame_unknown_type_byte() {
    let result = v1_kind(0x00);
    assert!(result.is_err(), "unknown type byte should error");
    assert!(result.unwrap_err().message().contains("unknown V1 type byte: 0x00"));
}

#[test]
fn v1_frame_negative_length_rejected() {
    // Header with negative length in bytes 1..9
    let mut header = [0u8; 9];
    header[0] = TYPE_LOGIN;
    header[1..9].copy_from_slice(&(-1i64).to_be_bytes());
    let result = parse_v1_header(&header);
    assert!(result.is_err(), "negative V1 length should be rejected");
}

#[test]
fn v1_frame_zero_length_accepted() {
    let mut header = [0u8; 9];
    header[0] = TYPE_LOGIN;
    // bytes 1..9 are all zero = length 0
    let result = parse_v1_header(&header);
    assert!(result.is_ok(), "zero-length V1 frame should be accepted");
}

#[test]
fn test_v2_frame_read_write() {
    let payload = b"hello v2 world";
    let frame = v2_frame(16, 0, payload).expect("write V2 frame");
    let h = parse_v2_header(&frame[..8]).expect("read V2 frame");
    assert_eq!(h.frame_type, 16);
    assert_eq!(h.flags, 0);
    assert_eq!(h.length, payload.len());
    assert_eq!(&frame[8..], payload);
}

#[test]
fn test_v2_frame_rejects_oversized() {
    let oversized = vec![0u8; (V2_MAX_FRAME_PAYLOAD + 1) as usize];
    let result = v2_frame(16, 0, &oversized);
    assert!(result.is_err(), "should reject oversized payload");
}

#[test]
fn test_v2_frame_raw_accepts_nonzero_flags() {
    let mut header = [0u8; 8];
    header[0..2].copy_from_slice(&V2_FRAME_TYPE_MESSAGE.to_be_bytes());
    header[2..4].copy_from_slice(&1u16.to_be_bytes()); // flags=1
    header[4..8].copy_from_slice(&4u32.to_be_bytes()); // len=4
    let mut frame = header.to_vec();
    frame.extend_from_slice(b"data");
    let h = parse_v2_header(&frame[..8]).expect("non-zero flags should be accepted (Go frp compat)");
    assert_eq!(h.flags, 1);
    let payload = &frame[8..8 + h.length];
    assert_eq!(payload, b"data");
    assert_eq!(8 + h.length, frame.len());
    assert_eq!(v2_frame(V2_FRAME_TYPE_MESSAGE, 1, b"data").unwrap(), frame);
}

#[test]
fn test_v2_frame_raw_oversized_payload() {
    let oversized = vec![0u8; (V2_MAX_FRAME_PAYLOAD + 1) as usize];
    let result = v2_frame(V2_FRAME_TYPE_MESSAGE, 0, &oversized);
    assert!(result.is_err());
    assert!(result.unwrap_err().message().contains("too large"));
}

#[test]
fn test_v2_msg_rejects_non_message_frame_type() {
    let result = open_v2_message(1, b"hello");
    assert!(result.is_err(), "should reject non-Message frame type");
}

#[test]
fn test_v2_msg_unknown_type_id() {
    let mut payload = vec![0u8; 2];
    payload[0..2].copy_from_slice(&99u16.to_be_bytes());
    let id = open_v2_message(V2_FRAME_TYPE_MESSAGE, &payload).unwrap();
    let result = v2_kind(id);
    assert!(result.is_err());
    assert!(result
        .unwrap_err()
        .message()
        .contains("unknown V2 message type ID: 99"));
}

#[test]
fn test_v2_msg_payload_too_short() {
    let result = open_v2_message(V2_FRAME_TYPE_MESSAGE, b"x");
    assert!(result.is_err());
    assert!(result.unwrap_err().message().contains("too short"));
}

#[test]
fn test_v2_msg_wrong_frame_type() {
    let result = open_v2_message(V2_FRAME_TYPE_CLIENT_HELLO, b"{}");
    assert!(result.is_err());
    assert!(result
        .unwrap_err()
        .message()
        .contains("unexpected V2 frame type: 1"));
}

#[test]
fn v2_magic_exact_match_detected() {
    let result = v2_magic_or_replay(&v2_magic_bytes());
    assert!(
        result.is_none(),
        "V2 magic should be detected and consumed"
    );
}

#[test]
fn v2_magic_one_byte_off_replayed() {
    // Toggle the last byte — should not match magic
    let mut bytes = v2_magic_bytes();
    bytes[6] ^= 1;
    let replay = v2_magic_or_replay(&bytes);
    assert!(
        replay.is_some(),
        "near-magic should be replayed, not consumed"
    );
    assert_eq!(replay.unwrap(), bytes);
}

#[test]
fn v2_messages_carry_their_type() {
    let frame = v2_message_frame(7, b"{}").unwrap();
    let h = parse_v2_header(&frame[..8]).unwrap();
    assert_eq!(h.frame_type, V2_FRAME_TYPE_MESSAGE);
    assert_eq!(open_v2_message(h.frame_type, &frame[8..]).unwrap(), 7);
    assert_eq!(&frame[10..], b"{}");
    assert!(v2_message_frame(7, &vec![0u8; V2_MAX_FRAME_PAYLOAD as usize - 1]).is_err());
    assert!(v2_message_frame(7, &vec![0u8; V2_MAX_FRAME_PAYLOAD as usize - 2]).is_ok());
}

#[test]
fn undecodable_messages_are_named() {
    assert_eq!(kind_name(MsgKind::Login), "Login");
    assert!(undecodable(MsgKind::Ping, false, "eof").message().contains("deserialize Ping: eof"));
    assert!(undecodable(MsgKind::Ping, true, "eof").message().contains("deserialize Ping (v2): eof"));
}
