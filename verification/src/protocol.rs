//! Framing of messages: the V1 and the V2 wire format.
//!
//! V1: type byte, length (8 bytes, big-endian), JSON payload.
//!
//! V2: once per connection the magic bytes; then frames of type, flags (2 bytes
//! each) and length (4 bytes, all big-endian) with their payload. The payload
//! of a message frame is the message's type ID (2 bytes, big-endian), then JSON.
use vstd::prelude::*;
use vstd::slice::slice_to_vec;
use vstd::string::*;

use crate::bytes;
use crate::errors::{Error, ProtocolError};
use crate::msg;
use crate::msg::MsgKind;
use crate::text;

verus! {

pub const V1_MAX_MSG_LENGTH: i64 = 65536;

pub const V1_HEADER_LEN: usize = 9;

pub const V2_MAGIC_LEN: usize = 7;

pub const V2_FRAME_TYPE_MESSAGE: u16 = 16;

pub const V2_MAX_FRAME_PAYLOAD: u32 = 1048576;

/// V2 frame header size: type(2) + flags(2) + length(4). Does not hold the
/// magic bytes: they come only once.
pub const V2_FRAME_HEADER_LEN: usize = 8;

pub const V2_FRAME_TYPE_CLIENT_HELLO: u16 = 1;

pub const V2_FRAME_TYPE_SERVER_HELLO: u16 = 2;

/// The magic bytes at the start of a V2 connection.
pub open spec fn v2_magic() -> Seq<u8> {
    seq![0x46u8, 0x52, 0x50, 0x00, 0x02, 0x0D, 0x0A]
}

/// What an error says where its kind does not matter.
pub open spec fn says(e: Error, s: Seq<char>) -> bool {
    e matches Error::Protocol(ProtocolError::Other(t)) && t@ == s
}

fn protocol_error(s: String) -> (e: Error)
    ensures
        says(e, s@),
{
    Error::Protocol(ProtocolError::Other(s))
}

// ── V1 ──────────────────────────────────────────────────────────────────

/// A V1 frame.
pub open spec fn v1_framed(type_byte: u8, payload: Seq<u8>) -> Seq<u8> {
    seq![type_byte] + bytes::be64(payload.len() as u64) + payload
}

/// The V1 frame of a payload.
pub fn v1_frame(type_byte: u8, payload: &[u8]) -> (r: Result<Vec<u8>, Error>)
    ensures
        payload@.len() <= V1_MAX_MSG_LENGTH ==> r is Ok && r->Ok_0@ == v1_framed(
            type_byte,
            payload@,
        ),
        payload@.len() > V1_MAX_MSG_LENGTH ==> r is Err && says(
            r->Err_0,
            "V1 message too large"@,
        ),
{
    if payload.len() as u64 > V1_MAX_MSG_LENGTH as u64 {
        return Err(protocol_error("V1 message too large".to_owned()));
    }
    let mut buf: Vec<u8> = Vec::new();
    buf.push(type_byte);
    bytes::push_be64(&mut buf, payload.len() as u64);
    bytes::extend(&mut buf, payload);
    assert(buf@ =~= v1_framed(type_byte, payload@));
    Ok(buf)
}

/// A V1 frame header: the type byte and the length of the payload that follows.
#[derive(Debug, Clone, Copy, PartialEq, Eq, Structural)]
pub struct V1Header {
    pub type_byte: u8,
    pub length: usize,
}

/// What is said of a V1 header with too great a length.
pub open spec fn bad_v1_length(header: Seq<u8>) -> Seq<char> {
    "invalid V1 msg length: "@ + text::decimal(bytes::be64_at(header, 1) as nat)
        + ", raw header: "@ + text::hex_of(header)
}

/// What a V1 frame header says, unless the length is too great.
pub open spec fn v1_read(header: Seq<u8>) -> Option<V1Header> {
    if bytes::be64_at(header, 1) <= V1_MAX_MSG_LENGTH {
        Some(V1Header { type_byte: header[0], length: bytes::be64_at(header, 1) as usize })
    } else {
        None
    }
}

/// Reads a V1 frame header.
pub fn parse_v1_header(header: &[u8]) -> (r: Result<V1Header, Error>)
    requires
        header@.len() == V1_HEADER_LEN,
    ensures
        bytes::be64_at(header@, 1) <= V1_MAX_MSG_LENGTH ==> r == Ok::<V1Header, Error>(
            V1Header {
                type_byte: header@[0],
                length: bytes::be64_at(header@, 1) as usize,
            },
        ),
        bytes::be64_at(header@, 1) > V1_MAX_MSG_LENGTH ==> r is Err && says(
            r->Err_0,
            bad_v1_length(header@),
        ),
        v1_read(header@) == (match r {
            Ok(h) => Some(h),
            Err(_) => None,
        }),
{
    let length = bytes::read_be64(header, 1);
    if length > V1_MAX_MSG_LENGTH as u64 {
        let mut e = "invalid V1 msg length: ".to_owned();
        text::push_decimal(&mut e, length);
        text::push_str(&mut e, ", raw header: ");
        text::push_str(&mut e, crate::hex_encode(header).as_str());
        return Err(protocol_error(e));
    }
    Ok(V1Header { type_byte: header[0], length: length as usize })
}

/// What a V1 frame carries is read back from it: its header gives the type and
/// the length, and what follows is the payload.
pub proof fn law_v1_frame_roundtrip(type_byte: u8, payload: Seq<u8>)
    requires
        payload.len() <= V1_MAX_MSG_LENGTH,
    ensures
        ({
            let f = v1_framed(type_byte, payload);
            &&& f.len() == V1_HEADER_LEN + payload.len()
            &&& f.take(V1_HEADER_LEN as int)[0] == type_byte
            &&& bytes::be64_at(f.take(V1_HEADER_LEN as int), 1) == payload.len()
            &&& f.skip(V1_HEADER_LEN as int) == payload
        }),
{
    let f = v1_framed(type_byte, payload);
    let h = f.take(9);
    assert(h.subrange(1, 9) =~= bytes::be64(payload.len() as u64));
    bytes::law_big_endian_roundtrip(h, 1, 0, 0, payload.len() as u64);
    assert(f.skip(9) =~= payload);
}

/// A stream of V1 frames is cut where it was joined: the header in front of a
/// frame and whatever follows gives the type and the length, what stands behind
/// the header is the payload, and the rest follows. A frame of up to 65536 bytes
/// is readable, and its length stands in eight bytes, highest first.
pub proof fn law_v1_frames_are_cut_apart(type_byte: u8, payload: Seq<u8>, rest: Seq<u8>)
    requires
        payload.len() <= 65_536,
    ensures
        ({
            let s = v1_framed(type_byte, payload) + rest;
            let n = payload.len() as int;
            &&& v1_read(s.take(9)) == Some(V1Header { type_byte, length: payload.len() as usize })
            &&& s.subrange(9, 9 + n) == payload
            &&& s.skip(9 + n) == rest
            &&& s[0] == type_byte
            &&& s.subrange(1, 6) == seq![0u8, 0, 0, 0, 0]
            &&& 65_536 * s[6] + 256 * s[7] + s[8] == n
        }),
{
    let s = v1_framed(type_byte, payload) + rest;
    let n = payload.len() as int;
    let h = s.take(9);
    let b = bytes::be64(payload.len() as u64);
    law_v1_frame_roundtrip(type_byte, payload);
    assert(h =~= v1_framed(type_byte, payload).take(9));
    assert(s.subrange(9, 9 + n) =~= payload);
    assert(s.skip(9 + n) =~= rest);
    assert(s.subrange(1, 9) =~= b);
    assert(s.subrange(1, 6) =~= seq![0u8, 0, 0, 0, 0]);
    assert(s[6] == b[5] && s[7] == b[6] && s[8] == b[7]);
}

/// A V1 header that announces more than 65536 bytes is not read.
pub proof fn law_v1_length_is_limited(header: Seq<u8>)
    requires
        header.len() == 9,
    ensures
        v1_read(header) is Some <==> bytes::be64_at(header, 1) <= 65_536,
        v1_read(header) matches Some(h) ==> h.type_byte == header[0] && h.length <= 65_536,
{
}

// ── V2 ──────────────────────────────────────────────────────────────────

/// The magic bytes of a V2 connection.
pub fn v2_magic_bytes() -> (r: Vec<u8>)
    ensures
        r@ == v2_magic(),
{
    let r: Vec<u8> = vec![0x46, 0x52, 0x50, 0x00, 0x02, 0x0D, 0x0A];
    assert(r@ =~= v2_magic());
    r
}

/// Checks the first bytes of a connection: `None` where they are the magic
/// bytes, else the bytes, for the caller to go on with.
pub fn v2_magic_or_replay(buf: &[u8]) -> (r: Option<Vec<u8>>)
    ensures
        r is None <==> buf@ == v2_magic(),
        r matches Some(b) ==> b@ == buf@,
{
    let magic = v2_magic_bytes();
    if bytes::same_bytes(buf, magic.as_slice()) {
        None
    } else {
        Some(slice_to_vec(buf))
    }
}

/// A V2 frame.
pub open spec fn v2_framed(frame_type: u16, flags: u16, payload: Seq<u8>) -> Seq<u8> {
    bytes::be16(frame_type) + bytes::be16(flags) + bytes::be32(payload.len() as u32) + payload
}

/// What is said of a V2 payload that is too long.
pub open spec fn v2_too_large(n: nat) -> Seq<char> {
    "V2 payload too large: "@ + text::decimal(n) + " > "@ + text::decimal(
        V2_MAX_FRAME_PAYLOAD as nat,
    )
}

/// The V2 frame of a payload.
pub fn v2_frame(frame_type: u16, flags: u16, payload: &[u8]) -> (r: Result<Vec<u8>, Error>)
    ensures
        payload@.len() <= V2_MAX_FRAME_PAYLOAD ==> r is Ok && r->Ok_0@ == v2_framed(
            frame_type,
            flags,
            payload@,
        ),
        payload@.len() > V2_MAX_FRAME_PAYLOAD ==> r is Err && says(
            r->Err_0,
            v2_too_large(payload@.len()),
        ),
{
    if payload.len() > V2_MAX_FRAME_PAYLOAD as usize {
        let mut e = "V2 payload too large: ".to_owned();
        text::push_decimal(&mut e, payload.len() as u64);
        text::push_str(&mut e, " > ");
        text::push_decimal(&mut e, V2_MAX_FRAME_PAYLOAD as u64);
        return Err(protocol_error(e));
    }
    let mut out: Vec<u8> = Vec::new();
    bytes::push_be16(&mut out, frame_type);
    bytes::push_be16(&mut out, flags);
    bytes::push_be32(&mut out, payload.len() as u32);
    bytes::extend(&mut out, payload);
    assert(out@ =~= v2_framed(frame_type, flags, payload@));
    Ok(out)
}

/// A V2 frame header.
#[derive(Debug, Clone, Copy, PartialEq, Eq, Structural)]
pub struct V2Header {
    pub frame_type: u16,
    pub flags: u16,
    pub length: usize,
}

/// What a V2 frame header says, unless the length is too great.
pub open spec fn v2_read(header: Seq<u8>) -> Option<V2Header> {
    if bytes::be32_at(header, 4) <= V2_MAX_FRAME_PAYLOAD {
        Some(
            V2Header {
                frame_type: bytes::be16_at(header, 0),
                flags: bytes::be16_at(header, 2),
                length: bytes::be32_at(header, 4) as usize,
            },
        )
    } else {
        None
    }
}

/// Reads a V2 frame header.
pub fn parse_v2_header(header: &[u8]) -> (r: Result<V2Header, Error>)
    requires
        header@.len() == V2_FRAME_HEADER_LEN,
    ensures
        bytes::be32_at(header@, 4) <= V2_MAX_FRAME_PAYLOAD ==> r == Ok::<V2Header, Error>(
            V2Header {
                frame_type: bytes::be16_at(header@, 0),
                flags: bytes::be16_at(header@, 2),
                length: bytes::be32_at(header@, 4) as usize,
            },
        ),
        bytes::be32_at(header@, 4) > V2_MAX_FRAME_PAYLOAD ==> r is Err && says(
            r->Err_0,
            "V2 frame payload too large: "@ + text::decimal(bytes::be32_at(header@, 4) as nat),
        ),
        v2_read(header@) == (match r {
            Ok(h) => Some(h),
            Err(_) => None,
        }),
{
    let length = bytes::read_be32(header, 4);
    if length > V2_MAX_FRAME_PAYLOAD {
        let mut e = "V2 frame payload too large: ".to_owned();
        text::push_decimal(&mut e, length as u64);
        return Err(protocol_error(e));
    }
    Ok(
        V2Header {
            frame_type: bytes::read_be16(header, 0),
            flags: bytes::read_be16(header, 2),
            length: length as usize,
        },
    )
}

/// What a V2 frame carries is read back from it.
pub proof fn law_v2_frame_roundtrip(frame_type: u16, flags: u16, payload: Seq<u8>)
    requires
        payload.len() <= V2_MAX_FRAME_PAYLOAD,
    ensures
        ({
            let f = v2_framed(frame_type, flags, payload);
            let h = f.take(V2_FRAME_HEADER_LEN as int);
            &&& f.len() == V2_FRAME_HEADER_LEN + payload.len()
            &&& bytes::be16_at(h, 0) == frame_type
            &&& bytes::be16_at(h, 2) == flags
            &&& bytes::be32_at(h, 4) == payload.len()
            &&& f.skip(V2_FRAME_HEADER_LEN as int) == payload
        }),
{
    let f = v2_framed(frame_type, flags, payload);
    let h = f.take(8);
    assert(h.subrange(0, 2) =~= bytes::be16(frame_type));
    assert(h.subrange(2, 4) =~= bytes::be16(flags));
    assert(h.subrange(4, 8) =~= bytes::be32(payload.len() as u32));
    bytes::law_big_endian_roundtrip(h, 0, frame_type, 0, 0);
    bytes::law_big_endian_roundtrip(h, 2, flags, 0, 0);
    bytes::law_big_endian_roundtrip(h, 4, 0, payload.len() as u32, 0);
    assert(f.skip(8) =~= payload);
}

/// A stream of V2 frames is cut where it was joined: type, flags and length
/// stand in front, highest byte first, behind them the payload, and the rest
/// follows. A frame of up to a MiB is readable.
pub proof fn law_v2_frames_are_cut_apart(
    frame_type: u16,
    flags: u16,
    payload: Seq<u8>,
    rest: Seq<u8>,
)
    requires
        payload.len() <= 1_048_576,
    ensures
        ({
            let s = v2_framed(frame_type, flags, payload) + rest;
            let n = payload.len() as int;
            &&& v2_read(s.take(8)) == Some(
                V2Header { frame_type, flags, length: payload.len() as usize },
            )
            &&& s.subrange(8, 8 + n) == payload
            &&& s.skip(8 + n) == rest
            &&& 256 * s[0] + s[1] == frame_type
            &&& 256 * s[2] + s[3] == flags
            &&& 16_777_216 * s[4] + 65_536 * s[5] + 256 * s[6] + s[7] == n
        }),
{
    let s = v2_framed(frame_type, flags, payload) + rest;
    let n = payload.len() as int;
    law_v2_frame_roundtrip(frame_type, flags, payload);
    assert(s.take(8) =~= v2_framed(frame_type, flags, payload).take(8));
    assert(s.subrange(8, 8 + n) =~= payload);
    assert(s.skip(8 + n) =~= rest);
    let (a, b, c) = (bytes::be16(frame_type), bytes::be16(flags), bytes::be32(n as u32));
    assert(s[0] == a[0] && s[1] == a[1] && s[2] == b[0] && s[3] == b[1]);
    assert(s[4] == c[0] && s[5] == c[1] && s[6] == c[2] && s[7] == c[3]);
}

/// A V2 header that announces more than a MiB is not read.
pub proof fn law_v2_length_is_limited(header: Seq<u8>)
    requires
        header.len() == 8,
    ensures
        v2_read(header) is Some <==> bytes::be32_at(header, 4) <= 1_048_576,
{
}

/// The numbers that both ends of a connection go by.
pub proof fn law_frame_numbers()
    ensures
        V1_MAX_MSG_LENGTH == 65_536 && V1_HEADER_LEN == 9,
        V2_MAX_FRAME_PAYLOAD == 1_048_576 && V2_FRAME_HEADER_LEN == 8 && V2_MAGIC_LEN == 7,
        V2_FRAME_TYPE_CLIENT_HELLO == 1 && V2_FRAME_TYPE_SERVER_HELLO == 2,
        V2_FRAME_TYPE_MESSAGE == 16,
{
}

/// A V2 connection starts with `FRP`, a zero, the version, and a line end.
pub proof fn law_v2_magic_bytes()
    ensures
        v2_magic().len() == 7,
        v2_magic()[0] == 'F' as u8 && v2_magic()[1] == 'R' as u8 && v2_magic()[2] == 'P' as u8,
        v2_magic()[3] == 0 && v2_magic()[4] == 2 && v2_magic()[5] == 13 && v2_magic()[6] == 10,
{
}

/// The payload of a message frame.
pub open spec fn v2_payload(type_id: u16, json: Seq<u8>) -> Seq<u8> {
    bytes::be16(type_id) + json
}

/// The frame of a message: type Message, no flags, the type ID before the JSON.
pub fn v2_message_frame(type_id: u16, json: &[u8]) -> (r: Result<Vec<u8>, Error>)
    ensures
        json@.len() + 2 <= V2_MAX_FRAME_PAYLOAD ==> r is Ok && r->Ok_0@ == v2_framed(
            V2_FRAME_TYPE_MESSAGE,
            0,
            v2_payload(type_id, json@),
        ),
        json@.len() + 2 > V2_MAX_FRAME_PAYLOAD ==> r is Err && says(
            r->Err_0,
            v2_too_large(json@.len() + 2),
        ),
{
    let mut payload: Vec<u8> = Vec::new();
    bytes::push_be16(&mut payload, type_id);
    bytes::extend(&mut payload, json);
    assert(payload@ =~= v2_payload(type_id, json@));
    v2_frame(V2_FRAME_TYPE_MESSAGE, 0, payload.as_slice())
}

/// The type ID of the message that a frame holds, if it holds one.
pub open spec fn v2_opened(frame_type: u16, payload: Seq<u8>) -> Option<u16> {
    if frame_type == V2_FRAME_TYPE_MESSAGE && payload.len() >= 2 {
        Some(bytes::be16_at(payload, 0))
    } else {
        None
    }
}

/// A message goes into a frame of type 16 with its type ID in front, highest
/// byte first, and comes out of it: the ID and the JSON behind it. A frame of
/// another type, or one too short for an ID, holds no message.
pub proof fn law_messages_go_through_frames(type_id: u16, json: Seq<u8>, other: u16)
    requires
        json.len() + 2 <= 1_048_576,
    ensures
        v2_opened(16, v2_payload(type_id, json)) == Some(type_id),
        v2_payload(type_id, json).skip(2) == json,
        256 * v2_payload(type_id, json)[0] + v2_payload(type_id, json)[1] == type_id,
        other != 16 ==> v2_opened(other, v2_payload(type_id, json)) is None,
        json.len() < 2 ==> v2_opened(16, json) is None,
{
    let p = v2_payload(type_id, json);
    let a = bytes::be16(type_id);
    assert(p[0] == a[0] && p[1] == a[1]);
    assert(p.skip(2) =~= json);
}

/// Opens a frame that should hold a message: the type ID, behind which the
/// JSON stands in the payload.
pub fn open_v2_message(frame_type: u16, payload: &[u8]) -> (r: Result<u16, Error>)
    ensures
        frame_type != V2_FRAME_TYPE_MESSAGE ==> r is Err && says(
            r->Err_0,
            "unexpected V2 frame type: "@ + text::decimal(frame_type as nat) + ", expected "@
                + text::decimal(V2_FRAME_TYPE_MESSAGE as nat) + " (Message)"@,
        ),
        frame_type == V2_FRAME_TYPE_MESSAGE && payload@.len() < 2 ==> r is Err && says(
            r->Err_0,
            "V2 message payload too short"@,
        ),
        frame_type == V2_FRAME_TYPE_MESSAGE && payload@.len() >= 2 ==> r == Ok::<u16, Error>(
            bytes::be16_at(payload@, 0),
        ),
        v2_opened(frame_type, payload@) == (match r {
            Ok(id) => Some(id),
            Err(_) => None,
        }),
{
    if frame_type != V2_FRAME_TYPE_MESSAGE {
        let mut e = "unexpected V2 frame type: ".to_owned();
        text::push_decimal(&mut e, frame_type as u64);
        text::push_str(&mut e, ", expected ");
        text::push_decimal(&mut e, V2_FRAME_TYPE_MESSAGE as u64);
        text::push_str(&mut e, " (Message)");
        return Err(protocol_error(e));
    }
    if payload.len() < 2 {
        return Err(protocol_error("V2 message payload too short".to_owned()));
    }
    Ok(bytes::read_be16(payload, 0))
}

/// The type ID and the JSON of a message are read back from its payload.
pub proof fn law_v2_payload_roundtrip(type_id: u16, json: Seq<u8>)
    ensures
        v2_payload(type_id, json).len() >= 2,
        bytes::be16_at(v2_payload(type_id, json), 0) == type_id,
        v2_payload(type_id, json).skip(2) == json,
{
    let p = v2_payload(type_id, json);
    assert(p.subrange(0, 2) =~= bytes::be16(type_id));
    bytes::law_big_endian_roundtrip(p, 0, type_id, 0, 0);
    assert(p.skip(2) =~= json);
}

// ── which message ───────────────────────────────────────────────────────

/// The kind of message that a V1 type byte announces.
pub fn v1_kind(type_byte: u8) -> (r: Result<MsgKind, Error>)
    ensures
        match msg::kind_of_v1(type_byte) {
            Some(k) => r == Ok::<MsgKind, Error>(k),
            None => r is Err && says(
                r->Err_0,
                "unknown V1 type byte: 0x"@ + text::hex_digits(type_byte as nat, 2),
            ),
        },
{
    match MsgKind::from_v1_type_byte(type_byte) {
        Some(k) => Ok(k),
        None => {
            let mut e = "unknown V1 type byte: 0x".to_owned();
            text::push_hex_digits(&mut e, type_byte as u64, 2);
            Err(protocol_error(e))
        },
    }
}

/// The kind of message that a V2 type ID announces.
pub fn v2_kind(type_id: u16) -> (r: Result<MsgKind, Error>)
    ensures
        match msg::kind_of_v2(type_id) {
            Some(k) => r == Ok::<MsgKind, Error>(k),
            None => r is Err && says(
                r->Err_0,
                "unknown V2 message type ID: "@ + text::decimal(type_id as nat),
            ),
        },
{
    match MsgKind::from_v2_type_id(type_id) {
        Some(k) => Ok(k),
        None => {
            let mut e = "unknown V2 message type ID: ".to_owned();
            text::push_decimal(&mut e, type_id as u64);
            Err(protocol_error(e))
        },
    }
}

/// The name of a kind of message.
pub open spec fn name_of(k: MsgKind) -> Seq<char> {
    match k {
        MsgKind::CloseProxyResp => "CloseProxyResp"@,
        MsgKind::CloseProxy => "CloseProxy"@,
        MsgKind::ReqWorkConn => "ReqWorkConn"@,
        MsgKind::NewProxyResp => "NewProxyResp"@,
        MsgKind::NewVisitorConnResp => "NewVisitorConnResp"@,
        MsgKind::Pong => "Pong"@,
        MsgKind::NewProxy => "NewProxy"@,
        MsgKind::UDPPacket => "UDPPacket"@,
        MsgKind::StartWorkConn => "StartWorkConn"@,
        MsgKind::NewVisitorConn => "NewVisitorConn"@,
        MsgKind::NewWorkConn => "NewWorkConn"@,
        MsgKind::Ping => "Ping"@,
        MsgKind::LoginResp => "LoginResp"@,
        MsgKind::Login => "Login"@,
        MsgKind::NatHoleVisitor => "NatHoleVisitor"@,
        MsgKind::NatHoleClient => "NatHoleClient"@,
        MsgKind::NatHoleResp => "NatHoleResp"@,
        MsgKind::NatHoleSid => "NatHoleSid"@,
        MsgKind::NatHoleReport => "NatHoleReport"@,
        MsgKind::Error => "Error"@,
        MsgKind::VnetRouteAdvertise => "VnetRouteAdvertise"@,
        MsgKind::VnetPacket => "VnetPacket"@,
        MsgKind::VnetRouteRemove => "VnetRouteRemove"@,
    }
}

/// The name of a kind of message.
pub fn kind_name(k: MsgKind) -> (r: &'static str)
    ensures
        r@ == name_of(k),
{
    match k {
        MsgKind::CloseProxyResp => "CloseProxyResp",
        MsgKind::CloseProxy => "CloseProxy",
        MsgKind::ReqWorkConn => "ReqWorkConn",
        MsgKind::NewProxyResp => "NewProxyResp",
        MsgKind::NewVisitorConnResp => "NewVisitorConnResp",
        MsgKind::Pong => "Pong",
        MsgKind::NewProxy => "NewProxy",
        MsgKind::UDPPacket => "UDPPacket",
        MsgKind::StartWorkConn => "StartWorkConn",
        MsgKind::NewVisitorConn => "NewVisitorConn",
        MsgKind::NewWorkConn => "NewWorkConn",
        MsgKind::Ping => "Ping",
        MsgKind::LoginResp => "LoginResp",
        MsgKind::Login => "Login",
        MsgKind::NatHoleVisitor => "NatHoleVisitor",
        MsgKind::NatHoleClient => "NatHoleClient",
        MsgKind::NatHoleResp => "NatHoleResp",
        MsgKind::NatHoleSid => "NatHoleSid",
        MsgKind::NatHoleReport => "NatHoleReport",
        MsgKind::Error => "Error",
        MsgKind::VnetRouteAdvertise => "VnetRouteAdvertise",
        MsgKind::VnetPacket => "VnetPacket",
        MsgKind::VnetRouteRemove => "VnetRouteRemove",
    }
}

/// What is said of a payload that is no message of its kind: `cause` is what
/// the decoder says.
pub fn undecodable(k: MsgKind, v2: bool, cause: &str) -> (r: Error)
    ensures
        says(
            r,
            "deserialize "@ + name_of(k) + (if v2 {
                " (v2)"@
            } else {
                ""@
            }) + ": "@ + cause@,
        ),
{
    let mut e = "deserialize ".to_owned();
    text::push_str(&mut e, kind_name(k));
    if v2 {
        text::push_str(&mut e, " (v2)");
    } else {
        text::push_str(&mut e, "");
    }
    text::push_str(&mut e, ": ");
    text::push_str(&mut e, cause);
    protocol_error(e)
}

} // verus!
