//! The messages of the control protocol and the numbers that tell them apart.
use std::collections::HashMap;
use vstd::prelude::*;
use vstd::string::*;

use crate::addr;
use crate::addr::SocketAddr;
use crate::text;

verus! {

// ── V1 message type bytes ───────────────────────────────────────────────
/// `o`
pub const TYPE_LOGIN: u8 = 0x6f;

/// `1`
pub const TYPE_LOGIN_RESP: u8 = 0x31;

/// `p`
pub const TYPE_NEW_PROXY: u8 = 0x70;

/// `2`
pub const TYPE_NEW_PROXY_RESP: u8 = 0x32;

/// `c`
pub const TYPE_CLOSE_PROXY: u8 = 0x63;

/// `w`
pub const TYPE_NEW_WORK_CONN: u8 = 0x77;

/// `r`
pub const TYPE_REQ_WORK_CONN: u8 = 0x72;

/// `s`
pub const TYPE_START_WORK_CONN: u8 = 0x73;

/// `v`
pub const TYPE_NEW_VISITOR_CONN: u8 = 0x76;

/// `3`
pub const TYPE_NEW_VISITOR_CONN_RESP: u8 = 0x33;

/// `h`
pub const TYPE_PING: u8 = 0x68;

/// `4`
pub const TYPE_PONG: u8 = 0x34;

/// `u`
pub const TYPE_UDP_PACKET: u8 = 0x75;

/// `i`
pub const TYPE_NAT_HOLE_VISITOR: u8 = 0x69;

/// `n`
pub const TYPE_NAT_HOLE_CLIENT: u8 = 0x6e;

/// `m`
pub const TYPE_NAT_HOLE_RESP: u8 = 0x6d;

/// `5`
pub const TYPE_NAT_HOLE_SID: u8 = 0x35;

/// `6`
pub const TYPE_NAT_HOLE_REPORT: u8 = 0x36;

/// An extension that not every peer knows.
/// `7`
pub const TYPE_CLOSE_PROXY_RESP: u8 = 0x37;

/// An extension that not every peer knows.
/// `8`
pub const TYPE_ERROR: u8 = 0x38;

pub const TYPE_VNET_ROUTE_ADVERTISE: u8 = 0x40;

pub const TYPE_VNET_PACKET: u8 = 0x41;

pub const TYPE_VNET_ROUTE_REMOVE: u8 = 0x42;

// ── V2 message type IDs ─────────────────────────────────────────────────
pub const V2_TYPE_LOGIN: u16 = 1;

pub const V2_TYPE_LOGIN_RESP: u16 = 2;

pub const V2_TYPE_NEW_PROXY: u16 = 3;

pub const V2_TYPE_NEW_PROXY_RESP: u16 = 4;

pub const V2_TYPE_CLOSE_PROXY: u16 = 5;

pub const V2_TYPE_NEW_WORK_CONN: u16 = 6;

pub const V2_TYPE_REQ_WORK_CONN: u16 = 7;

pub const V2_TYPE_START_WORK_CONN: u16 = 8;

pub const V2_TYPE_NEW_VISITOR_CONN: u16 = 9;

pub const V2_TYPE_NEW_VISITOR_CONN_RESP: u16 = 10;

pub const V2_TYPE_PING: u16 = 11;

pub const V2_TYPE_PONG: u16 = 12;

pub const V2_TYPE_UDP_PACKET: u16 = 13;

pub const V2_TYPE_NAT_HOLE_VISITOR: u16 = 14;

pub const V2_TYPE_NAT_HOLE_CLIENT: u16 = 15;

pub const V2_TYPE_NAT_HOLE_RESP: u16 = 16;

pub const V2_TYPE_NAT_HOLE_SID: u16 = 17;

pub const V2_TYPE_NAT_HOLE_REPORT: u16 = 18;

/// `UDPPacket` with a binary codec of its own, where both sides agreed on it.
pub const V2_TYPE_UDP_PACKET_BINARY: u16 = 19;

/// An extension that not every peer knows.
pub const V2_TYPE_CLOSE_PROXY_RESP: u16 = 21;

/// An extension that not every peer knows.
pub const V2_TYPE_ERROR: u16 = 22;

pub const V2_TYPE_VNET_ROUTE_ADVERTISE: u16 = 42;

pub const V2_TYPE_VNET_PACKET: u16 = 43;

pub const V2_TYPE_VNET_ROUTE_REMOVE: u16 = 44;

// ── messages ────────────────────────────────────────────────────────────

/// Client-specific metadata.
#[derive(Debug, Clone, PartialEq)]
pub struct ClientSpec {
    pub client_type: Option<String>,
    pub always_auth_pass: Option<bool>,
}

#[derive(Debug, Clone, PartialEq)]
pub struct Login {
    pub version: Option<String>,
    pub hostname: Option<String>,
    pub os: Option<String>,
    pub arch: Option<String>,
    pub user: Option<String>,
    pub run_id: Option<String>,
    pub client_id: Option<String>,
    pub pool_count: Option<i32>,
    pub timestamp: Option<i64>,
    pub privilege_key: Option<String>,
    pub metas: Option<HashMap<String, String>>,
    pub client_spec: Option<ClientSpec>,
    pub multiplexer: Option<String>,
}

#[derive(Debug, Clone, PartialEq)]
pub struct LoginResp {
    pub version: Option<String>,
    pub run_id: Option<String>,
    pub error: Option<String>,
    pub server_additional_auth_scopes: Option<Vec<String>>,
}

pub type LoginResponse = LoginResp;

#[derive(Debug, Clone, PartialEq)]
pub struct NewProxy {
    pub proxy_name: String,
    pub proxy_type: String,
    pub use_encryption: Option<bool>,
    pub use_compression: Option<bool>,
    pub group: Option<String>,
    pub group_key: Option<String>,
    pub local_str: Option<String>,
    pub remote_port: Option<i32>,
    pub sk: Option<String>,
    pub custom_domains: Option<Vec<String>>,
    pub subdomain: Option<String>,
    pub locations: Option<Vec<String>>,
    pub http_user: Option<String>,
    pub http_pwd: Option<String>,
    pub host_header_rewrite: Option<String>,
    pub headers: Option<HashMap<String, String>>,
    pub response_headers: Option<HashMap<String, String>>,
    pub route_by_http_user: Option<String>,
    pub allow_users: Option<Vec<String>>,
    pub bandwidth_limit: Option<String>,
    pub bandwidth_limit_mode: Option<String>,
    pub annotations: Option<HashMap<String, String>>,
    pub metas: Option<HashMap<String, String>>,
    pub multiplexer: Option<String>,
    pub virtual_net: Option<String>,
    pub proxy_protocol_version: Option<String>,
    pub advertise_subnet: Option<String>,
    pub vnet_ip: Option<String>,
    pub vnet_netmask: Option<String>,
    pub vnet_mtu: Option<u16>,
}

#[derive(Debug, Clone, PartialEq)]
pub struct NewProxyResp {
    pub proxy_name: String,
    pub remote_addr: Option<String>,
    pub error: Option<String>,
}

pub type NewProxyResponse = NewProxyResp;

#[derive(Debug, Clone, PartialEq)]
pub struct CloseProxy {
    pub proxy_name: String,
}

#[derive(Debug, Clone, PartialEq)]
pub struct CloseProxyResp {
    pub proxy_name: String,
}

#[derive(Debug, Clone, PartialEq)]
pub struct VnetRouteAdvertise {
    pub proxy_name: String,
    pub subnet: String,
    pub virtual_net: Option<String>,
}

#[derive(Debug, Clone, PartialEq)]
pub struct VnetRouteRemove {
    pub proxy_name: String,
    pub virtual_net: Option<String>,
}

#[derive(Debug, Clone, PartialEq)]
pub struct VnetPacket {
    pub proxy_name: String,
    pub data: String,
}

#[derive(Debug, Clone, PartialEq)]
pub struct Error {
    pub error: String,
}

#[derive(Debug, Clone, PartialEq)]
pub struct NewWorkConn {
    pub run_id: Option<String>,
    pub timestamp: Option<i64>,
    pub privilege_key: Option<String>,
}

/// Request the client to send another work connection.
#[derive(Debug, Clone, PartialEq)]
pub struct ReqWorkConn {}

#[derive(Debug, Clone, PartialEq)]
pub struct StartWorkConn {
    pub proxy_name: String,
    pub src_addr: Option<String>,
    pub src_port: Option<u16>,
    pub dst_addr: Option<String>,
    pub dst_port: Option<u16>,
    pub error: Option<String>,
    pub use_encryption: Option<bool>,
    pub use_compression: Option<bool>,
    pub nat_hole_sid: Option<String>,
    pub nat_hole_visitor_addr: Option<String>,
    pub sk: Option<String>,
}

#[derive(Debug, Clone, PartialEq)]
pub struct Ping {
    pub privilege_key: Option<String>,
    pub timestamp: Option<i64>,
}

#[derive(Debug, Clone, PartialEq)]
pub struct Pong {
    pub error: Option<String>,
}

#[derive(Debug, Clone, PartialEq)]
pub struct NewVisitorConn {
    pub proxy_name: String,
    pub sign_key: Option<String>,
    pub timestamp: Option<i64>,
    pub run_id: Option<String>,
    pub use_encryption: Option<bool>,
    pub use_compression: Option<bool>,
}

#[derive(Debug, Clone, PartialEq)]
pub struct NewVisitorConnResp {
    pub proxy_name: String,
    pub error: Option<String>,
}

/// A UDP address: IP address, port and zone.
#[derive(Debug, Clone, PartialEq)]
pub struct UdpAddr {
    pub ip: String,
    pub port: u16,
    pub zone: String,
}

#[derive(Debug, Clone, PartialEq)]
pub struct UDPPacket {
    pub content: Vec<u8>,
    pub local_addr: Option<UdpAddr>,
    pub remote_addr: Option<UdpAddr>,
}

#[derive(Debug, Clone, PartialEq)]
pub struct NatHoleVisitor {
    pub transaction_id: String,
    pub proxy_name: String,
    pub pre_check: bool,
    pub protocol: Option<String>,
    pub sign_key: Option<String>,
    pub timestamp: Option<i64>,
    pub mapped_addrs: Option<Vec<String>>,
    pub assisted_addrs: Option<Vec<String>>,
}

/// Port range for NAT hole punch candidate selection.
#[derive(Debug, Clone, PartialEq)]
pub struct PortsRange {
    pub from: i32,
    pub to: i32,
}

/// Server-recommended hole-punch behavior for a peer.
#[derive(Debug, Clone, PartialEq)]
pub struct NatHoleDetectBehavior {
    pub mode: i32,
    pub role: Option<String>,
    pub ttl: i32,
    pub send_delay_ms: i32,
    pub read_timeout_ms: i32,
    pub send_random_ports: i32,
    pub listen_random_ports: i32,
    pub candidate_ports: Option<Vec<PortsRange>>,
}

#[derive(Debug, Clone, PartialEq)]
pub struct NatHoleClient {
    pub transaction_id: String,
    pub proxy_name: String,
    pub sid: Option<String>,
    pub protocol: Option<String>,
    pub mapped_addrs: Option<Vec<String>>,
    pub assisted_addrs: Option<Vec<String>>,
    pub visitor_addr: Option<String>,
}

#[derive(Debug, Clone, PartialEq)]
pub struct NatHoleResp {
    pub transaction_id: String,
    pub error: Option<String>,
    pub sid: Option<String>,
    pub protocol: Option<String>,
    pub candidate_addrs: Option<Vec<String>>,
    pub assisted_addrs: Option<Vec<String>>,
    pub detect_behavior: Option<NatHoleDetectBehavior>,
}

#[derive(Debug, Clone, PartialEq)]
pub struct NatHoleSid {
    pub transaction_id: Option<String>,
    pub sid: Option<String>,
    pub response: bool,
    pub nonce: Option<String>,
}

#[derive(Debug, Clone, PartialEq)]
pub struct NatHoleReport {
    pub sid: Option<String>,
    pub success: bool,
}

/// Any of the messages.
#[derive(Debug, Clone, PartialEq)]
pub enum FrpMessage {
    CloseProxyResp(CloseProxyResp),
    CloseProxy(CloseProxy),
    ReqWorkConn(ReqWorkConn),
    NewProxyResp(NewProxyResp),
    NewVisitorConnResp(NewVisitorConnResp),
    Pong(Pong),
    NewProxy(Box<NewProxy>),
    UDPPacket(UDPPacket),
    StartWorkConn(Box<StartWorkConn>),
    NewVisitorConn(NewVisitorConn),
    NewWorkConn(NewWorkConn),
    Ping(Ping),
    LoginResp(LoginResp),
    Login(Box<Login>),
    NatHoleVisitor(NatHoleVisitor),
    NatHoleClient(Box<NatHoleClient>),
    NatHoleResp(Box<NatHoleResp>),
    NatHoleSid(NatHoleSid),
    NatHoleReport(NatHoleReport),
    Error(Error),
    VnetRouteAdvertise(VnetRouteAdvertise),
    VnetPacket(VnetPacket),
    VnetRouteRemove(VnetRouteRemove),
}

/// Which of the messages.
#[derive(Debug, Clone, Copy, PartialEq, Eq, Structural)]
pub enum MsgKind {
    CloseProxyResp,
    CloseProxy,
    ReqWorkConn,
    NewProxyResp,
    NewVisitorConnResp,
    Pong,
    NewProxy,
    UDPPacket,
    StartWorkConn,
    NewVisitorConn,
    NewWorkConn,
    Ping,
    LoginResp,
    Login,
    NatHoleVisitor,
    NatHoleClient,
    NatHoleResp,
    NatHoleSid,
    NatHoleReport,
    Error,
    VnetRouteAdvertise,
    VnetPacket,
    VnetRouteRemove,
}

/// The V1 type byte of a kind of message.
pub open spec fn v1_byte(k: MsgKind) -> u8 {
    match k {
        MsgKind::CloseProxyResp => TYPE_CLOSE_PROXY_RESP,
        MsgKind::CloseProxy => TYPE_CLOSE_PROXY,
        MsgKind::ReqWorkConn => TYPE_REQ_WORK_CONN,
        MsgKind::NewProxyResp => TYPE_NEW_PROXY_RESP,
        MsgKind::NewVisitorConnResp => TYPE_NEW_VISITOR_CONN_RESP,
        MsgKind::Pong => TYPE_PONG,
        MsgKind::NewProxy => TYPE_NEW_PROXY,
        MsgKind::UDPPacket => TYPE_UDP_PACKET,
        MsgKind::StartWorkConn => TYPE_START_WORK_CONN,
        MsgKind::NewVisitorConn => TYPE_NEW_VISITOR_CONN,
        MsgKind::NewWorkConn => TYPE_NEW_WORK_CONN,
        MsgKind::Ping => TYPE_PING,
        MsgKind::LoginResp => TYPE_LOGIN_RESP,
        MsgKind::Login => TYPE_LOGIN,
        MsgKind::NatHoleVisitor => TYPE_NAT_HOLE_VISITOR,
        MsgKind::NatHoleClient => TYPE_NAT_HOLE_CLIENT,
        MsgKind::NatHoleResp => TYPE_NAT_HOLE_RESP,
        MsgKind::NatHoleSid => TYPE_NAT_HOLE_SID,
        MsgKind::NatHoleReport => TYPE_NAT_HOLE_REPORT,
        MsgKind::Error => TYPE_ERROR,
        MsgKind::VnetRouteAdvertise => TYPE_VNET_ROUTE_ADVERTISE,
        MsgKind::VnetPacket => TYPE_VNET_PACKET,
        MsgKind::VnetRouteRemove => TYPE_VNET_ROUTE_REMOVE,
    }
}

/// The V2 type ID of a kind of message.
pub open spec fn v2_id(k: MsgKind) -> u16 {
    match k {
        MsgKind::CloseProxyResp => V2_TYPE_CLOSE_PROXY_RESP,
        MsgKind::CloseProxy => V2_TYPE_CLOSE_PROXY,
        MsgKind::ReqWorkConn => V2_TYPE_REQ_WORK_CONN,
        MsgKind::NewProxyResp => V2_TYPE_NEW_PROXY_RESP,
        MsgKind::NewVisitorConnResp => V2_TYPE_NEW_VISITOR_CONN_RESP,
        MsgKind::Pong => V2_TYPE_PONG,
        MsgKind::NewProxy => V2_TYPE_NEW_PROXY,
        MsgKind::UDPPacket => V2_TYPE_UDP_PACKET,
        MsgKind::StartWorkConn => V2_TYPE_START_WORK_CONN,
        MsgKind::NewVisitorConn => V2_TYPE_NEW_VISITOR_CONN,
        MsgKind::NewWorkConn => V2_TYPE_NEW_WORK_CONN,
        MsgKind::Ping => V2_TYPE_PING,
        MsgKind::LoginResp => V2_TYPE_LOGIN_RESP,
        MsgKind::Login => V2_TYPE_LOGIN,
        MsgKind::NatHoleVisitor => V2_TYPE_NAT_HOLE_VISITOR,
        MsgKind::NatHoleClient => V2_TYPE_NAT_HOLE_CLIENT,
        MsgKind::NatHoleResp => V2_TYPE_NAT_HOLE_RESP,
        MsgKind::NatHoleSid => V2_TYPE_NAT_HOLE_SID,
        MsgKind::NatHoleReport => V2_TYPE_NAT_HOLE_REPORT,
        MsgKind::Error => V2_TYPE_ERROR,
        MsgKind::VnetRouteAdvertise => V2_TYPE_VNET_ROUTE_ADVERTISE,
        MsgKind::VnetPacket => V2_TYPE_VNET_PACKET,
        MsgKind::VnetRouteRemove => V2_TYPE_VNET_ROUTE_REMOVE,
    }
}

/// The kind of a message.
pub open spec fn kind_of(m: FrpMessage) -> MsgKind {
    match m {
        FrpMessage::CloseProxyResp(_) => MsgKind::CloseProxyResp,
        FrpMessage::CloseProxy(_) => MsgKind::CloseProxy,
        FrpMessage::ReqWorkConn(_) => MsgKind::ReqWorkConn,
        FrpMessage::NewProxyResp(_) => MsgKind::NewProxyResp,
        FrpMessage::NewVisitorConnResp(_) => MsgKind::NewVisitorConnResp,
        FrpMessage::Pong(_) => MsgKind::Pong,
        FrpMessage::NewProxy(_) => MsgKind::NewProxy,
        FrpMessage::UDPPacket(_) => MsgKind::UDPPacket,
        FrpMessage::StartWorkConn(_) => MsgKind::StartWorkConn,
        FrpMessage::NewVisitorConn(_) => MsgKind::NewVisitorConn,
        FrpMessage::NewWorkConn(_) => MsgKind::NewWorkConn,
        FrpMessage::Ping(_) => MsgKind::Ping,
        FrpMessage::LoginResp(_) => MsgKind::LoginResp,
        FrpMessage::Login(_) => MsgKind::Login,
        FrpMessage::NatHoleVisitor(_) => MsgKind::NatHoleVisitor,
        FrpMessage::NatHoleClient(_) => MsgKind::NatHoleClient,
        FrpMessage::NatHoleResp(_) => MsgKind::NatHoleResp,
        FrpMessage::NatHoleSid(_) => MsgKind::NatHoleSid,
        FrpMessage::NatHoleReport(_) => MsgKind::NatHoleReport,
        FrpMessage::Error(_) => MsgKind::Error,
        FrpMessage::VnetRouteAdvertise(_) => MsgKind::VnetRouteAdvertise,
        FrpMessage::VnetPacket(_) => MsgKind::VnetPacket,
        FrpMessage::VnetRouteRemove(_) => MsgKind::VnetRouteRemove,
    }
}

/// The kind with a V1 type byte, if there is one.
pub open spec fn kind_of_v1(ty: u8) -> Option<MsgKind> {
    if ty == TYPE_CLOSE_PROXY_RESP {
        Some(MsgKind::CloseProxyResp)
    } else if ty == TYPE_CLOSE_PROXY {
        Some(MsgKind::CloseProxy)
    } else if ty == TYPE_REQ_WORK_CONN {
        Some(MsgKind::ReqWorkConn)
    } else if ty == TYPE_NEW_PROXY_RESP {
        Some(MsgKind::NewProxyResp)
    } else if ty == TYPE_NEW_VISITOR_CONN_RESP {
        Some(MsgKind::NewVisitorConnResp)
    } else if ty == TYPE_PONG {
        Some(MsgKind::Pong)
    } else if ty == TYPE_NEW_PROXY {
        Some(MsgKind::NewProxy)
    } else if ty == TYPE_UDP_PACKET {
        Some(MsgKind::UDPPacket)
    } else if ty == TYPE_START_WORK_CONN {
        Some(MsgKind::StartWorkConn)
    } else if ty == TYPE_NEW_VISITOR_CONN {
        Some(MsgKind::NewVisitorConn)
    } else if ty == TYPE_NEW_WORK_CONN {
        Some(MsgKind::NewWorkConn)
    } else if ty == TYPE_PING {
        Some(MsgKind::Ping)
    } else if ty == TYPE_LOGIN_RESP {
        Some(MsgKind::LoginResp)
    } else if ty == TYPE_LOGIN {
        Some(MsgKind::Login)
    } else if ty == TYPE_NAT_HOLE_VISITOR {
        Some(MsgKind::NatHoleVisitor)
    } else if ty == TYPE_NAT_HOLE_CLIENT {
        Some(MsgKind::NatHoleClient)
    } else if ty == TYPE_NAT_HOLE_RESP {
        Some(MsgKind::NatHoleResp)
    } else if ty == TYPE_NAT_HOLE_SID {
        Some(MsgKind::NatHoleSid)
    } else if ty == TYPE_NAT_HOLE_REPORT {
        Some(MsgKind::NatHoleReport)
    } else if ty == TYPE_ERROR {
        Some(MsgKind::Error)
    } else if ty == TYPE_VNET_ROUTE_ADVERTISE {
        Some(MsgKind::VnetRouteAdvertise)
    } else if ty == TYPE_VNET_PACKET {
        Some(MsgKind::VnetPacket)
    } else if ty == TYPE_VNET_ROUTE_REMOVE {
        Some(MsgKind::VnetRouteRemove)
    } else {
        None
    }
}

/// The kind with a V2 type ID, if there is one.
pub open spec fn kind_of_v2(id: u16) -> Option<MsgKind> {
    if id == V2_TYPE_CLOSE_PROXY_RESP {
        Some(MsgKind::CloseProxyResp)
    } else if id == V2_TYPE_CLOSE_PROXY {
        Some(MsgKind::CloseProxy)
    } else if id == V2_TYPE_REQ_WORK_CONN {
        Some(MsgKind::ReqWorkConn)
    } else if id == V2_TYPE_NEW_PROXY_RESP {
        Some(MsgKind::NewProxyResp)
    } else if id == V2_TYPE_NEW_VISITOR_CONN_RESP {
        Some(MsgKind::NewVisitorConnResp)
    } else if id == V2_TYPE_PONG {
        Some(MsgKind::Pong)
    } else if id == V2_TYPE_NEW_PROXY {
        Some(MsgKind::NewProxy)
    } else if id == V2_TYPE_UDP_PACKET {
        Some(MsgKind::UDPPacket)
    } else if id == V2_TYPE_START_WORK_CONN {
        Some(MsgKind::StartWorkConn)
    } else if id == V2_TYPE_NEW_VISITOR_CONN {
        Some(MsgKind::NewVisitorConn)
    } else if id == V2_TYPE_NEW_WORK_CONN {
        Some(MsgKind::NewWorkConn)
    } else if id == V2_TYPE_PING {
        Some(MsgKind::Ping)
    } else if id == V2_TYPE_LOGIN_RESP {
        Some(MsgKind::LoginResp)
    } else if id == V2_TYPE_LOGIN {
        Some(MsgKind::Login)
    } else if id == V2_TYPE_NAT_HOLE_VISITOR {
        Some(MsgKind::NatHoleVisitor)
    } else if id == V2_TYPE_NAT_HOLE_CLIENT {
        Some(MsgKind::NatHoleClient)
    } else if id == V2_TYPE_NAT_HOLE_RESP {
        Some(MsgKind::NatHoleResp)
    } else if id == V2_TYPE_NAT_HOLE_SID {
        Some(MsgKind::NatHoleSid)
    } else if id == V2_TYPE_NAT_HOLE_REPORT {
        Some(MsgKind::NatHoleReport)
    } else if id == V2_TYPE_ERROR {
        Some(MsgKind::Error)
    } else if id == V2_TYPE_VNET_ROUTE_ADVERTISE {
        Some(MsgKind::VnetRouteAdvertise)
    } else if id == V2_TYPE_VNET_PACKET {
        Some(MsgKind::VnetPacket)
    } else if id == V2_TYPE_VNET_ROUTE_REMOVE {
        Some(MsgKind::VnetRouteRemove)
    } else {
        None
    }
}

/// A message's type byte tells its kind, and no other byte does.
pub proof fn law_v1_bytes_tell_kinds_apart(ty: u8, k: MsgKind)
    ensures
        kind_of_v1(ty) == Some(k) <==> ty == v1_byte(k),
{
}

/// A message's type ID tells its kind, and no other ID does.
pub proof fn law_v2_ids_tell_kinds_apart(id: u16, k: MsgKind)
    ensures
        kind_of_v2(id) == Some(k) <==> id == v2_id(k),
{
}

/// The V2 type IDs as numbers, both ways: they are what peers put on the wire.
/// Any other number is no message.
pub proof fn law_v2_ids_are_fixed(id: u16)
    ensures
        v2_id(MsgKind::Login) == 1,
        v2_id(MsgKind::LoginResp) == 2,
        v2_id(MsgKind::NewProxy) == 3,
        v2_id(MsgKind::NewProxyResp) == 4,
        v2_id(MsgKind::CloseProxy) == 5,
        v2_id(MsgKind::NewWorkConn) == 6,
        v2_id(MsgKind::ReqWorkConn) == 7,
        v2_id(MsgKind::StartWorkConn) == 8,
        v2_id(MsgKind::NewVisitorConn) == 9,
        v2_id(MsgKind::NewVisitorConnResp) == 10,
        v2_id(MsgKind::Ping) == 11,
        v2_id(MsgKind::Pong) == 12,
        v2_id(MsgKind::UDPPacket) == 13,
        v2_id(MsgKind::NatHoleVisitor) == 14,
        v2_id(MsgKind::NatHoleClient) == 15,
        v2_id(MsgKind::NatHoleResp) == 16,
        v2_id(MsgKind::NatHoleSid) == 17,
        v2_id(MsgKind::NatHoleReport) == 18,
        v2_id(MsgKind::CloseProxyResp) == 21,
        v2_id(MsgKind::Error) == 22,
        v2_id(MsgKind::VnetRouteAdvertise) == 42,
        v2_id(MsgKind::VnetPacket) == 43,
        v2_id(MsgKind::VnetRouteRemove) == 44,
        kind_of_v2(1) == Some(MsgKind::Login),
        kind_of_v2(2) == Some(MsgKind::LoginResp),
        kind_of_v2(3) == Some(MsgKind::NewProxy),
        kind_of_v2(4) == Some(MsgKind::NewProxyResp),
        kind_of_v2(5) == Some(MsgKind::CloseProxy),
        kind_of_v2(6) == Some(MsgKind::NewWorkConn),
        kind_of_v2(7) == Some(MsgKind::ReqWorkConn),
        kind_of_v2(8) == Some(MsgKind::StartWorkConn),
        kind_of_v2(9) == Some(MsgKind::NewVisitorConn),
        kind_of_v2(10) == Some(MsgKind::NewVisitorConnResp),
        kind_of_v2(11) == Some(MsgKind::Ping),
        kind_of_v2(12) == Some(MsgKind::Pong),
        kind_of_v2(13) == Some(MsgKind::UDPPacket),
        kind_of_v2(14) == Some(MsgKind::NatHoleVisitor),
        kind_of_v2(15) == Some(MsgKind::NatHoleClient),
        kind_of_v2(16) == Some(MsgKind::NatHoleResp),
        kind_of_v2(17) == Some(MsgKind::NatHoleSid),
        kind_of_v2(18) == Some(MsgKind::NatHoleReport),
        kind_of_v2(21) == Some(MsgKind::CloseProxyResp),
        kind_of_v2(22) == Some(MsgKind::Error),
        kind_of_v2(42) == Some(MsgKind::VnetRouteAdvertise),
        kind_of_v2(43) == Some(MsgKind::VnetPacket),
        kind_of_v2(44) == Some(MsgKind::VnetRouteRemove),
        id == 0 || id == 19 || id == 20 || 22 < id < 42 || id > 44 ==> kind_of_v2(id) is None,
{
}

/// The V1 type bytes as numbers, both ways: they are what peers put on the wire.
/// They are ASCII letters, digits and signs; any other byte is no message.
pub proof fn law_v1_bytes_are_fixed(ty: u8)
    ensures
        v1_byte(MsgKind::Login) == 0x6f,
        v1_byte(MsgKind::LoginResp) == 0x31,
        v1_byte(MsgKind::NewProxy) == 0x70,
        v1_byte(MsgKind::NewProxyResp) == 0x32,
        v1_byte(MsgKind::CloseProxy) == 0x63,
        v1_byte(MsgKind::NewWorkConn) == 0x77,
        v1_byte(MsgKind::ReqWorkConn) == 0x72,
        v1_byte(MsgKind::StartWorkConn) == 0x73,
        v1_byte(MsgKind::NewVisitorConn) == 0x76,
        v1_byte(MsgKind::NewVisitorConnResp) == 0x33,
        v1_byte(MsgKind::Ping) == 0x68,
        v1_byte(MsgKind::Pong) == 0x34,
        v1_byte(MsgKind::UDPPacket) == 0x75,
        v1_byte(MsgKind::NatHoleVisitor) == 0x69,
        v1_byte(MsgKind::NatHoleClient) == 0x6e,
        v1_byte(MsgKind::NatHoleResp) == 0x6d,
        v1_byte(MsgKind::NatHoleSid) == 0x35,
        v1_byte(MsgKind::NatHoleReport) == 0x36,
        v1_byte(MsgKind::CloseProxyResp) == 0x37,
        v1_byte(MsgKind::Error) == 0x38,
        v1_byte(MsgKind::VnetRouteAdvertise) == 0x40,
        v1_byte(MsgKind::VnetPacket) == 0x41,
        v1_byte(MsgKind::VnetRouteRemove) == 0x42,
        kind_of_v1(0x6f) == Some(MsgKind::Login),
        kind_of_v1(0x31) == Some(MsgKind::LoginResp),
        kind_of_v1(0x70) == Some(MsgKind::NewProxy),
        kind_of_v1(0x32) == Some(MsgKind::NewProxyResp),
        kind_of_v1(0x63) == Some(MsgKind::CloseProxy),
        kind_of_v1(0x77) == Some(MsgKind::NewWorkConn),
        kind_of_v1(0x72) == Some(MsgKind::ReqWorkConn),
        kind_of_v1(0x73) == Some(MsgKind::StartWorkConn),
        kind_of_v1(0x76) == Some(MsgKind::NewVisitorConn),
        kind_of_v1(0x33) == Some(MsgKind::NewVisitorConnResp),
        kind_of_v1(0x68) == Some(MsgKind::Ping),
        kind_of_v1(0x34) == Some(MsgKind::Pong),
        kind_of_v1(0x75) == Some(MsgKind::UDPPacket),
        kind_of_v1(0x69) == Some(MsgKind::NatHoleVisitor),
        kind_of_v1(0x6e) == Some(MsgKind::NatHoleClient),
        kind_of_v1(0x6d) == Some(MsgKind::NatHoleResp),
        kind_of_v1(0x35) == Some(MsgKind::NatHoleSid),
        kind_of_v1(0x36) == Some(MsgKind::NatHoleReport),
        kind_of_v1(0x37) == Some(MsgKind::CloseProxyResp),
        kind_of_v1(0x38) == Some(MsgKind::Error),
        kind_of_v1(0x40) == Some(MsgKind::VnetRouteAdvertise),
        kind_of_v1(0x41) == Some(MsgKind::VnetPacket),
        kind_of_v1(0x42) == Some(MsgKind::VnetRouteRemove),
        ty < 0x31 || 0x38 < ty < 0x40 || 0x42 < ty < 0x63 || ty > 0x77 ==> kind_of_v1(ty) is None,
        0x63 < ty < 0x68 || 0x6a <= ty <= 0x6c || ty == 0x71 || ty == 0x74 ==> kind_of_v1(
            ty,
        ) is None,
{
}

/// A message is of the kind that it is named after.
pub proof fn law_messages_have_their_kind(m: FrpMessage)
    ensures
        m is Login <==> kind_of(m) == MsgKind::Login,
        m is LoginResp <==> kind_of(m) == MsgKind::LoginResp,
        m is NewProxy <==> kind_of(m) == MsgKind::NewProxy,
        m is NewProxyResp <==> kind_of(m) == MsgKind::NewProxyResp,
        m is CloseProxy <==> kind_of(m) == MsgKind::CloseProxy,
        m is NewWorkConn <==> kind_of(m) == MsgKind::NewWorkConn,
        m is ReqWorkConn <==> kind_of(m) == MsgKind::ReqWorkConn,
        m is StartWorkConn <==> kind_of(m) == MsgKind::StartWorkConn,
        m is NewVisitorConn <==> kind_of(m) == MsgKind::NewVisitorConn,
        m is NewVisitorConnResp <==> kind_of(m) == MsgKind::NewVisitorConnResp,
        m is Ping <==> kind_of(m) == MsgKind::Ping,
        m is Pong <==> kind_of(m) == MsgKind::Pong,
        m is UDPPacket <==> kind_of(m) == MsgKind::UDPPacket,
        m is NatHoleVisitor <==> kind_of(m) == MsgKind::NatHoleVisitor,
        m is NatHoleClient <==> kind_of(m) == MsgKind::NatHoleClient,
        m is NatHoleResp <==> kind_of(m) == MsgKind::NatHoleResp,
        m is NatHoleSid <==> kind_of(m) == MsgKind::NatHoleSid,
        m is NatHoleReport <==> kind_of(m) == MsgKind::NatHoleReport,
        m is CloseProxyResp <==> kind_of(m) == MsgKind::CloseProxyResp,
        m is Error <==> kind_of(m) == MsgKind::Error,
        m is VnetRouteAdvertise <==> kind_of(m) == MsgKind::VnetRouteAdvertise,
        m is VnetPacket <==> kind_of(m) == MsgKind::VnetPacket,
        m is VnetRouteRemove <==> kind_of(m) == MsgKind::VnetRouteRemove,
{
}

impl MsgKind {
    /// The kind with a V1 type byte, if there is one.
    pub fn from_v1_type_byte(ty: u8) -> (r: Option<MsgKind>)
        ensures
            r == kind_of_v1(ty),
    {
        match ty {
            TYPE_CLOSE_PROXY_RESP => Some(MsgKind::CloseProxyResp),
            TYPE_CLOSE_PROXY => Some(MsgKind::CloseProxy),
            TYPE_REQ_WORK_CONN => Some(MsgKind::ReqWorkConn),
            TYPE_NEW_PROXY_RESP => Some(MsgKind::NewProxyResp),
            TYPE_NEW_VISITOR_CONN_RESP => Some(MsgKind::NewVisitorConnResp),
            TYPE_PONG => Some(MsgKind::Pong),
            TYPE_NEW_PROXY => Some(MsgKind::NewProxy),
            TYPE_UDP_PACKET => Some(MsgKind::UDPPacket),
            TYPE_START_WORK_CONN => Some(MsgKind::StartWorkConn),
            TYPE_NEW_VISITOR_CONN => Some(MsgKind::NewVisitorConn),
            TYPE_NEW_WORK_CONN => Some(MsgKind::NewWorkConn),
            TYPE_PING => Some(MsgKind::Ping),
            TYPE_LOGIN_RESP => Some(MsgKind::LoginResp),
            TYPE_LOGIN => Some(MsgKind::Login),
            TYPE_NAT_HOLE_VISITOR => Some(MsgKind::NatHoleVisitor),
            TYPE_NAT_HOLE_CLIENT => Some(MsgKind::NatHoleClient),
            TYPE_NAT_HOLE_RESP => Some(MsgKind::NatHoleResp),
            TYPE_NAT_HOLE_SID => Some(MsgKind::NatHoleSid),
            TYPE_NAT_HOLE_REPORT => Some(MsgKind::NatHoleReport),
            TYPE_ERROR => Some(MsgKind::Error),
            TYPE_VNET_ROUTE_ADVERTISE => Some(MsgKind::VnetRouteAdvertise),
            TYPE_VNET_PACKET => Some(MsgKind::VnetPacket),
            TYPE_VNET_ROUTE_REMOVE => Some(MsgKind::VnetRouteRemove),
            _ => None,
        }
    }

    /// The kind with a V2 type ID, if there is one.
    pub fn from_v2_type_id(id: u16) -> (r: Option<MsgKind>)
        ensures
            r == kind_of_v2(id),
    {
        match id {
            V2_TYPE_CLOSE_PROXY_RESP => Some(MsgKind::CloseProxyResp),
            V2_TYPE_CLOSE_PROXY => Some(MsgKind::CloseProxy),
            V2_TYPE_REQ_WORK_CONN => Some(MsgKind::ReqWorkConn),
            V2_TYPE_NEW_PROXY_RESP => Some(MsgKind::NewProxyResp),
            V2_TYPE_NEW_VISITOR_CONN_RESP => Some(MsgKind::NewVisitorConnResp),
            V2_TYPE_PONG => Some(MsgKind::Pong),
            V2_TYPE_NEW_PROXY => Some(MsgKind::NewProxy),
            V2_TYPE_UDP_PACKET => Some(MsgKind::UDPPacket),
            V2_TYPE_START_WORK_CONN => Some(MsgKind::StartWorkConn),
            V2_TYPE_NEW_VISITOR_CONN => Some(MsgKind::NewVisitorConn),
            V2_TYPE_NEW_WORK_CONN => Some(MsgKind::NewWorkConn),
            V2_TYPE_PING => Some(MsgKind::Ping),
            V2_TYPE_LOGIN_RESP => Some(MsgKind::LoginResp),
            V2_TYPE_LOGIN => Some(MsgKind::Login),
            V2_TYPE_NAT_HOLE_VISITOR => Some(MsgKind::NatHoleVisitor),
            V2_TYPE_NAT_HOLE_CLIENT => Some(MsgKind::NatHoleClient),
            V2_TYPE_NAT_HOLE_RESP => Some(MsgKind::NatHoleResp),
            V2_TYPE_NAT_HOLE_SID => Some(MsgKind::NatHoleSid),
            V2_TYPE_NAT_HOLE_REPORT => Some(MsgKind::NatHoleReport),
            V2_TYPE_ERROR => Some(MsgKind::Error),
            V2_TYPE_VNET_ROUTE_ADVERTISE => Some(MsgKind::VnetRouteAdvertise),
            V2_TYPE_VNET_PACKET => Some(MsgKind::VnetPacket),
            V2_TYPE_VNET_ROUTE_REMOVE => Some(MsgKind::VnetRouteRemove),
            _ => None,
        }
    }

    pub fn v1_type_byte(&self) -> (r: u8)
        ensures
            r == v1_byte(*self),
    {
        match self {
            MsgKind::CloseProxyResp => TYPE_CLOSE_PROXY_RESP,
            MsgKind::CloseProxy => TYPE_CLOSE_PROXY,
            MsgKind::ReqWorkConn => TYPE_REQ_WORK_CONN,
            MsgKind::NewProxyResp => TYPE_NEW_PROXY_RESP,
            MsgKind::NewVisitorConnResp => TYPE_NEW_VISITOR_CONN_RESP,
            MsgKind::Pong => TYPE_PONG,
            MsgKind::NewProxy => TYPE_NEW_PROXY,
            MsgKind::UDPPacket => TYPE_UDP_PACKET,
            MsgKind::StartWorkConn => TYPE_START_WORK_CONN,
            MsgKind::NewVisitorConn => TYPE_NEW_VISITOR_CONN,
            MsgKind::NewWorkConn => TYPE_NEW_WORK_CONN,
            MsgKind::Ping => TYPE_PING,
            MsgKind::LoginResp => TYPE_LOGIN_RESP,
            MsgKind::Login => TYPE_LOGIN,
            MsgKind::NatHoleVisitor => TYPE_NAT_HOLE_VISITOR,
            MsgKind::NatHoleClient => TYPE_NAT_HOLE_CLIENT,
            MsgKind::NatHoleResp => TYPE_NAT_HOLE_RESP,
            MsgKind::NatHoleSid => TYPE_NAT_HOLE_SID,
            MsgKind::NatHoleReport => TYPE_NAT_HOLE_REPORT,
            MsgKind::Error => TYPE_ERROR,
            MsgKind::VnetRouteAdvertise => TYPE_VNET_ROUTE_ADVERTISE,
            MsgKind::VnetPacket => TYPE_VNET_PACKET,
            MsgKind::VnetRouteRemove => TYPE_VNET_ROUTE_REMOVE,
        }
    }

    pub fn v2_type_id(&self) -> (r: u16)
        ensures
            r == v2_id(*self),
    {
        match self {
            MsgKind::CloseProxyResp => V2_TYPE_CLOSE_PROXY_RESP,
            MsgKind::CloseProxy => V2_TYPE_CLOSE_PROXY,
            MsgKind::ReqWorkConn => V2_TYPE_REQ_WORK_CONN,
            MsgKind::NewProxyResp => V2_TYPE_NEW_PROXY_RESP,
            MsgKind::NewVisitorConnResp => V2_TYPE_NEW_VISITOR_CONN_RESP,
            MsgKind::Pong => V2_TYPE_PONG,
            MsgKind::NewProxy => V2_TYPE_NEW_PROXY,
            MsgKind::UDPPacket => V2_TYPE_UDP_PACKET,
            MsgKind::StartWorkConn => V2_TYPE_START_WORK_CONN,
            MsgKind::NewVisitorConn => V2_TYPE_NEW_VISITOR_CONN,
            MsgKind::NewWorkConn => V2_TYPE_NEW_WORK_CONN,
            MsgKind::Ping => V2_TYPE_PING,
            MsgKind::LoginResp => V2_TYPE_LOGIN_RESP,
            MsgKind::Login => V2_TYPE_LOGIN,
            MsgKind::NatHoleVisitor => V2_TYPE_NAT_HOLE_VISITOR,
            MsgKind::NatHoleClient => V2_TYPE_NAT_HOLE_CLIENT,
            MsgKind::NatHoleResp => V2_TYPE_NAT_HOLE_RESP,
            MsgKind::NatHoleSid => V2_TYPE_NAT_HOLE_SID,
            MsgKind::NatHoleReport => V2_TYPE_NAT_HOLE_REPORT,
            MsgKind::Error => V2_TYPE_ERROR,
            MsgKind::VnetRouteAdvertise => V2_TYPE_VNET_ROUTE_ADVERTISE,
            MsgKind::VnetPacket => V2_TYPE_VNET_PACKET,
            MsgKind::VnetRouteRemove => V2_TYPE_VNET_ROUTE_REMOVE,
        }
    }
}

// ── empty messages ──────────────────────────────────────────────────────

impl CloseProxyResp {
    /// Nothing is set.
    pub open spec fn is_blank(&self) -> bool {
        &&& self.proxy_name@.len() == 0
    }

    fn blank() -> (r: CloseProxyResp)
        ensures
            r.is_blank(),
    {
        CloseProxyResp {
            proxy_name: String::new(),
        }
    }
}

impl CloseProxy {
    /// Nothing is set.
    pub open spec fn is_blank(&self) -> bool {
        &&& self.proxy_name@.len() == 0
    }

    fn blank() -> (r: CloseProxy)
        ensures
            r.is_blank(),
    {
        CloseProxy {
            proxy_name: String::new(),
        }
    }
}

impl ReqWorkConn {
    /// Nothing is set.
    pub open spec fn is_blank(&self) -> bool {
        true
    }

    fn blank() -> (r: ReqWorkConn)
        ensures
            r.is_blank(),
    {
        ReqWorkConn {}
    }
}

impl NewProxyResp {
    /// Nothing is set.
    pub open spec fn is_blank(&self) -> bool {
        &&& self.proxy_name@.len() == 0
        &&& self.remote_addr is None
        &&& self.error is None
    }

    fn blank() -> (r: NewProxyResp)
        ensures
            r.is_blank(),
    {
        NewProxyResp {
            proxy_name: String::new(),
            remote_addr: None,
            error: None,
        }
    }
}

impl NewVisitorConnResp {
    /// Nothing is set.
    pub open spec fn is_blank(&self) -> bool {
        &&& self.proxy_name@.len() == 0
        &&& self.error is None
    }

    fn blank() -> (r: NewVisitorConnResp)
        ensures
            r.is_blank(),
    {
        NewVisitorConnResp {
            proxy_name: String::new(),
            error: None,
        }
    }
}

impl Pong {
    /// Nothing is set.
    pub open spec fn is_blank(&self) -> bool {
        &&& self.error is None
    }

    fn blank() -> (r: Pong)
        ensures
            r.is_blank(),
    {
        Pong {
            error: None,
        }
    }
}

impl NewProxy {
    /// Nothing is set.
    pub open spec fn is_blank(&self) -> bool {
        &&& self.proxy_name@.len() == 0
        &&& self.proxy_type@.len() == 0
        &&& self.use_encryption is None
        &&& self.use_compression is None
        &&& self.group is None
        &&& self.group_key is None
        &&& self.local_str is None
        &&& self.remote_port is None
        &&& self.sk is None
        &&& self.custom_domains is None
        &&& self.subdomain is None
        &&& self.locations is None
        &&& self.http_user is None
        &&& self.http_pwd is None
        &&& self.host_header_rewrite is None
        &&& self.headers is None
        &&& self.response_headers is None
        &&& self.route_by_http_user is None
        &&& self.allow_users is None
        &&& self.bandwidth_limit is None
        &&& self.bandwidth_limit_mode is None
        &&& self.annotations is None
        &&& self.metas is None
        &&& self.multiplexer is None
        &&& self.virtual_net is None
        &&& self.proxy_protocol_version is None
        &&& self.advertise_subnet is None
        &&& self.vnet_ip is None
        &&& self.vnet_netmask is None
        &&& self.vnet_mtu is None
    }

    fn blank() -> (r: NewProxy)
        ensures
            r.is_blank(),
    {
        NewProxy {
            proxy_name: String::new(),
            proxy_type: String::new(),
            use_encryption: None,
            use_compression: None,
            group: None,
            group_key: None,
            local_str: None,
            remote_port: None,
            sk: None,
            custom_domains: None,
            subdomain: None,
            locations: None,
            http_user: None,
            http_pwd: None,
            host_header_rewrite: None,
            headers: None,
            response_headers: None,
            route_by_http_user: None,
            allow_users: None,
            bandwidth_limit: None,
            bandwidth_limit_mode: None,
            annotations: None,
            metas: None,
            multiplexer: None,
            virtual_net: None,
            proxy_protocol_version: None,
            advertise_subnet: None,
            vnet_ip: None,
            vnet_netmask: None,
            vnet_mtu: None,
        }
    }
}

impl UDPPacket {
    /// Nothing is set.
    pub open spec fn is_blank(&self) -> bool {
        &&& self.content@.len() == 0
        &&& self.local_addr is None
        &&& self.remote_addr is None
    }

    fn blank() -> (r: UDPPacket)
        ensures
            r.is_blank(),
    {
        UDPPacket {
            content: Vec::new(),
            local_addr: None,
            remote_addr: None,
        }
    }
}

impl StartWorkConn {
    /// Nothing is set.
    pub open spec fn is_blank(&self) -> bool {
        &&& self.proxy_name@.len() == 0
        &&& self.src_addr is None
        &&& self.src_port is None
        &&& self.dst_addr is None
        &&& self.dst_port is None
        &&& self.error is None
        &&& self.use_encryption is None
        &&& self.use_compression is None
        &&& self.nat_hole_sid is None
        &&& self.nat_hole_visitor_addr is None
        &&& self.sk is None
    }

    fn blank() -> (r: StartWorkConn)
        ensures
            r.is_blank(),
    {
        StartWorkConn {
            proxy_name: String::new(),
            src_addr: None,
            src_port: None,
            dst_addr: None,
            dst_port: None,
            error: None,
            use_encryption: None,
            use_compression: None,
            nat_hole_sid: None,
            nat_hole_visitor_addr: None,
            sk: None,
        }
    }
}

impl NewVisitorConn {
    /// Nothing is set.
    pub open spec fn is_blank(&self) -> bool {
        &&& self.proxy_name@.len() == 0
        &&& self.sign_key is None
        &&& self.timestamp is None
        &&& self.run_id is None
        &&& self.use_encryption is None
        &&& self.use_compression is None
    }

    fn blank() -> (r: NewVisitorConn)
        ensures
            r.is_blank(),
    {
        NewVisitorConn {
            proxy_name: String::new(),
            sign_key: None,
            timestamp: None,
            run_id: None,
            use_encryption: None,
            use_compression: None,
        }
    }
}

impl NewWorkConn {
    /// Nothing is set.
    pub open spec fn is_blank(&self) -> bool {
        &&& self.run_id is None
        &&& self.timestamp is None
        &&& self.privilege_key is None
    }

    fn blank() -> (r: NewWorkConn)
        ensures
            r.is_blank(),
    {
        NewWorkConn {
            run_id: None,
            timestamp: None,
            privilege_key: None,
        }
    }
}

impl Ping {
    /// Nothing is set.
    pub open spec fn is_blank(&self) -> bool {
        &&& self.privilege_key is None
        &&& self.timestamp is None
    }

    fn blank() -> (r: Ping)
        ensures
            r.is_blank(),
    {
        Ping {
            privilege_key: None,
            timestamp: None,
        }
    }
}

impl LoginResp {
    /// Nothing is set.
    pub open spec fn is_blank(&self) -> bool {
        &&& self.version is None
        &&& self.run_id is None
        &&& self.error is None
        &&& self.server_additional_auth_scopes is None
    }

    fn blank() -> (r: LoginResp)
        ensures
            r.is_blank(),
    {
        LoginResp {
            version: None,
            run_id: None,
            error: None,
            server_additional_auth_scopes: None,
        }
    }
}

impl Login {
    /// Nothing is set.
    pub open spec fn is_blank(&self) -> bool {
        &&& self.version is None
        &&& self.hostname is None
        &&& self.os is None
        &&& self.arch is None
        &&& self.user is None
        &&& self.run_id is None
        &&& self.client_id is None
        &&& self.pool_count is None
        &&& self.timestamp is None
        &&& self.privilege_key is None
        &&& self.metas is None
        &&& self.client_spec is None
        &&& self.multiplexer is None
    }

    fn blank() -> (r: Login)
        ensures
            r.is_blank(),
    {
        Login {
            version: None,
            hostname: None,
            os: None,
            arch: None,
            user: None,
            run_id: None,
            client_id: None,
            pool_count: None,
            timestamp: None,
            privilege_key: None,
            metas: None,
            client_spec: None,
            multiplexer: None,
        }
    }
}

impl NatHoleVisitor {
    /// Nothing is set.
    pub open spec fn is_blank(&self) -> bool {
        &&& self.transaction_id@.len() == 0
        &&& self.proxy_name@.len() == 0
        &&& !self.pre_check
        &&& self.protocol is None
        &&& self.sign_key is None
        &&& self.timestamp is None
        &&& self.mapped_addrs is None
        &&& self.assisted_addrs is None
    }

    fn blank() -> (r: NatHoleVisitor)
        ensures
            r.is_blank(),
    {
        NatHoleVisitor {
            transaction_id: String::new(),
            proxy_name: String::new(),
            pre_check: false,
            protocol: None,
            sign_key: None,
            timestamp: None,
            mapped_addrs: None,
            assisted_addrs: None,
        }
    }
}

impl NatHoleClient {
    /// Nothing is set.
    pub open spec fn is_blank(&self) -> bool {
        &&& self.transaction_id@.len() == 0
        &&& self.proxy_name@.len() == 0
        &&& self.sid is None
        &&& self.protocol is None
        &&& self.mapped_addrs is None
        &&& self.assisted_addrs is None
        &&& self.visitor_addr is None
    }

    fn blank() -> (r: NatHoleClient)
        ensures
            r.is_blank(),
    {
        NatHoleClient {
            transaction_id: String::new(),
            proxy_name: String::new(),
            sid: None,
            protocol: None,
            mapped_addrs: None,
            assisted_addrs: None,
            visitor_addr: None,
        }
    }
}

impl NatHoleResp {
    /// Nothing is set.
    pub open spec fn is_blank(&self) -> bool {
        &&& self.transaction_id@.len() == 0
        &&& self.error is None
        &&& self.sid is None
        &&& self.protocol is None
        &&& self.candidate_addrs is None
        &&& self.assisted_addrs is None
        &&& self.detect_behavior is None
    }

    fn blank() -> (r: NatHoleResp)
        ensures
            r.is_blank(),
    {
        NatHoleResp {
            transaction_id: String::new(),
            error: None,
            sid: None,
            protocol: None,
            candidate_addrs: None,
            assisted_addrs: None,
            detect_behavior: None,
        }
    }
}

impl NatHoleSid {
    /// Nothing is set.
    pub open spec fn is_blank(&self) -> bool {
        &&& self.transaction_id is None
        &&& self.sid is None
        &&& !self.response
        &&& self.nonce is None
    }

    fn blank() -> (r: NatHoleSid)
        ensures
            r.is_blank(),
    {
        NatHoleSid {
            transaction_id: None,
            sid: None,
            response: false,
            nonce: None,
        }
    }
}

impl NatHoleReport {
    /// Nothing is set.
    pub open spec fn is_blank(&self) -> bool {
        &&& self.sid is None
        &&& !self.success
    }

    fn blank() -> (r: NatHoleReport)
        ensures
            r.is_blank(),
    {
        NatHoleReport {
            sid: None,
            success: false,
        }
    }
}

impl Error {
    /// Nothing is set.
    pub open spec fn is_blank(&self) -> bool {
        &&& self.error@.len() == 0
    }

    fn blank() -> (r: Error)
        ensures
            r.is_blank(),
    {
        Error {
            error: String::new(),
        }
    }
}

impl VnetRouteAdvertise {
    /// Nothing is set.
    pub open spec fn is_blank(&self) -> bool {
        &&& self.proxy_name@.len() == 0
        &&& self.subnet@.len() == 0
        &&& self.virtual_net is None
    }

    fn blank() -> (r: VnetRouteAdvertise)
        ensures
            r.is_blank(),
    {
        VnetRouteAdvertise {
            proxy_name: String::new(),
            subnet: String::new(),
            virtual_net: None,
        }
    }
}

impl VnetPacket {
    /// Nothing is set.
    pub open spec fn is_blank(&self) -> bool {
        &&& self.proxy_name@.len() == 0
        &&& self.data@.len() == 0
    }

    fn blank() -> (r: VnetPacket)
        ensures
            r.is_blank(),
    {
        VnetPacket {
            proxy_name: String::new(),
            data: String::new(),
        }
    }
}

impl VnetRouteRemove {
    /// Nothing is set.
    pub open spec fn is_blank(&self) -> bool {
        &&& self.proxy_name@.len() == 0
        &&& self.virtual_net is None
    }

    fn blank() -> (r: VnetRouteRemove)
        ensures
            r.is_blank(),
    {
        VnetRouteRemove {
            proxy_name: String::new(),
            virtual_net: None,
        }
    }
}

/// A message of which nothing is set.
pub open spec fn is_blank(m: FrpMessage) -> bool {
    match m {
        FrpMessage::CloseProxyResp(x) => x.is_blank(),
        FrpMessage::CloseProxy(x) => x.is_blank(),
        FrpMessage::ReqWorkConn(x) => x.is_blank(),
        FrpMessage::NewProxyResp(x) => x.is_blank(),
        FrpMessage::NewVisitorConnResp(x) => x.is_blank(),
        FrpMessage::Pong(x) => x.is_blank(),
        FrpMessage::NewProxy(x) => x.is_blank(),
        FrpMessage::UDPPacket(x) => x.is_blank(),
        FrpMessage::StartWorkConn(x) => x.is_blank(),
        FrpMessage::NewVisitorConn(x) => x.is_blank(),
        FrpMessage::NewWorkConn(x) => x.is_blank(),
        FrpMessage::Ping(x) => x.is_blank(),
        FrpMessage::LoginResp(x) => x.is_blank(),
        FrpMessage::Login(x) => x.is_blank(),
        FrpMessage::NatHoleVisitor(x) => x.is_blank(),
        FrpMessage::NatHoleClient(x) => x.is_blank(),
        FrpMessage::NatHoleResp(x) => x.is_blank(),
        FrpMessage::NatHoleSid(x) => x.is_blank(),
        FrpMessage::NatHoleReport(x) => x.is_blank(),
        FrpMessage::Error(x) => x.is_blank(),
        FrpMessage::VnetRouteAdvertise(x) => x.is_blank(),
        FrpMessage::VnetPacket(x) => x.is_blank(),
        FrpMessage::VnetRouteRemove(x) => x.is_blank(),
    }
}

impl FrpMessage {
    /// Which of the messages it is.
    pub fn kind(&self) -> (r: MsgKind)
        ensures
            r == kind_of(*self),
    {
        match self {
            FrpMessage::CloseProxyResp(_) => MsgKind::CloseProxyResp,
            FrpMessage::CloseProxy(_) => MsgKind::CloseProxy,
            FrpMessage::ReqWorkConn(_) => MsgKind::ReqWorkConn,
            FrpMessage::NewProxyResp(_) => MsgKind::NewProxyResp,
            FrpMessage::NewVisitorConnResp(_) => MsgKind::NewVisitorConnResp,
            FrpMessage::Pong(_) => MsgKind::Pong,
            FrpMessage::NewProxy(_) => MsgKind::NewProxy,
            FrpMessage::UDPPacket(_) => MsgKind::UDPPacket,
            FrpMessage::StartWorkConn(_) => MsgKind::StartWorkConn,
            FrpMessage::NewVisitorConn(_) => MsgKind::NewVisitorConn,
            FrpMessage::NewWorkConn(_) => MsgKind::NewWorkConn,
            FrpMessage::Ping(_) => MsgKind::Ping,
            FrpMessage::LoginResp(_) => MsgKind::LoginResp,
            FrpMessage::Login(_) => MsgKind::Login,
            FrpMessage::NatHoleVisitor(_) => MsgKind::NatHoleVisitor,
            FrpMessage::NatHoleClient(_) => MsgKind::NatHoleClient,
            FrpMessage::NatHoleResp(_) => MsgKind::NatHoleResp,
            FrpMessage::NatHoleSid(_) => MsgKind::NatHoleSid,
            FrpMessage::NatHoleReport(_) => MsgKind::NatHoleReport,
            FrpMessage::Error(_) => MsgKind::Error,
            FrpMessage::VnetRouteAdvertise(_) => MsgKind::VnetRouteAdvertise,
            FrpMessage::VnetPacket(_) => MsgKind::VnetPacket,
            FrpMessage::VnetRouteRemove(_) => MsgKind::VnetRouteRemove,
        }
    }

    pub fn v1_type_byte(&self) -> (r: u8)
        ensures
            r == v1_byte(kind_of(*self)),
    {
        match self {
            FrpMessage::CloseProxyResp(_) => TYPE_CLOSE_PROXY_RESP,
            FrpMessage::CloseProxy(_) => TYPE_CLOSE_PROXY,
            FrpMessage::ReqWorkConn(_) => TYPE_REQ_WORK_CONN,
            FrpMessage::NewProxyResp(_) => TYPE_NEW_PROXY_RESP,
            FrpMessage::NewVisitorConnResp(_) => TYPE_NEW_VISITOR_CONN_RESP,
            FrpMessage::Pong(_) => TYPE_PONG,
            FrpMessage::NewProxy(_) => TYPE_NEW_PROXY,
            FrpMessage::UDPPacket(_) => TYPE_UDP_PACKET,
            FrpMessage::StartWorkConn(_) => TYPE_START_WORK_CONN,
            FrpMessage::NewVisitorConn(_) => TYPE_NEW_VISITOR_CONN,
            FrpMessage::NewWorkConn(_) => TYPE_NEW_WORK_CONN,
            FrpMessage::Ping(_) => TYPE_PING,
            FrpMessage::LoginResp(_) => TYPE_LOGIN_RESP,
            FrpMessage::Login(_) => TYPE_LOGIN,
            FrpMessage::NatHoleVisitor(_) => TYPE_NAT_HOLE_VISITOR,
            FrpMessage::NatHoleClient(_) => TYPE_NAT_HOLE_CLIENT,
            FrpMessage::NatHoleResp(_) => TYPE_NAT_HOLE_RESP,
            FrpMessage::NatHoleSid(_) => TYPE_NAT_HOLE_SID,
            FrpMessage::NatHoleReport(_) => TYPE_NAT_HOLE_REPORT,
            FrpMessage::Error(_) => TYPE_ERROR,
            FrpMessage::VnetRouteAdvertise(_) => TYPE_VNET_ROUTE_ADVERTISE,
            FrpMessage::VnetPacket(_) => TYPE_VNET_PACKET,
            FrpMessage::VnetRouteRemove(_) => TYPE_VNET_ROUTE_REMOVE,
        }
    }

    pub fn v2_type_id(&self) -> (r: u16)
        ensures
            r == v2_id(kind_of(*self)),
    {
        match self {
            FrpMessage::CloseProxyResp(_) => V2_TYPE_CLOSE_PROXY_RESP,
            FrpMessage::CloseProxy(_) => V2_TYPE_CLOSE_PROXY,
            FrpMessage::ReqWorkConn(_) => V2_TYPE_REQ_WORK_CONN,
            FrpMessage::NewProxyResp(_) => V2_TYPE_NEW_PROXY_RESP,
            FrpMessage::NewVisitorConnResp(_) => V2_TYPE_NEW_VISITOR_CONN_RESP,
            FrpMessage::Pong(_) => V2_TYPE_PONG,
            FrpMessage::NewProxy(_) => V2_TYPE_NEW_PROXY,
            FrpMessage::UDPPacket(_) => V2_TYPE_UDP_PACKET,
            FrpMessage::StartWorkConn(_) => V2_TYPE_START_WORK_CONN,
            FrpMessage::NewVisitorConn(_) => V2_TYPE_NEW_VISITOR_CONN,
            FrpMessage::NewWorkConn(_) => V2_TYPE_NEW_WORK_CONN,
            FrpMessage::Ping(_) => V2_TYPE_PING,
            FrpMessage::LoginResp(_) => V2_TYPE_LOGIN_RESP,
            FrpMessage::Login(_) => V2_TYPE_LOGIN,
            FrpMessage::NatHoleVisitor(_) => V2_TYPE_NAT_HOLE_VISITOR,
            FrpMessage::NatHoleClient(_) => V2_TYPE_NAT_HOLE_CLIENT,
            FrpMessage::NatHoleResp(_) => V2_TYPE_NAT_HOLE_RESP,
            FrpMessage::NatHoleSid(_) => V2_TYPE_NAT_HOLE_SID,
            FrpMessage::NatHoleReport(_) => V2_TYPE_NAT_HOLE_REPORT,
            FrpMessage::Error(_) => V2_TYPE_ERROR,
            FrpMessage::VnetRouteAdvertise(_) => V2_TYPE_VNET_ROUTE_ADVERTISE,
            FrpMessage::VnetPacket(_) => V2_TYPE_VNET_PACKET,
            FrpMessage::VnetRouteRemove(_) => V2_TYPE_VNET_ROUTE_REMOVE,
        }
    }

    pub fn as_login(&self) -> (r: Option<&Login>)
        ensures
            r is Some <==> *self is Login,
            r matches Some(x) ==> *self == FrpMessage::Login(Box::new(*x)),
    {
        match self {
            FrpMessage::Login(v) => Some(v),
            _ => None,
        }
    }

    pub fn as_login_resp(&self) -> (r: Option<&LoginResp>)
        ensures
            r is Some <==> *self is LoginResp,
            r matches Some(x) ==> *self == FrpMessage::LoginResp(*x),
    {
        match self {
            FrpMessage::LoginResp(v) => Some(v),
            _ => None,
        }
    }

    pub fn as_new_proxy(&self) -> (r: Option<&NewProxy>)
        ensures
            r is Some <==> *self is NewProxy,
            r matches Some(x) ==> *self == FrpMessage::NewProxy(Box::new(*x)),
    {
        match self {
            FrpMessage::NewProxy(v) => Some(v),
            _ => None,
        }
    }

    pub fn as_new_proxy_resp(&self) -> (r: Option<&NewProxyResp>)
        ensures
            r is Some <==> *self is NewProxyResp,
            r matches Some(x) ==> *self == FrpMessage::NewProxyResp(*x),
    {
        match self {
            FrpMessage::NewProxyResp(v) => Some(v),
            _ => None,
        }
    }

    pub fn as_close_proxy(&self) -> (r: Option<&CloseProxy>)
        ensures
            r is Some <==> *self is CloseProxy,
            r matches Some(x) ==> *self == FrpMessage::CloseProxy(*x),
    {
        match self {
            FrpMessage::CloseProxy(v) => Some(v),
            _ => None,
        }
    }

    pub fn as_new_work_conn(&self) -> (r: Option<&NewWorkConn>)
        ensures
            r is Some <==> *self is NewWorkConn,
            r matches Some(x) ==> *self == FrpMessage::NewWorkConn(*x),
    {
        match self {
            FrpMessage::NewWorkConn(v) => Some(v),
            _ => None,
        }
    }

    pub fn as_start_work_conn(&self) -> (r: Option<&StartWorkConn>)
        ensures
            r is Some <==> *self is StartWorkConn,
            r matches Some(x) ==> *self == FrpMessage::StartWorkConn(Box::new(*x)),
    {
        match self {
            FrpMessage::StartWorkConn(v) => Some(v),
            _ => None,
        }
    }

    pub fn as_ping(&self) -> (r: Option<&Ping>)
        ensures
            r is Some <==> *self is Ping,
            r matches Some(x) ==> *self == FrpMessage::Ping(*x),
    {
        match self {
            FrpMessage::Ping(v) => Some(v),
            _ => None,
        }
    }

    pub fn as_new_visitor_conn(&self) -> (r: Option<&NewVisitorConn>)
        ensures
            r is Some <==> *self is NewVisitorConn,
            r matches Some(x) ==> *self == FrpMessage::NewVisitorConn(*x),
    {
        match self {
            FrpMessage::NewVisitorConn(v) => Some(v),
            _ => None,
        }
    }

    pub fn as_new_visitor_conn_resp(&self) -> (r: Option<&NewVisitorConnResp>)
        ensures
            r is Some <==> *self is NewVisitorConnResp,
            r matches Some(x) ==> *self == FrpMessage::NewVisitorConnResp(*x),
    {
        match self {
            FrpMessage::NewVisitorConnResp(v) => Some(v),
            _ => None,
        }
    }

    pub fn as_close_proxy_resp(&self) -> (r: Option<&CloseProxyResp>)
        ensures
            r is Some <==> *self is CloseProxyResp,
            r matches Some(x) ==> *self == FrpMessage::CloseProxyResp(*x),
    {
        match self {
            FrpMessage::CloseProxyResp(v) => Some(v),
            _ => None,
        }
    }

    pub fn as_pong(&self) -> (r: Option<&Pong>)
        ensures
            r is Some <==> *self is Pong,
            r matches Some(x) ==> *self == FrpMessage::Pong(*x),
    {
        match self {
            FrpMessage::Pong(v) => Some(v),
            _ => None,
        }
    }

    pub fn as_error(&self) -> (r: Option<&Error>)
        ensures
            r is Some <==> *self is Error,
            r matches Some(x) ==> *self == FrpMessage::Error(*x),
    {
        match self {
            FrpMessage::Error(v) => Some(v),
            _ => None,
        }
    }

    /// Construct an empty FrpMessage from a V1 type byte (for deserialization).
    pub fn from_v1_type_byte(ty: u8) -> (r: Option<FrpMessage>)
        ensures
            r is Some <==> kind_of_v1(ty) is Some,
            r matches Some(m) ==> kind_of_v1(ty) == Some(kind_of(m)) && v1_byte(kind_of(m)) == ty
                && is_blank(m),
    {
        match ty {
            TYPE_CLOSE_PROXY_RESP => Some(FrpMessage::CloseProxyResp(CloseProxyResp::blank())),
            TYPE_CLOSE_PROXY => Some(FrpMessage::CloseProxy(CloseProxy::blank())),
            TYPE_REQ_WORK_CONN => Some(FrpMessage::ReqWorkConn(ReqWorkConn::blank())),
            TYPE_NEW_PROXY_RESP => Some(FrpMessage::NewProxyResp(NewProxyResp::blank())),
            TYPE_NEW_VISITOR_CONN_RESP => Some(FrpMessage::NewVisitorConnResp(NewVisitorConnResp::blank())),
            TYPE_PONG => Some(FrpMessage::Pong(Pong::blank())),
            TYPE_NEW_PROXY => Some(FrpMessage::NewProxy(Box::new(NewProxy::blank()))),
            TYPE_UDP_PACKET => Some(FrpMessage::UDPPacket(UDPPacket::blank())),
            TYPE_START_WORK_CONN => Some(FrpMessage::StartWorkConn(Box::new(StartWorkConn::blank()))),
            TYPE_NEW_VISITOR_CONN => Some(FrpMessage::NewVisitorConn(NewVisitorConn::blank())),
            TYPE_NEW_WORK_CONN => Some(FrpMessage::NewWorkConn(NewWorkConn::blank())),
            TYPE_PING => Some(FrpMessage::Ping(Ping::blank())),
            TYPE_LOGIN_RESP => Some(FrpMessage::LoginResp(LoginResp::blank())),
            TYPE_LOGIN => Some(FrpMessage::Login(Box::new(Login::blank()))),
            TYPE_NAT_HOLE_VISITOR => Some(FrpMessage::NatHoleVisitor(NatHoleVisitor::blank())),
            TYPE_NAT_HOLE_CLIENT => Some(FrpMessage::NatHoleClient(Box::new(NatHoleClient::blank()))),
            TYPE_NAT_HOLE_RESP => Some(FrpMessage::NatHoleResp(Box::new(NatHoleResp::blank()))),
            TYPE_NAT_HOLE_SID => Some(FrpMessage::NatHoleSid(NatHoleSid::blank())),
            TYPE_NAT_HOLE_REPORT => Some(FrpMessage::NatHoleReport(NatHoleReport::blank())),
            TYPE_ERROR => Some(FrpMessage::Error(Error::blank())),
            TYPE_VNET_ROUTE_ADVERTISE => Some(FrpMessage::VnetRouteAdvertise(VnetRouteAdvertise::blank())),
            TYPE_VNET_PACKET => Some(FrpMessage::VnetPacket(VnetPacket::blank())),
            TYPE_VNET_ROUTE_REMOVE => Some(FrpMessage::VnetRouteRemove(VnetRouteRemove::blank())),
            _ => None,
        }
    }
}

// ── UDP addresses ───────────────────────────────────────────────────────

/// A number in decimal that is at most `limit`; leading zeros are allowed.
pub open spec fn number(s: Seq<char>, limit: int) -> Option<int> {
    if s.len() > 0 && text::numeral_value(s, 10) is Some && text::numeral_value(s, 10)->0 <= limit {
        text::numeral_value(s, 10)
    } else {
        None
    }
}

/// Where `c` first occurs from `i` on, `s.len()` where it does not.
pub open spec fn first_of(s: Seq<char>, c: char, i: int) -> int
    decreases s.len() - i,
{
    if i >= s.len() || s[i] == c {
        i
    } else {
        first_of(s, c, i + 1)
    }
}

/// What stands in the brackets of an IPv6 socket address: the address, and a
/// scope behind a percent sign where there is one.
pub open spec fn scoped_v6(s: Seq<char>) -> Option<Seq<u16>> {
    let f = text::split(s, '%');
    if f.len() == 1 || (f.len() == 2 && number(f[1], u32::MAX as int) is Some) {
        addr::v6_of(f[0])
    } else {
        None
    }
}

/// The address that a text denotes: an IPv4 address with its port, or an IPv6
/// address in brackets with its port.
pub open spec fn socket_addr_of(s: Seq<char>) -> Option<SocketAddr> {
    if s.len() > 0 && s[0] == '[' {
        let i = first_of(s, ']', 0);
        if i + 1 < s.len() && s[i + 1] == ':' {
            match (scoped_v6(s.subrange(1, i)), number(s.skip(i + 2), 65535)) {
                (Some(g), Some(p)) => Some(SocketAddr { ip: addr::v6_with(g), port: p as u16 }),
                _ => None,
            }
        } else {
            None
        }
    } else {
        let f = text::split(s, ':');
        if f.len() == 2 {
            match (addr::v4_of(f[0]), number(f[1], 65535)) {
                (Some((a, b, c, d)), Some(p)) => Some(
                    SocketAddr { ip: addr::IpAddr::V4(a, b, c, d), port: p as u16 },
                ),
                _ => None,
            }
        } else {
            None
        }
    }
}

proof fn lemma_numeral_grows(s: Seq<char>, i: int)
    requires
        0 <= i <= s.len(),
    ensures
        text::numeral_value(s, 10) is Some ==> text::numeral_value(s.take(i), 10) is Some
            && text::numeral_value(s, 10)->0 >= text::numeral_value(s.take(i), 10)->0,
        text::numeral_value(s, 10) is Some ==> text::numeral_value(s, 10)->0 >= 0,
    decreases s.len(),
{
    if i < s.len() {
        assert(s.drop_last().take(i) =~= s.take(i));
        lemma_numeral_grows(s.drop_last(), i);
    } else {
        assert(s.take(i) =~= s);
        if s.len() > 0 {
            lemma_numeral_grows(s.drop_last(), s.len() - 1);
        }
    }
}

fn read_number(s: &Vec<char>, limit: u32) -> (r: Option<u32>)
    ensures
        r is Some <==> number(s@, limit as int) is Some,
        r matches Some(n) ==> number(s@, limit as int) == Some(n as int) && n <= limit,
{
    if s.len() == 0 {
        return None;
    }
    let mut n: u64 = 0;
    let mut i: usize = 0;
    assert(s@.take(0) =~= Seq::empty());
    while i < s.len()
        invariant
            i <= s@.len(),
            s@.len() > 0,
            n <= limit,
            text::numeral_value(s@.take(i as int), 10) == Some(n as int),
        decreases s@.len() - i,
    {
        assert(s@.take(i + 1).drop_last() =~= s@.take(i as int));
        assert(s@.take(i + 1).last() == s@[i as int]);
        proof {
            lemma_numeral_grows(s@, i + 1);
        }
        match text::digit_of(s[i], 10) {
            Some(d) => {
                n = n * 10 + d as u64;
                if n > limit as u64 {
                    return None;
                }
            },
            None => {
                return None;
            },
        }
        i += 1;
    }
    assert(s@.take(i as int) =~= s@);
    Some(n as u32)
}

pub(crate) proof fn lemma_first_of(s: Seq<char>, c: char, i: int, j: int)
    requires
        0 <= i <= j <= s.len(),
        forall|t: int| i <= t < j ==> s[t] != c,
        j < s.len() ==> s[j] == c,
    ensures
        first_of(s, c, i) == j,
    decreases j - i,
{
    if i < j {
        lemma_first_of(s, c, i + 1, j);
    }
}

fn part(s: &Vec<char>, lo: usize, hi: usize) -> (r: Vec<char>)
    requires
        lo <= hi <= s@.len(),
    ensures
        r@ == s@.subrange(lo as int, hi as int),
{
    let mut r: Vec<char> = Vec::new();
    let mut i: usize = lo;
    while i < hi
        invariant
            lo <= i <= hi <= s@.len(),
            r@ == s@.subrange(lo as int, i as int),
        decreases hi - i,
    {
        r.push(s[i]);
        i += 1;
        assert(r@ =~= s@.subrange(lo as int, i as int));
    }
    r
}

fn read_scoped_v6(s: &Vec<char>) -> (r: Option<Vec<u16>>)
    ensures
        r is Some <==> scoped_v6(s@) is Some,
        r matches Some(g) ==> scoped_v6(s@) == Some(g@) && g@.len() == 8,
{
    let f = text::split_at(s, '%');
    if f.len() == 1 {
        addr::read_v6(&f[0])
    } else if f.len() == 2 {
        match read_number(&f[1], u32::MAX) {
            Some(_) => addr::read_v6(&f[0]),
            None => None,
        }
    } else {
        None
    }
}

/// The address that `s` denotes, if it does.
pub fn parse_socket_addr(s: &str) -> (r: Option<SocketAddr>)
    ensures
        r == socket_addr_of(s@),
{
    let c = text::chars_of(s);
    if c.len() > 0 && c[0] == '[' {
        let mut i: usize = 0;
        while i < c.len() && c[i] != ']'
            invariant
                i <= c@.len(),
                forall|t: int| 0 <= t < i ==> c@[t] != ']',
            decreases c@.len() - i,
        {
            i += 1;
        }
        proof {
            lemma_first_of(c@, ']', 0, i as int);
        }
        if i == c.len() || i + 1 == c.len() || c[i + 1] != ':' {
            return None;
        }
        assert(i > 0);
        let inner = part(&c, 1, i);
        let port = part(&c, i + 2, c.len());
        assert(port@ =~= c@.skip(i + 2));
        match (read_scoped_v6(&inner), read_number(&port, 65535)) {
            (Some(g), Some(p)) => Some(
                SocketAddr {
                    ip: addr::IpAddr::V6(g[0], g[1], g[2], g[3], g[4], g[5], g[6], g[7]),
                    port: p as u16,
                },
            ),
            _ => None,
        }
    } else {
        let f = text::split_at(&c, ':');
        if f.len() != 2 {
            return None;
        }
        match (addr::read_v4(&f[0]), read_number(&f[1], 65535)) {
            (Some((a, b, e, d)), Some(p)) => Some(
                SocketAddr { ip: addr::IpAddr::V4(a, b, e, d), port: p as u16 },
            ),
            _ => None,
        }
    }
}

impl UdpAddr {
    /// The address that `s` denotes, its IP address in canonical form and
    /// without a zone.
    pub fn from_string(s: &str) -> (r: Option<UdpAddr>)
        ensures
            r is Some <==> socket_addr_of(s@) is Some,
            r matches Some(a) ==> {
                &&& a.ip@ == socket_addr_of(s@)->0.ip.text()
                &&& a.port == socket_addr_of(s@)->0.port
                &&& a.zone@.len() == 0
            },
    {
        match parse_socket_addr(s) {
            Some(a) => Some(UdpAddr { ip: a.ip.to_text(), port: a.port, zone: String::new() }),
            None => None,
        }
    }

    /// The IP address and the port with a colon between them.
    pub fn to_text(&self) -> (r: String)
        ensures
            r@ == self.ip@ + seq![':'] + text::decimal(self.port as nat),
    {
        let mut s = self.ip.clone();
        s.push(':');
        text::push_decimal(&mut s, self.port as u64);
        assert(s@ =~= self.ip@ + seq![':'] + text::decimal(self.port as nat));
        s
    }
}

} // verus!
