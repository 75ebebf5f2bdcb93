//! Errors with structured context, what they say, and the exit code of each.
use vstd::prelude::*;
use vstd::string::*;

use crate::text;
use crate::{EXIT_AUTH, EXIT_BIND, EXIT_CONFIG, EXIT_RUNTIME};

verus! {

/// What went wrong with a frame or a message. Where the cause lies outside, `source` is what it says.
#[derive(Debug)]
pub enum ProtocolError {
    InvalidV1Length { length: u64, header: String },
    V1FrameTooLarge { length: u64, max: u64 },
    V2PayloadTooLarge { payload_len: usize },
    ReadV1Payload { source: String },
    ReadV2Payload { source: String },
    DeserializeV1 { msg_type: String, source: String },
    DeserializeV2 { msg_type: String, source: String },
    WriteV1Frame { source: String },
    WriteV2Frame { source: String },
    SerializeV1 { source: String },
    Other(String),
}

impl ProtocolError {
    /// What the error says.
    pub open spec fn text(&self) -> Seq<char> {
        match *self {
            ProtocolError::InvalidV1Length { length, header } => "invalid V1 message length "@ + text::decimal(length as nat) + ", raw header: "@ + header@,
            ProtocolError::V1FrameTooLarge { length, max } => "V1 frame too large: "@ + text::decimal(length as nat) + " (max "@ + text::decimal(max as nat) + ")"@,
            ProtocolError::V2PayloadTooLarge { payload_len } => "V2 frame payload too large: "@ + text::decimal(payload_len as nat),
            ProtocolError::ReadV1Payload { source } => "read V1 payload: "@ + source@,
            ProtocolError::ReadV2Payload { source } => "read V2 payload: "@ + source@,
            ProtocolError::DeserializeV1 { msg_type, source } => "deserialize "@ + msg_type@ + " (v1): "@ + source@,
            ProtocolError::DeserializeV2 { msg_type, source } => "deserialize "@ + msg_type@ + " (v2): "@ + source@,
            ProtocolError::WriteV1Frame { source } => "write V1 frame: "@ + source@,
            ProtocolError::WriteV2Frame { source } => "write V2 frame: "@ + source@,
            ProtocolError::SerializeV1 { source } => "serialize V1 msg: "@ + source@,
            ProtocolError::Other(s) => s@,
        }
    }

    /// What the error says.
    pub fn message(&self) -> (r: String)
        ensures
            r@ == self.text(),
    {
        let mut out = String::new();
        match self {
            ProtocolError::InvalidV1Length { length, header } => {
                text::push_str(&mut out, "invalid V1 message length ");
                text::push_decimal(&mut out, *length);
                text::push_str(&mut out, ", raw header: ");
                text::push_str(&mut out, header.as_str());
            },
            ProtocolError::V1FrameTooLarge { length, max } => {
                text::push_str(&mut out, "V1 frame too large: ");
                text::push_decimal(&mut out, *length);
                text::push_str(&mut out, " (max ");
                text::push_decimal(&mut out, *max);
                text::push_str(&mut out, ")");
            },
            ProtocolError::V2PayloadTooLarge { payload_len } => {
                text::push_str(&mut out, "V2 frame payload too large: ");
                text::push_decimal(&mut out, *payload_len as u64);
            },
            ProtocolError::ReadV1Payload { source } => {
                text::push_str(&mut out, "read V1 payload: ");
                text::push_str(&mut out, source.as_str());
            },
            ProtocolError::ReadV2Payload { source } => {
                text::push_str(&mut out, "read V2 payload: ");
                text::push_str(&mut out, source.as_str());
            },
            ProtocolError::DeserializeV1 { msg_type, source } => {
                text::push_str(&mut out, "deserialize ");
                text::push_str(&mut out, msg_type.as_str());
                text::push_str(&mut out, " (v1): ");
                text::push_str(&mut out, source.as_str());
            },
            ProtocolError::DeserializeV2 { msg_type, source } => {
                text::push_str(&mut out, "deserialize ");
                text::push_str(&mut out, msg_type.as_str());
                text::push_str(&mut out, " (v2): ");
                text::push_str(&mut out, source.as_str());
            },
            ProtocolError::WriteV1Frame { source } => {
                text::push_str(&mut out, "write V1 frame: ");
                text::push_str(&mut out, source.as_str());
            },
            ProtocolError::WriteV2Frame { source } => {
                text::push_str(&mut out, "write V2 frame: ");
                text::push_str(&mut out, source.as_str());
            },
            ProtocolError::SerializeV1 { source } => {
                text::push_str(&mut out, "serialize V1 msg: ");
                text::push_str(&mut out, source.as_str());
            },
            ProtocolError::Other(s) => {
                text::push_str(&mut out, s.as_str());
            },
        }
        assert(out@ =~= self.text());
        out
    }
}

impl From<String> for ProtocolError {
    fn from(s: String) -> (r: ProtocolError)
        ensures
            r == ProtocolError::Other(s),
    {
        ProtocolError::Other(s)
    }
}

impl vstd::std_specs::convert::FromSpecImpl<String> for ProtocolError {
    open spec fn obeys_from_spec() -> bool {
        true
    }

    open spec fn from_spec(s: String) -> ProtocolError {
        ProtocolError::Other(s)
    }
}

impl<'a> From<&'a str> for ProtocolError {
    fn from(s: &'a str) -> (r: ProtocolError)
        ensures
            r matches ProtocolError::Other(t) && t@ == s@,
    {
        ProtocolError::Other(s.to_owned())
    }
}

impl<'a> vstd::std_specs::convert::FromSpecImpl<&'a str> for ProtocolError {
    open spec fn obeys_from_spec() -> bool {
        false
    }

    open spec fn from_spec(s: &'a str) -> ProtocolError {
        arbitrary()
    }
}

/// What went wrong with a connection. Where the cause lies outside, it is given by what it says.
#[derive(Debug)]
pub enum TransportError {
    TcpConnect { addr: String, source: String },
    TlsHandshake { source: String },
    KcpConnect { addr: String, source: String },
    Quic(String),
    WebSocket(String),
    TlsConfig { source: String },
    PluginTls { source: String },
    WebSocketUpgrade(String),
    WebSocketTls(String),
    Other(String),
}

impl TransportError {
    /// What the error says.
    pub open spec fn text(&self) -> Seq<char> {
        match *self {
            TransportError::TcpConnect { addr, source } => "TCP connect to "@ + addr@ + ": "@ + source@,
            TransportError::TlsHandshake { source } => "TLS handshake: "@ + source@,
            TransportError::KcpConnect { addr, source } => "KCP connect to "@ + addr@ + ": "@ + source@,
            TransportError::Quic(s) => "QUIC: "@ + s@,
            TransportError::WebSocket(s) => "WebSocket: "@ + s@,
            TransportError::TlsConfig { source } => "TLS config: "@ + source@,
            TransportError::PluginTls { source } => "plugin TLS connector: "@ + source@,
            TransportError::WebSocketUpgrade(s) => "WebSocket upgrade: "@ + s@,
            TransportError::WebSocketTls(s) => "WebSocket TLS: "@ + s@,
            TransportError::Other(s) => s@,
        }
    }

    /// What the error says.
    pub fn message(&self) -> (r: String)
        ensures
            r@ == self.text(),
    {
        let mut out = String::new();
        match self {
            TransportError::TcpConnect { addr, source } => {
                text::push_str(&mut out, "TCP connect to ");
                text::push_str(&mut out, addr.as_str());
                text::push_str(&mut out, ": ");
                text::push_str(&mut out, source.as_str());
            },
            TransportError::TlsHandshake { source } => {
                text::push_str(&mut out, "TLS handshake: ");
                text::push_str(&mut out, source.as_str());
            },
            TransportError::KcpConnect { addr, source } => {
                text::push_str(&mut out, "KCP connect to ");
                text::push_str(&mut out, addr.as_str());
                text::push_str(&mut out, ": ");
                text::push_str(&mut out, source.as_str());
            },
            TransportError::Quic(s) => {
                text::push_str(&mut out, "QUIC: ");
                text::push_str(&mut out, s.as_str());
            },
            TransportError::WebSocket(s) => {
                text::push_str(&mut out, "WebSocket: ");
                text::push_str(&mut out, s.as_str());
            },
            TransportError::TlsConfig { source } => {
                text::push_str(&mut out, "TLS config: ");
                text::push_str(&mut out, source.as_str());
            },
            TransportError::PluginTls { source } => {
                text::push_str(&mut out, "plugin TLS connector: ");
                text::push_str(&mut out, source.as_str());
            },
            TransportError::WebSocketUpgrade(s) => {
                text::push_str(&mut out, "WebSocket upgrade: ");
                text::push_str(&mut out, s.as_str());
            },
            TransportError::WebSocketTls(s) => {
                text::push_str(&mut out, "WebSocket TLS: ");
                text::push_str(&mut out, s.as_str());
            },
            TransportError::Other(s) => {
                text::push_str(&mut out, s.as_str());
            },
        }
        assert(out@ =~= self.text());
        out
    }
}

impl From<String> for TransportError {
    fn from(s: String) -> (r: TransportError)
        ensures
            r == TransportError::Other(s),
    {
        TransportError::Other(s)
    }
}

impl vstd::std_specs::convert::FromSpecImpl<String> for TransportError {
    open spec fn obeys_from_spec() -> bool {
        true
    }

    open spec fn from_spec(s: String) -> TransportError {
        TransportError::Other(s)
    }
}

impl<'a> From<&'a str> for TransportError {
    fn from(s: &'a str) -> (r: TransportError)
        ensures
            r matches TransportError::Other(t) && t@ == s@,
    {
        TransportError::Other(s.to_owned())
    }
}

impl<'a> vstd::std_specs::convert::FromSpecImpl<&'a str> for TransportError {
    open spec fn obeys_from_spec() -> bool {
        false
    }

    open spec fn from_spec(s: &'a str) -> TransportError {
        arbitrary()
    }
}

/// Why authentication failed.
#[derive(Debug)]
pub enum AuthError {
    TimestampRequired,
    TimestampOutsideWindow,
    InvalidToken,
    OidcNotConfigured,
    EmptyToken,
    LoginFailed(String),
    Other(String),
}

impl AuthError {
    /// What the error says.
    pub open spec fn text(&self) -> Seq<char> {
        match *self {
            AuthError::TimestampRequired => "timestamp required for authentication"@,
            AuthError::TimestampOutsideWindow => "timestamp outside acceptable window"@,
            AuthError::InvalidToken => "invalid authentication token"@,
            AuthError::OidcNotConfigured => "OIDC auth requires server-side verifier (not configured)"@,
            AuthError::EmptyToken => "authentication token must not be empty with token auth method"@,
            AuthError::LoginFailed(s) => "login failed: "@ + s@,
            AuthError::Other(s) => s@,
        }
    }

    /// What the error says.
    pub fn message(&self) -> (r: String)
        ensures
            r@ == self.text(),
    {
        let mut out = String::new();
        match self {
            AuthError::TimestampRequired => {
                text::push_str(&mut out, "timestamp required for authentication");
            },
            AuthError::TimestampOutsideWindow => {
                text::push_str(&mut out, "timestamp outside acceptable window");
            },
            AuthError::InvalidToken => {
                text::push_str(&mut out, "invalid authentication token");
            },
            AuthError::OidcNotConfigured => {
                text::push_str(&mut out, "OIDC auth requires server-side verifier (not configured)");
            },
            AuthError::EmptyToken => {
                text::push_str(&mut out, "authentication token must not be empty with token auth method");
            },
            AuthError::LoginFailed(s) => {
                text::push_str(&mut out, "login failed: ");
                text::push_str(&mut out, s.as_str());
            },
            AuthError::Other(s) => {
                text::push_str(&mut out, s.as_str());
            },
        }
        assert(out@ =~= self.text());
        out
    }
}

impl From<String> for AuthError {
    fn from(s: String) -> (r: AuthError)
        ensures
            r == AuthError::Other(s),
    {
        AuthError::Other(s)
    }
}

impl vstd::std_specs::convert::FromSpecImpl<String> for AuthError {
    open spec fn obeys_from_spec() -> bool {
        true
    }

    open spec fn from_spec(s: String) -> AuthError {
        AuthError::Other(s)
    }
}

impl<'a> From<&'a str> for AuthError {
    fn from(s: &'a str) -> (r: AuthError)
        ensures
            r matches AuthError::Other(t) && t@ == s@,
    {
        AuthError::Other(s.to_owned())
    }
}

impl<'a> vstd::std_specs::convert::FromSpecImpl<&'a str> for AuthError {
    open spec fn obeys_from_spec() -> bool {
        false
    }

    open spec fn from_spec(s: &'a str) -> AuthError {
        arbitrary()
    }
}

/// What is wrong with a configuration.
#[derive(Debug)]
pub enum ConfigError {
    Parse(String),
    Validation(String),
    Other(String),
}

impl ConfigError {
    /// What the error says.
    pub open spec fn text(&self) -> Seq<char> {
        match *self {
            ConfigError::Parse(s) => s@,
            ConfigError::Validation(s) => s@,
            ConfigError::Other(s) => s@,
        }
    }

    /// What the error says.
    pub fn message(&self) -> (r: String)
        ensures
            r@ == self.text(),
    {
        let mut out = String::new();
        match self {
            ConfigError::Parse(s) => {
                text::push_str(&mut out, s.as_str());
            },
            ConfigError::Validation(s) => {
                text::push_str(&mut out, s.as_str());
            },
            ConfigError::Other(s) => {
                text::push_str(&mut out, s.as_str());
            },
        }
        assert(out@ =~= self.text());
        out
    }
}

impl From<String> for ConfigError {
    fn from(s: String) -> (r: ConfigError)
        ensures
            r == ConfigError::Other(s),
    {
        ConfigError::Other(s)
    }
}

impl vstd::std_specs::convert::FromSpecImpl<String> for ConfigError {
    open spec fn obeys_from_spec() -> bool {
        true
    }

    open spec fn from_spec(s: String) -> ConfigError {
        ConfigError::Other(s)
    }
}

impl<'a> From<&'a str> for ConfigError {
    fn from(s: &'a str) -> (r: ConfigError)
        ensures
            r matches ConfigError::Other(t) && t@ == s@,
    {
        ConfigError::Other(s.to_owned())
    }
}

impl<'a> vstd::std_specs::convert::FromSpecImpl<&'a str> for ConfigError {
    open spec fn obeys_from_spec() -> bool {
        false
    }

    open spec fn from_spec(s: &'a str) -> ConfigError {
        arbitrary()
    }
}

/// Kinds of I/O errors that matter to the exit code.
#[derive(Debug, Clone, Copy, PartialEq, Eq, Structural)]
pub enum IoKind {
    AddrInUse,
    PermissionDenied,
    Other,
}

/// Any error. An I/O or a serialization error is given by what it says.
#[derive(Debug)]
pub enum Error {
    Protocol(ProtocolError),
    Transport(TransportError),
    Auth(AuthError),
    Config(ConfigError),
    Io(IoKind, String),
    Serde(String),
}

impl Error {
    /// What the error says.
    pub open spec fn text(&self) -> Seq<char> {
        match *self {
            Error::Protocol(e) => "protocol error: "@ + e.text(),
            Error::Transport(e) => "transport error: "@ + e.text(),
            Error::Auth(e) => "auth error: "@ + e.text(),
            Error::Config(e) => "config error: "@ + e.text(),
            Error::Io(k, s) => "io error: "@ + s@,
            Error::Serde(s) => "serialization error: "@ + s@,
        }
    }

    /// What the error says.
    pub fn message(&self) -> (r: String)
        ensures
            r@ == self.text(),
    {
        let (head, tail) = match self {
            Error::Protocol(e) => ("protocol error: ", e.message()),
            Error::Transport(e) => ("transport error: ", e.message()),
            Error::Auth(e) => ("auth error: ", e.message()),
            Error::Config(e) => ("config error: ", e.message()),
            Error::Io(_, s) => ("io error: ", s.clone()),
            Error::Serde(s) => ("serialization error: ", s.clone()),
        };
        let mut out = head.to_owned();
        text::push_str(&mut out, tail.as_str());
        out
    }

    /// Map each error variant to a process exit code.
    pub fn exit_code(&self) -> (r: i32)
        ensures
            r == (match *self {
                Error::Config(_) => EXIT_CONFIG,
                Error::Auth(_) => EXIT_AUTH,
                Error::Io(k, _) => if k == IoKind::AddrInUse || k == IoKind::PermissionDenied {
                    EXIT_BIND
                } else {
                    EXIT_RUNTIME
                },
                _ => EXIT_RUNTIME,
            }),
    {
        match self {
            Error::Config(_) => EXIT_CONFIG,
            Error::Auth(_) => EXIT_AUTH,
            Error::Io(k, _) => if *k == IoKind::AddrInUse || *k == IoKind::PermissionDenied {
                EXIT_BIND
            } else {
                EXIT_RUNTIME
            },
            _ => EXIT_RUNTIME,
        }
    }
}

} // verus!
