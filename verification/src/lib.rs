//! Protocol core of a fast reverse proxy.
use vstd::prelude::*;
use vstd::string::*;

pub mod addr;
pub mod addr_laws;
pub mod base64;
pub mod bytes;
pub mod clock;
pub mod dict;
pub mod errors;
pub mod kcp;
pub mod kcp_compat;
pub mod logging;
pub mod mem_profile;
pub mod metrics;
pub mod msg;
pub mod mux;
pub mod profiling;
pub mod protocol;
pub mod proxy_protocol;
pub mod quic;
pub mod snappy_stream;
pub mod splice;
pub mod stun;
pub mod stun_laws;
pub mod system;
pub mod text;
pub mod xtcp_p2p;

use addr::{IpAddr, SocketAddr};

pub use errors::{AuthError, ConfigError, Error, ProtocolError, TransportError};

verus! {

/// Process exit code: connection lost, I/O error, unexpected.
pub const EXIT_RUNTIME: i32 = 1;

/// Process exit code: bad config file, unknown field, invalid value.
pub const EXIT_CONFIG: i32 = 2;

/// Process exit code: bad token, OIDC failure.
pub const EXIT_AUTH: i32 = 3;

/// Process exit code: port in use, permission denied.
pub const EXIT_BIND: i32 = 4;

/// frp version string.
pub const VERSION: &'static str = "0.70.1";

/// Return the user agent string used in login.
pub fn version_str() -> (r: String)
    ensures
        r@ == "frp-rs/"@ + VERSION@,
{
    let mut s = "frp-rs/".to_owned();
    text::push_str(&mut s, VERSION);
    s
}

/// Hex-encode bytes into a `String`, two lower-case digits each.
pub fn hex_encode(bytes: &[u8]) -> (r: String)
    ensures
        r@ == text::hex_of(bytes@),
{
    let mut s = String::new();
    let mut i: usize = 0;
    assert(bytes@.take(0) =~= Seq::empty());
    while i < bytes.len()
        invariant
            i <= bytes@.len(),
            s@ == text::hex_of(bytes@.take(i as int)),
        decreases bytes@.len() - i,
    {
        assert(bytes@.take(i + 1).drop_last() =~= bytes@.take(i as int));
        assert(bytes@.take(i + 1).last() == bytes@[i as int]);
        text::push_hex_digits(&mut s, bytes[i] as u64, 2);
        i += 1;
    }
    assert(bytes@.take(i as int) =~= bytes@);
    s
}

/// `host` and `port` as one text: an IP address in its canonical form, in
/// brackets where it is an IPv6 address; anything else as it is.
pub open spec fn host_port(host: Seq<char>, port: u16) -> Seq<char> {
    match addr::ip_of(host) {
        Some(ip) => (SocketAddr { ip, port }).text(),
        None => host + seq![':'] + text::decimal(port as nat),
    }
}

/// Format a host:port string correctly for IPv4 and IPv6.
/// IPv6 addresses are wrapped in brackets: [::1]:7000.
/// Hostnames and IPv4 addresses use plain format: 0.0.0.0:7000.
pub fn format_socket_addr(host: &str, port: u16) -> (r: String)
    ensures
        r@ == host_port(host@, port),
{
    match IpAddr::parse(host) {
        Some(ip) => {
            let a = SocketAddr { ip, port };
            a.to_text()
        },
        None => {
            let mut s = host.to_owned();
            s.push(':');
            text::push_decimal(&mut s, port as u64);
            assert(s@ =~= host_port(host@, port));
            s
        },
    }
}

} // verus!
