//! QUIC transport: parameters, identities, and how a dial is made. The streams
//! themselves stay outside.
use std::time::Duration;

use rustls::pki_types::pem::PemObject;
use rustls::pki_types::{CertificateDer, PrivateKeyDer};
use vstd::prelude::*;

use crate::addr::SocketAddr;
use crate::text;

verus! {

/// Configurable QUIC transport parameters.
#[derive(Debug, Clone, Copy, PartialEq, Eq, Structural)]
pub struct QuicTransportParams {
    pub max_idle_timeout_secs: u32,
    pub keepalive_period_secs: u32,
    pub max_incoming_streams: u32,
}

/// The parameters in force where nothing is configured.
pub open spec fn default_params() -> QuicTransportParams {
    QuicTransportParams {
        max_idle_timeout_secs: 30,
        keepalive_period_secs: 10,
        max_incoming_streams: 100_000,
    }
}

impl Default for QuicTransportParams {
    fn default() -> (r: QuicTransportParams)
        ensures
            r == default_params(),
    {
        QuicTransportParams {
            max_idle_timeout_secs: 30,
            keepalive_period_secs: 10,
            max_incoming_streams: 100_000,
        }
    }
}

/// A stream limit that is never zero.
pub open spec fn at_least_one(n: u32) -> u32 {
    if n == 0 {
        1
    } else {
        n
    }
}

/// A stream limit that is never zero.
pub fn stream_credit(n: u32) -> (r: u32)
    ensures
        r == at_least_one(n),
{
    if n == 0 {
        1
    } else {
        n
    }
}

impl QuicTransportParams {
    /// The stream limit that is advertised.
    pub fn effective_max_incoming_streams(&self) -> (r: u32)
        ensures
            r == at_least_one(self.max_incoming_streams),
    {
        stream_credit(self.max_incoming_streams)
    }
}

/// A configured value: its lowest 32 bits where it is positive, else the
/// default.
pub open spec fn value_or(v: i64, default_value: u32) -> u32 {
    if v > 0 {
        (v as int % 0x1_0000_0000) as u32
    } else {
        default_value
    }
}

fn value_or_default(v: i64, default_value: u32) -> (r: u32)
    ensures
        r == value_or(v, default_value),
{
    if v > 0 {
        (v as u64 % 0x1_0000_0000) as u32
    } else {
        default_value
    }
}

/// Normalize zero-valued options to the defaults: a value that is not positive
/// means "use default": keepalive 10s, idle timeout 30s, and 100_000 incoming
/// streams.
pub fn quic_params_from_option_values(
    keepalive_period_secs: i64,
    max_idle_timeout_secs: i64,
    max_incoming_streams: i64,
) -> (r: QuicTransportParams)
    ensures
        r == (QuicTransportParams {
            keepalive_period_secs: value_or(
                keepalive_period_secs,
                default_params().keepalive_period_secs,
            ),
            max_idle_timeout_secs: value_or(
                max_idle_timeout_secs,
                default_params().max_idle_timeout_secs,
            ),
            max_incoming_streams: value_or(
                max_incoming_streams,
                default_params().max_incoming_streams,
            ),
        }),
{
    let defaults = QuicTransportParams::default();
    QuicTransportParams {
        keepalive_period_secs: value_or_default(
            keepalive_period_secs,
            defaults.keepalive_period_secs,
        ),
        max_idle_timeout_secs: value_or_default(
            max_idle_timeout_secs,
            defaults.max_idle_timeout_secs,
        ),
        max_incoming_streams: value_or_default(max_incoming_streams, defaults.max_incoming_streams),
    }
}

/// What is configured as a number of 32 bits comes through unchanged, and what
/// is advertised is never zero.
pub proof fn law_configured_values_are_kept(v: i64, default_value: u32)
    ensures
        0 < v <= u32::MAX ==> value_or(v, default_value) == v,
        v <= 0 ==> value_or(v, default_value) == default_value,
        at_least_one(value_or(v, default_value)) >= 1,
{
}

/// The application protocols that both sides offer: `frp` alone.
pub fn alpn_protocols() -> (r: Vec<Vec<u8>>)
    ensures
        r@.len() == 1,
        r@[0]@ == seq![0x66u8, 0x72u8, 0x70u8],
{
    vec![vec![0x66, 0x72, 0x70]]
}

/// How the server's certificate is judged on a dial.
#[derive(Debug, Clone, Copy, PartialEq, Eq, Structural)]
pub enum DialTls {
    /// Against the given roots, with a client certificate.
    RootsAndClientCert,
    /// Against the given roots.
    Roots,
    /// Not at all.
    SkipVerify,
}

/// How the server's certificate is judged on a dial. A client certificate
/// needs both its files, and it needs roots.
pub fn dial_tls(has_roots: bool, has_cert: bool, has_key: bool) -> (r: Result<DialTls, String>)
    ensures
        (match r {
            Ok(DialTls::RootsAndClientCert) => has_roots && has_cert && has_key,
            Ok(DialTls::Roots) => has_roots && !(has_cert && has_key),
            Ok(DialTls::SkipVerify) => !has_roots && !has_cert && !has_key,
            Err(e) => {
                &&& !has_roots && (has_cert || has_key)
                &&& e@
                    == "QUIC: client certificate (mTLS) requires a CA file (tls_trusted_ca_file)"@
            },
        }),
{
    if has_roots {
        if has_cert && has_key {
            Ok(DialTls::RootsAndClientCert)
        } else {
            Ok(DialTls::Roots)
        }
    } else if has_cert || has_key {
        Err("QUIC: client certificate (mTLS) requires a CA file (tls_trusted_ca_file)".to_owned())
    } else {
        Ok(DialTls::SkipVerify)
    }
}

/// The local address that a dial is made from: any, of the peer's family.
pub fn dial_bind_address(remote: &SocketAddr) -> (r: String)
    ensures
        r@ == (if remote.ip is V6 {
            "[::]:0"@
        } else {
            "0.0.0.0:0"@
        }),
{
    if remote.ip.is_ipv4() {
        "0.0.0.0:0".to_owned()
    } else {
        "[::]:0".to_owned()
    }
}

/// The message where a name has no address.
pub fn no_addresses(addr: &str) -> (r: String)
    ensures
        r@ == "QUIC resolve "@ + addr@ + ": no addresses found"@,
{
    let mut out = String::new();
    text::push_str(&mut out, "QUIC resolve ");
    text::push_str(&mut out, addr);
    text::push_str(&mut out, ": no addresses found");
    assert(out@ =~= "QUIC resolve "@ + addr@ + ": no addresses found"@);
    out
}

/// The message where a dial took too long.
pub fn dial_timeout(addr: &str) -> (r: String)
    ensures
        r@ == "QUIC dial timeout to "@ + addr@,
{
    let mut out = String::new();
    text::push_str(&mut out, "QUIC dial timeout to ");
    text::push_str(&mut out, addr);
    assert(out@ =~= "QUIC dial timeout to "@ + addr@);
    out
}

// ── identities ──────────────────────────────────────────────────────────

/// How a private key is encoded.
#[derive(Debug, Clone, Copy, PartialEq, Eq, Structural)]
pub enum KeyKind {
    Pkcs1,
    Sec1,
    Pkcs8,
}

/// What one side of a connection presents: its certificates, and the private
/// key, both in DER.
pub struct Identity {
    pub chain: Vec<Vec<u8>>,
    pub key_kind: KeyKind,
    pub key: Vec<u8>,
}

/// The contents of certificates.
pub open spec fn ders(chain: Seq<Vec<u8>>) -> Seq<Seq<u8>> {
    Seq::new(chain.len(), |i: int| chain[i]@)
}

/// The certificates in PEM text as `CertificateDer::pem_slice_iter` of rustls
/// gives them, or the message of the first error.
pub uninterp spec fn pem_certificates(pem: Seq<u8>) -> Result<Seq<Seq<u8>>, Seq<char>>;

/// The first private key in PEM text as `PrivateKeyDer::from_pem_slice` of rustls
/// gives it, or the message of the error.
pub uninterp spec fn pem_key(pem: Seq<u8>) -> Result<(KeyKind, Seq<u8>), Seq<char>>;

/// `CertificateDer::pem_slice_iter` of rustls, collected up to the first error.
/// The result depends on the text alone.
#[verifier::external_body]
fn read_certificates(pem: &[u8]) -> (r: Result<Vec<Vec<u8>>, String>)
    ensures
        (match r {
            Ok(chain) => pem_certificates(pem@) == Ok::<Seq<Seq<u8>>, Seq<char>>(ders(chain@)),
            Err(e) => pem_certificates(pem@) == Err::<Seq<Seq<u8>>, Seq<char>>(e@),
        }),
{
    CertificateDer::pem_slice_iter(pem)
        .map(|c| c.map(|der| der.to_vec()).map_err(|e| e.to_string()))
        .collect()
}

/// `PrivateKeyDer::from_pem_slice` of rustls. The result depends on the text
/// alone. A key is PKCS #1, SEC1 or PKCS #8: there are no other variants.
#[verifier::external_body]
fn read_key(pem: &[u8]) -> (r: Result<(KeyKind, Vec<u8>), String>)
    ensures
        (match r {
            Ok((kind, der)) => pem_key(pem@) == Ok::<(KeyKind, Seq<u8>), Seq<char>>((kind, der@)),
            Err(e) => pem_key(pem@) == Err::<(KeyKind, Seq<u8>), Seq<char>>(e@),
        }),
{
    match PrivateKeyDer::from_pem_slice(pem) {
        Ok(PrivateKeyDer::Pkcs1(k)) => Ok((KeyKind::Pkcs1, k.secret_pkcs1_der().to_vec())),
        Ok(PrivateKeyDer::Sec1(k)) => Ok((KeyKind::Sec1, k.secret_sec1_der().to_vec())),
        Ok(k) => Ok((KeyKind::Pkcs8, k.secret_der().to_vec())),
        Err(e) => Err(e.to_string()),
    }
}

/// What becomes of parsed certificates and a parsed key: an identity, else the
/// message of what failed first behind its prefix.
pub open spec fn is_identity_of(
    chain: Result<Seq<Seq<u8>>, Seq<char>>,
    key: Result<(KeyKind, Seq<u8>), Seq<char>>,
    cert_prefix: Seq<char>,
    key_prefix: Seq<char>,
    r: Result<Identity, String>,
) -> bool {
    match (chain, key) {
        (Err(e), _) => r matches Err(m) && m@ == cert_prefix + e,
        (Ok(_), Err(e)) => r matches Err(m) && m@ == key_prefix + e,
        (Ok(c), Ok((kind, der))) => r matches Ok(id) && ders(id.chain@) == c && id.key_kind == kind
            && id.key@ == der,
    }
}

/// The certificates with their contents, where they could be read.
pub open spec fn chain_view(chain: Result<Vec<Vec<u8>>, String>) -> Result<Seq<Seq<u8>>, Seq<char>> {
    match chain {
        Ok(c) => Ok(ders(c@)),
        Err(e) => Err(e@),
    }
}

/// The key with its contents, where it could be read.
pub open spec fn key_view(key: Result<(KeyKind, Vec<u8>), String>) -> Result<
    (KeyKind, Seq<u8>),
    Seq<char>,
> {
    match key {
        Ok((kind, der)) => Ok((kind, der@)),
        Err(e) => Err(e@),
    }
}

/// An identity from what was read of its certificates and its key.
pub fn identity_of(
    chain: Result<Vec<Vec<u8>>, String>,
    key: Result<(KeyKind, Vec<u8>), String>,
    cert_prefix: &str,
    key_prefix: &str,
) -> (r: Result<Identity, String>)
    ensures
        is_identity_of(chain_view(chain), key_view(key), cert_prefix@, key_prefix@, r),
{
    match chain {
        Ok(chain) => match key {
            Ok((key_kind, key)) => Ok(Identity { chain, key_kind, key }),
            Err(e) => {
                let mut m = key_prefix.to_owned();
                text::push_str(&mut m, e.as_str());
                Err(m)
            },
        },
        Err(e) => {
            let mut m = cert_prefix.to_owned();
            text::push_str(&mut m, e.as_str());
            Err(m)
        },
    }
}

/// The identity of a listener, from its certificates and its key in PEM.
pub fn server_identity(cert_pem: &[u8], key_pem: &[u8]) -> (r: Result<Identity, String>)
    ensures
        is_identity_of(
            pem_certificates(cert_pem@),
            pem_key(key_pem@),
            "parse cert: "@,
            "parse key: "@,
            r,
        ),
{
    identity_of(
        read_certificates(cert_pem),
        read_key(key_pem),
        "parse cert: ",
        "parse key: ",
    )
}

/// The identity that a dial presents, from its certificates and its key in PEM.
pub fn client_identity(cert_pem: &[u8], key_pem: &[u8]) -> (r: Result<Identity, String>)
    ensures
        is_identity_of(
            pem_certificates(cert_pem@),
            pem_key(key_pem@),
            "parse QUIC client cert: "@,
            "parse QUIC client key: "@,
            r,
        ),
{
    identity_of(
        read_certificates(cert_pem),
        read_key(key_pem),
        "parse QUIC client cert: ",
        "parse QUIC client key: ",
    )
}

// ── transport ───────────────────────────────────────────────────────────

/// A transport configuration of `quinn`.
#[verifier::external_type_specification]
#[verifier::external_body]
pub struct ExTransportConfig(quinn::TransportConfig);

/// The idle timeout that a configuration holds, in milliseconds.
pub uninterp spec fn transport_idle(c: quinn::TransportConfig) -> Option<int>;

/// The keep-alive interval that a configuration holds, in nanoseconds.
pub uninterp spec fn transport_keep_alive(c: quinn::TransportConfig) -> Option<int>;

/// The limit on bidirectional streams of the peer that a configuration holds.
pub uninterp spec fn transport_streams(c: quinn::TransportConfig) -> int;

/// `quinn::TransportConfig::default`: an idle timeout of 30 seconds, no
/// keep-alive, and 100 streams.
#[verifier::external_body]
fn default_transport() -> (r: quinn::TransportConfig)
    ensures
        transport_idle(r) == Some(30_000int),
        transport_keep_alive(r) == None::<int>,
        transport_streams(r) == 100,
{
    quinn::TransportConfig::default()
}

/// `quinn::TransportConfig::max_idle_timeout` with a timeout in seconds sets the
/// idle timeout alone. It is held in milliseconds below 2^62, which that many
/// seconds never exceed.
#[verifier::external_body]
fn set_idle(c: &mut quinn::TransportConfig, secs: u32)
    ensures
        transport_idle(*final(c)) == Some(secs * 1000),
        transport_keep_alive(*final(c)) == transport_keep_alive(*old(c)),
        transport_streams(*final(c)) == transport_streams(*old(c)),
{
    c.max_idle_timeout(Duration::from_secs(secs as u64).try_into().ok());
}

/// `quinn::TransportConfig::keep_alive_interval` with an interval in seconds sets
/// the keep-alive interval alone.
#[verifier::external_body]
fn set_keep_alive(c: &mut quinn::TransportConfig, secs: u32)
    ensures
        transport_idle(*final(c)) == transport_idle(*old(c)),
        transport_keep_alive(*final(c)) == Some(secs * 1_000_000_000),
        transport_streams(*final(c)) == transport_streams(*old(c)),
{
    c.keep_alive_interval(Some(Duration::from_secs(secs as u64)));
}

/// `quinn::TransportConfig::max_concurrent_bidi_streams` sets the limit on
/// streams alone.
#[verifier::external_body]
fn set_streams(c: &mut quinn::TransportConfig, n: u32)
    ensures
        transport_idle(*final(c)) == transport_idle(*old(c)),
        transport_keep_alive(*final(c)) == transport_keep_alive(*old(c)),
        transport_streams(*final(c)) == n,
{
    c.max_concurrent_bidi_streams(n.into());
}

/// The transport configuration of the listener and of every dial: idle timeout,
/// keep-alive and stream limit all come from the same parameters.
pub fn build_quic_transport_config(params: &QuicTransportParams) -> (r: quinn::TransportConfig)
    ensures
        transport_idle(r) == Some(params.max_idle_timeout_secs * 1000),
        transport_keep_alive(r) == Some(params.keepalive_period_secs * 1_000_000_000),
        transport_streams(r) == at_least_one(params.max_incoming_streams),
{
    let mut transport = default_transport();
    set_idle(&mut transport, params.max_idle_timeout_secs);
    set_keep_alive(&mut transport, params.keepalive_period_secs);
    set_streams(&mut transport, params.effective_max_incoming_streams());
    transport
}

/// Where nothing is configured a silent connection lasts thirty seconds, is kept
/// alive every ten, and takes a hundred thousand streams; a limit of none means
/// one.
pub proof fn law_quic_defaults(n: u32)
    ensures
        default_params().max_idle_timeout_secs == 30,
        default_params().keepalive_period_secs == 10,
        default_params().max_incoming_streams == 100_000,
        at_least_one(n) >= 1,
        n >= 1 ==> at_least_one(n) == n,
{
}

} // verus!
