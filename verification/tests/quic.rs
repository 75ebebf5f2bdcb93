//! QUIC parameters and dials.
use frp_core::addr::{IpAddr, SocketAddr};
use frp_core::quic::{
    alpn_protocols, build_quic_transport_config, client_identity, dial_bind_address, dial_timeout, dial_tls,
    identity_of, no_addresses, quic_params_from_option_values, server_identity, stream_credit,
    DialTls, Identity, KeyKind, QuicTransportParams,
};

#[test]
fn incoming_stream_limit_preserves_public_default_and_explicit_values() {
    let params = QuicTransportParams::default();
    assert_eq!(params.max_incoming_streams, 100_000);
    assert_eq!(params.effective_max_incoming_streams(), 100_000);

    let custom = QuicTransportParams {
        max_incoming_streams: 1_024,
        ..params
    };
    assert_eq!(custom.effective_max_incoming_streams(), 1_024);
}

#[test]
fn incoming_stream_limit_never_advertises_zero() {
    let params = QuicTransportParams {
        max_incoming_streams: 0,
        ..Default::default()
    };
    assert_eq!(params.effective_max_incoming_streams(), 1);
}

#[test]
fn zero_option_values_normalize_to_go_defaults() {
    let params = quic_params_from_option_values(0, 0, 0);
    assert_eq!(params.keepalive_period_secs, 10);
    assert_eq!(params.max_idle_timeout_secs, 30);
    assert_eq!(params.max_incoming_streams, 100_000);
}

#[test]
fn negative_option_values_also_normalize_to_go_defaults() {
    let params = quic_params_from_option_values(-1, -5, -100);
    assert_eq!(params.keepalive_period_secs, 10);
    assert_eq!(params.max_idle_timeout_secs, 30);
    assert_eq!(params.max_incoming_streams, 100_000);
}

#[test]
fn positive_option_values_are_preserved() {
    let params = quic_params_from_option_values(20, 60, 2_048);
    assert_eq!(params.keepalive_period_secs, 20);
    assert_eq!(params.max_idle_timeout_secs, 60);
    assert_eq!(params.max_incoming_streams, 2_048);
}

#[test]
fn wide_option_values_keep_their_low_bits() {
    let params = quic_params_from_option_values(0x1_0000_0005, 7, 1);
    assert_eq!(params.keepalive_period_secs, 5);
    assert_eq!(params.max_idle_timeout_secs, 7);
    assert_eq!(params.max_incoming_streams, 1);
}

#[test]
fn client_certificates_need_roots() {
    assert_eq!(dial_tls(true, true, true), Ok(DialTls::RootsAndClientCert));
    assert_eq!(dial_tls(true, true, false), Ok(DialTls::Roots));
    assert_eq!(dial_tls(true, false, false), Ok(DialTls::Roots));
    assert_eq!(dial_tls(false, false, false), Ok(DialTls::SkipVerify));
    assert!(dial_tls(false, true, false).unwrap_err().contains("requires a CA file"));
    assert!(dial_tls(false, false, true).is_err());
}

#[test]
fn dials_bind_in_the_family_of_the_peer() {
    let v4 = SocketAddr { ip: IpAddr::parse("10.0.0.1").unwrap(), port: 7000 };
    let v6 = SocketAddr { ip: IpAddr::parse("::1").unwrap(), port: 7000 };
    assert_eq!(dial_bind_address(&v4), "0.0.0.0:0");
    assert_eq!(dial_bind_address(&v6), "[::]:0");
}

#[test]
fn dial_messages_name_the_address() {
    assert_eq!(no_addresses("host:1"), "QUIC resolve host:1: no addresses found");
    assert_eq!(dial_timeout("host:1"), "QUIC dial timeout to host:1");
    assert_eq!(stream_credit(0), 1);
    assert_eq!(stream_credit(9), 9);
}

const CERTS: &str = "-----BEGIN CERTIFICATE-----\nAQID\n-----END CERTIFICATE-----\n\
                     -----BEGIN CERTIFICATE-----\nBAU=\n-----END CERTIFICATE-----\n";

fn key_pem(label: &str) -> String {
    format!("-----BEGIN {label}-----\nCQg=\n-----END {label}-----\n")
}

fn taken(r: Result<Identity, String>) -> Identity {
    match r {
        Ok(id) => id,
        Err(e) => panic!("no identity: {e}"),
    }
}

fn refused(r: Result<Identity, String>) -> String {
    match r {
        Ok(_) => panic!("an identity was made"),
        Err(e) => e,
    }
}

#[test]
fn identities_hold_the_certificates_and_the_key() {
    for (label, kind) in [
        ("PRIVATE KEY", KeyKind::Pkcs8),
        ("RSA PRIVATE KEY", KeyKind::Pkcs1),
        ("EC PRIVATE KEY", KeyKind::Sec1),
    ] {
        let key = key_pem(label);
        for id in [
            taken(server_identity(CERTS.as_bytes(), key.as_bytes())),
            taken(client_identity(CERTS.as_bytes(), key.as_bytes())),
        ] {
            assert_eq!(id.chain, vec![vec![1, 2, 3], vec![4, 5]]);
            assert_eq!(id.key_kind, kind);
            assert_eq!(id.key, vec![9, 8]);
        }
    }
}

#[test]
fn malformed_pem_is_refused_by_name() {
    let key = key_pem("PRIVATE KEY");
    let cut = &CERTS.as_bytes()[..40];
    let e = refused(server_identity(cut, key.as_bytes()));
    assert!(e.starts_with("parse cert: missing section end marker"), "{e}");
    let e = refused(client_identity(cut, b""));
    assert!(e.starts_with("parse QUIC client cert: missing section end marker"), "{e}");
    let e = refused(server_identity(CERTS.as_bytes(), b"no key"));
    assert_eq!(e, "parse key: no items found");
    let e = refused(client_identity(CERTS.as_bytes(), CERTS.as_bytes()));
    assert_eq!(e, "parse QUIC client key: no items found");
    // Text without certificates is no error: the chain is empty.
    assert!(taken(server_identity(b"", key.as_bytes())).chain.is_empty());
}

#[test]
fn what_fails_first_is_named() {
    let chain = || Ok(vec![vec![1u8]]);
    let key = || Ok((KeyKind::Sec1, vec![2u8]));
    let id = taken(identity_of(chain(), key(), "a: ", "b: "));
    assert_eq!((id.chain, id.key_kind, id.key), (vec![vec![1]], KeyKind::Sec1, vec![2]));
    assert_eq!(refused(identity_of(Err("x".into()), Err("y".into()), "a: ", "b: ")), "a: x");
    assert_eq!(refused(identity_of(Err("x".into()), key(), "a: ", "b: ")), "a: x");
    assert_eq!(refused(identity_of(chain(), Err("y".into()), "a: ", "b: ")), "b: y");
}

#[test]
fn transport_settings_come_from_the_same_parameters() {
    let shown = |idle: u32, keep: u32, streams: u32| {
        format!(
            "{:?}",
            build_quic_transport_config(&QuicTransportParams {
                max_idle_timeout_secs: idle,
                keepalive_period_secs: keep,
                max_incoming_streams: streams,
            })
        )
    };
    let s = shown(31, 11, 77);
    assert!(s.contains("max_idle_timeout: Some(31000)"), "{s}");
    assert!(s.contains("keep_alive_interval: Some(11s)"), "{s}");
    assert!(s.contains("max_concurrent_bidi_streams: 77"), "{s}");
    let s = shown(u32::MAX, 0, 0);
    assert!(s.contains("max_idle_timeout: Some(4294967295000)"), "{s}");
    assert!(s.contains("keep_alive_interval: Some(0ns)"), "{s}");
    assert!(s.contains("max_concurrent_bidi_streams: 1,"), "{s}");
}

#[test]
fn one_application_protocol_is_offered() {
    assert_eq!(alpn_protocols(), vec![b"frp".to_vec()]);
}
