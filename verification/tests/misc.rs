//! Version, texts, timestamps, allocation counts and stand-ins.
use frp_core::clock::UnixTime;
use frp_core::errors::IoKind;
use frp_core::mem_profile::{on_alloc, on_dealloc, on_realloc, report_line, CountingAlloc};
use frp_core::profiling::{days_to_date, format_timestamp, is_leap_year, profile_name};
use frp_core::system::enable_compatibility_mode;
use frp_core::xtcp_p2p::{connect_refusal, conv_from_sid, derive_detect_key};
use frp_core::{
    format_socket_addr, hex_encode, version_str, AuthError, ConfigError, Error, ProtocolError,
    TransportError, EXIT_AUTH, EXIT_BIND, EXIT_CONFIG, EXIT_RUNTIME,
};

fn at(secs: i64) -> UnixTime {
    UnixTime { secs, nanos: 0 }
}

#[test]
fn format_timestamp_epoch() {
    let s = format_timestamp(at(0));
    assert_eq!(s, "19700101_000000");
}

#[test]
fn format_timestamp_known_dates() {
    // 2024-01-01 00:00:00 UTC = 1704067200 → 19723 days
    assert_eq!(format_timestamp(at(1704067200)), "20240101_000000");

    // 2024-02-29 12:34:56 UTC = 1709210096 → 19782 days + 45296 s
    assert_eq!(format_timestamp(at(1709210096)), "20240229_123456");

    // 2025-01-01 00:00:00 UTC = 1735689600 → 20089 days
    assert_eq!(format_timestamp(at(1735689600)), "20250101_000000");
}

#[test]
fn timestamps_before_the_epoch_and_late_years() {
    assert_eq!(format_timestamp(at(-5)), "19700101_000000");
    // 10000-01-01: the year has five digits.
    assert_eq!(format_timestamp(at(253_402_300_800)), "100000101_000000");
}

#[test]
fn is_leap_year_checks() {
    assert!(is_leap_year(2024));
    assert!(!is_leap_year(2023));
    assert!(!is_leap_year(1900));
    assert!(is_leap_year(2000));
}

#[test]
fn dates_run_through_the_calendar() {
    let mut before = (1969u64, 12u64, 31u64);
    for d in 0..20_000u64 {
        let t = days_to_date(d);
        let now = (t.year, t.month, t.day);
        assert!(now > before, "day {d}");
        before = now;
    }
    assert_eq!(before, (2024, 10, 3));
}

#[test]
fn profiles_are_named_by_prefix_and_time() {
    assert_eq!(profile_name("frps_cpu", "19700101_000000"), "frps_cpu_19700101_000000.svg");
}

#[test]
fn test_enable_compatibility_mode_does_not_panic() {
    enable_compatibility_mode();
}

#[test]
fn snapshot_monotonic_total() {
    let mut c = CountingAlloc::new();
    let (_, t0, _) = c.snapshot();
    c.count(on_alloc(4096));
    let (_, t1, _) = c.snapshot();
    assert!(
        t1 >= t0 + 4096,
        "total_alloc must increase by >= alloc size: {t1} >= {t0}"
    );
    c.count(on_dealloc(4096));
    assert_eq!(c.snapshot(), (0, 4096, 1));
}

#[test]
fn counting_alloc_tracks_live() {
    let mut c = CountingAlloc::new();
    let before = c.live_bytes;
    c.count(on_alloc(8192));
    let mid = c.live_bytes;
    assert!(mid >= before + 8192, "live rose by >= size");
    c.count(on_dealloc(8192));
    let after = c.live_bytes;
    assert!(after <= before + 8192, "live fell back after dealloc");
    assert_eq!(after, before);
}

#[test]
fn reallocations_count_the_difference() {
    let mut c = CountingAlloc::new();
    c.count(on_alloc(100));
    c.count(on_realloc(100, 150));
    assert_eq!(c.snapshot(), (150, 150, 2));
    c.count(on_realloc(150, 50));
    assert_eq!(c.snapshot(), (50, 150, 3));
    c.count(on_dealloc(60));
    assert_eq!(c.live_bytes, usize::MAX - 9);
    assert_eq!(report_line(1, 23, 456), "MEMPROFILE live=1 total=23 allocs=456");
}

#[test]
fn version_names_the_agent() {
    assert_eq!(version_str(), "frp-rs/0.70.1");
}

#[test]
fn bytes_become_lower_case_hex() {
    assert_eq!(hex_encode(&[]), "");
    assert_eq!(hex_encode(&[0x00, 0x0f, 0xa5, 0xff]), "000fa5ff");
}

#[test]
fn hosts_and_ports_are_joined() {
    assert_eq!(format_socket_addr("0.0.0.0", 7000), "0.0.0.0:7000");
    assert_eq!(format_socket_addr("::1", 7000), "[::1]:7000");
    assert_eq!(format_socket_addr("2001:DB8:0:0:0:0:0:1", 1), "[2001:db8::1]:1");
    assert_eq!(format_socket_addr("example.com", 80), "example.com:80");
    assert_eq!(format_socket_addr("::ffff:1.2.3.4", 9), "[::ffff:1.2.3.4]:9");
}

#[test]
fn errors_map_to_exit_codes() {
    assert_eq!(Error::Config(ConfigError::Parse("x".into())).exit_code(), EXIT_CONFIG);
    assert_eq!(Error::Auth(AuthError::InvalidToken).exit_code(), EXIT_AUTH);
    assert_eq!(Error::Io(IoKind::AddrInUse, "x".into()).exit_code(), EXIT_BIND);
    assert_eq!(Error::Io(IoKind::PermissionDenied, "x".into()).exit_code(), EXIT_BIND);
    assert_eq!(Error::Io(IoKind::Other, "x".into()).exit_code(), EXIT_RUNTIME);
    assert_eq!(Error::Protocol(ProtocolError::from("x")).exit_code(), EXIT_RUNTIME);
    assert_eq!(Error::Transport(TransportError::from("x")).exit_code(), EXIT_RUNTIME);
    assert_eq!(Error::Serde("x".into()).exit_code(), EXIT_RUNTIME);
}

#[test]
fn errors_say_what_is_wrong() {
    let e = Error::Protocol(ProtocolError::V1FrameTooLarge { length: 70000, max: 65536 });
    assert_eq!(e.message(), "protocol error: V1 frame too large: 70000 (max 65536)");
    let e = Error::Auth(AuthError::LoginFailed("no".into()));
    assert_eq!(e.message(), "auth error: login failed: no");
    let e = Error::Transport(TransportError::TcpConnect { addr: "a:1".into(), source: "refused".into() });
    assert_eq!(e.message(), "transport error: TCP connect to a:1: refused");
    assert_eq!(Error::Config(ConfigError::from("bad")).message(), "config error: bad");
    assert_eq!(Error::Serde("eof".into()).message(), "serialization error: eof");
    assert_eq!(Error::Io(IoKind::Other, "gone".into()).message(), "io error: gone");
}

#[test]
fn stand_ins_refuse() {
    assert_eq!(conv_from_sid("sid"), 0);
    assert_eq!(derive_detect_key("sk"), [0u8; 16]);
    assert_eq!(connect_refusal(), "KCP feature not compiled");
}
