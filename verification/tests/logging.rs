//! Log settings and the expiry of log files.
use frp_core::clock::UnixTime;
use frp_core::logging::{
    is_log_expired, is_token_error, is_unsupported_format, plan_tracing, plan_tracing_otel,
    resolve_ansi, resolve_log_file, resolve_log_format, resolve_log_level, should_remove, LogEntry,
};

fn at(secs: i64) -> UnixTime {
    UnixTime { secs, nanos: 0 }
}

#[test]
fn is_log_expired_respects_max_days() {
    let now = 1_000_000_000i64;
    let old = now - 2 * 24 * 3600;
    let recent = now - 12 * 3600;
    // Older than max_days → expired.
    assert!(is_log_expired(at(old), at(now), 1));
    // Newer than max_days → not expired.
    assert!(!is_log_expired(at(recent), at(now), 1));
    // max_days <= 0 disables cleanup entirely.
    assert!(!is_log_expired(at(old), at(now), 0));
    assert!(!is_log_expired(at(old), at(now), -1));
    // Boundary: exactly max_days old is NOT expired (a strict
    // `mtime < now - maxDays` comparison); one second past the boundary is.
    assert!(!is_log_expired(at(now - 86400), at(now), 1));
    assert!(is_log_expired(at(now - 86400 - 1), at(now), 1));
    // Current/future mtime never expires.
    assert!(!is_log_expired(at(now), at(now), 3));
    assert!(!is_log_expired(at(now + 3600), at(now), 3));
}

#[test]
fn nanoseconds_decide_at_the_boundary() {
    let now = UnixTime { secs: 200_000, nanos: 500 };
    assert!(is_log_expired(UnixTime { secs: 200_000 - 86400, nanos: 499 }, now, 1));
    assert!(!is_log_expired(UnixTime { secs: 200_000 - 86400, nanos: 500 }, now, 1));
    // A cutoff that no clock can show expires nothing.
    assert!(!is_log_expired(at(i64::MIN), at(i64::MIN + 5), 1));
    assert!(!is_log_expired(at(i64::MIN), at(i64::MIN + 5), i32::MAX));
}

#[test]
fn resolve_log_format_precedence_and_fallback() {
    // CLI wins over config.
    assert_eq!(resolve_log_format(Some("json".into()), "text"), "json");
    // Config used when no CLI flag.
    assert_eq!(resolve_log_format(None, "json"), "json");
    assert_eq!(resolve_log_format(None, "text"), "text");
    // Unsupported values fall back to "text".
    assert_eq!(resolve_log_format(Some("yaml".into()), "text"), "text");
    assert_eq!(resolve_log_format(None, "yaml"), "text");
    // Empty string → "text".
    assert_eq!(resolve_log_format(Some("".into()), "text"), "text");
}

#[test]
fn unsupported_formats_are_told_apart() {
    assert!(is_unsupported_format("yaml"));
    assert!(!is_unsupported_format("json"));
    assert!(!is_unsupported_format("text"));
    assert!(!is_unsupported_format(""));
}

#[test]
fn levels_and_files_have_a_precedence() {
    assert_eq!(resolve_log_level(Some("warn".into()), Some("debug"), "trace"), "warn");
    assert_eq!(resolve_log_level(None, Some("debug"), "trace"), "debug");
    assert_eq!(resolve_log_level(None, None, "trace"), "info");
    assert_eq!(resolve_log_file(Some("a.log".into()), "b.log"), Some("a.log".to_string()));
    assert_eq!(resolve_log_file(None, "b.log"), Some("b.log".to_string()));
    assert_eq!(resolve_log_file(None, ""), None);
    assert_eq!(resolve_log_file(None, "console"), None);
    assert!(resolve_ansi(false));
    assert!(!resolve_ansi(true));
}

#[test]
fn only_expired_files_with_the_prefix_go() {
    let now = at(1_700_000_000);
    let old = Some(at(1_000_000_000));
    let entry = |name: &str, is_dir: bool, modified: Option<UnixTime>| LogEntry {
        name: name.to_string(),
        is_dir,
        modified,
    };
    assert!(should_remove(&entry("frps.log.2020-01-01", false, old), "frps.log", now, 1));
    assert!(should_remove(&entry("frps.log.2020-01-01.bak", false, old), "frps.log", now, 1));
    assert!(!should_remove(&entry("frps.log.2099-01-01", false, Some(now)), "frps.log", now, 1));
    assert!(!should_remove(&entry("other.log.2020-01-01", false, old), "frps.log", now, 1));
    assert!(!should_remove(&entry("frps.log.2020-01-01.dir", true, old), "frps.log", now, 1));
    assert!(!should_remove(&entry("frps.log.2020-01-01", false, None), "frps.log", now, 1));
    assert!(!should_remove(&entry("frps.log", false, old), "frps.log", now, 1));
    assert!(!should_remove(&entry("frps.log.2020-01-01", false, old), "frps.log", now, 0));
}

#[test]
fn token_errors_are_recognised() {
    assert!(is_token_error("token mismatch"));
    assert!(is_token_error("needs authentication"));
    assert!(!is_token_error("connection refused"));
    assert!(!is_token_error(""));
}

#[test]
fn plans_name_their_writers() {
    let p = plan_tracing(true, 3, "json", true);
    assert!(p.file && !p.console && p.json && p.file_ansi && p.cleanup && !p.otel);
    let p = plan_tracing(false, 3, "text", false);
    assert!(!p.file && p.console && !p.json && !p.console_ansi && !p.cleanup);
    let p = plan_tracing_otel(true, 0, "text", true, true);
    assert!(p.file && p.console && p.console_ansi && !p.file_ansi && p.otel && !p.cleanup);
    let p = plan_tracing_otel(false, 3, "json", true, false);
    assert!(!p.file && p.console && p.json && !p.otel && !p.cleanup);
}

#[test]
fn a_log_without_directory_or_name_gets_the_defaults() {
    let given = frp_core::logging::log_target(Some("/var/log".into()), Some("a.log".into()), "frp.log");
    assert_eq!(given, ("/var/log".to_string(), "a.log".to_string()));
    let none = frp_core::logging::log_target(None, None, "frp.log");
    assert_eq!(none, (".".to_string(), "frp.log".to_string()));
}
