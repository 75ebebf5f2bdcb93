//! Log settings: which level, file and format are in force, which log files
//! have expired, and which subscriber is to be built. Building it and touching
//! files stays outside.
use vstd::prelude::*;

use crate::clock::UnixTime;
use crate::text;

verus! {

// ── settings ────────────────────────────────────────────────────────────

/// The log level: the command line's, else the configuration's, else `info`.
pub fn resolve_log_level(
    cli_level: Option<String>,
    cfg_level: Option<&str>,
    _debug_default: &str,
) -> (r: String)
    ensures
        r@ == (match cli_level {
            Some(l) => l@,
            None => match cfg_level {
                Some(l) => l@,
                None => "info"@,
            },
        }),
{
    match cli_level {
        Some(l) => l,
        None => match cfg_level {
            Some(l) => l.to_owned(),
            None => "info".to_owned(),
        },
    }
}

/// The log file: the command line's, else the configuration's. An empty name
/// or `console` in the configuration means standard output.
pub fn resolve_log_file(cli_file: Option<String>, cfg_file: &str) -> (r: Option<String>)
    ensures
        (match cli_file {
            Some(f) => r == Some(f),
            None => {
                &&& r is None <==> cfg_file@.len() == 0 || cfg_file@ == "console"@
                &&& r matches Some(f) ==> f@ == cfg_file@
            },
        }),
{
    match cli_file {
        Some(f) => Some(f),
        None => {
            if cfg_file.unicode_len() == 0 || text::same_text(cfg_file, "console") {
                None
            } else {
                Some(cfg_file.to_owned())
            }
        },
    }
}

/// Where a log file goes: the directory and the file's name, from what its path
/// names of the two. Without a directory it is the current one, without a name
/// the default one.
pub fn log_target(
    directory: Option<String>,
    file_name: Option<String>,
    default_log_name: &str,
) -> (r: (String, String))
    ensures
        r.0@ == (match directory {
            Some(d) => d@,
            None => "."@,
        }),
        r.1@ == (match file_name {
            Some(f) => f@,
            None => default_log_name@,
        }),
{
    let d = match directory {
        Some(d) => d,
        None => ".".to_owned(),
    };
    let f = match file_name {
        Some(f) => f,
        None => default_log_name.to_owned(),
    };
    (d, f)
}

/// Whether the log is coloured.
pub fn resolve_ansi(disable_log_color: bool) -> (r: bool)
    ensures
        r == !disable_log_color,
{
    !disable_log_color
}

/// The format asked for: the command line's, else the configuration's.
pub open spec fn format_asked(cli_format: Option<String>, cfg_format: Seq<char>) -> Seq<char> {
    match cli_format {
        Some(f) => f@,
        None => cfg_format,
    }
}

/// Whether a format is one that the log can have.
pub open spec fn is_format(f: Seq<char>) -> bool {
    f == "text"@ || f == "json"@
}

/// Resolve the log output format. The command line wins over the
/// configuration. Only "text" and "json" are supported; any other value falls
/// back to "text".
pub fn resolve_log_format(cli_format: Option<String>, cfg_format: &str) -> (r: String)
    ensures
        r@ == (if is_format(format_asked(cli_format, cfg_format@)) {
            format_asked(cli_format, cfg_format@)
        } else {
            "text"@
        }),
{
    let f = match cli_format {
        Some(f) => f,
        None => cfg_format.to_owned(),
    };
    if text::same_text(f.as_str(), "text") || text::same_text(f.as_str(), "json") {
        f
    } else {
        "text".to_owned()
    }
}

/// Whether a warning is due: a format was asked for that the log cannot have.
pub fn is_unsupported_format(f: &str) -> (r: bool)
    ensures
        r <==> f@.len() > 0 && !is_format(f@),
{
    f.unicode_len() > 0 && !text::same_text(f, "text") && !text::same_text(f, "json")
}

/// Whether an error message speaks of a token or of authentication.
pub fn is_token_error(msg: &str) -> (r: bool)
    ensures
        r == (text::occurs(msg@, "token"@) || text::occurs(msg@, "auth"@)),
{
    text::contains(msg, "token") || text::contains(msg, "auth")
}

// ── expiry ──────────────────────────────────────────────────────────────

/// Whether a file of that age is to go: it is older than `max_days` days, and
/// `max_days` is positive.
pub open spec fn expired(modified: UnixTime, now: UnixTime, max_days: int) -> bool {
    &&& max_days > 0
    &&& now.secs - max_days * 86400 >= i64::MIN
    &&& modified.at() < now.at() - max_days * 86_400_000_000_000
}

/// Is a log file with mtime `modified` older than `max_days` days relative to
/// `now`? `max_days <= 0` disables cleanup entirely. A file with an mtime in
/// the future is never expired.
pub fn is_log_expired(modified: UnixTime, now: UnixTime, max_days: i32) -> (r: bool)
    requires
        modified.wf(),
        now.wf(),
    ensures
        r == expired(modified, now, max_days as int),
{
    if max_days <= 0 {
        return false;
    }
    let span: i64 = max_days as i64 * 86400;
    if now.secs < i64::MIN + span {
        return false;
    }
    let cutoff = now.secs - span;
    modified.secs < cutoff || (modified.secs == cutoff && modified.nanos < now.nanos)
}

/// What expired stays expired, and it takes `max_days` full days: a file that
/// is exactly that old, or not yet written, is kept.
pub proof fn law_expiry_is_monotone(modified: UnixTime, now: UnixTime, later: UnixTime, days: int)
    requires
        modified.wf(),
        now.wf(),
        later.wf(),
        now.at() <= later.at(),
    ensures
        expired(modified, now, days) ==> expired(modified, later, days),
        modified.at() >= now.at() ==> !expired(modified, now, days),
        modified.at() == now.at() - days * 86_400_000_000_000 ==> !expired(modified, now, days),
{
    assert(now.secs <= later.secs);
}

/// A directory entry as the cleanup sees it. `modified` is `None` where the
/// file's time cannot be read.
pub struct LogEntry {
    pub name: String,
    pub is_dir: bool,
    pub modified: Option<UnixTime>,
}

/// Whether an entry is one of this program's expired log files: its name
/// starts with `log_name.`, it is no directory, and it has expired.
pub open spec fn to_be_removed(
    e: LogEntry,
    log_name: Seq<char>,
    now: UnixTime,
    max_days: int,
) -> bool {
    &&& log_name.push('.').is_prefix_of(e.name@)
    &&& !e.is_dir
    &&& e.modified is Some
    &&& expired(e.modified->0, now, max_days)
}

/// Whether an entry is one of this program's expired log files.
pub fn should_remove(e: &LogEntry, log_name: &str, now: UnixTime, max_days: i32) -> (r: bool)
    requires
        now.wf(),
        e.modified matches Some(t) ==> t.wf(),
    ensures
        r == to_be_removed(*e, log_name@, now, max_days as int),
{
    let mut prefix = log_name.to_owned();
    prefix.push('.');
    assert(prefix@ =~= log_name@.push('.'));
    if !text::starts_with(e.name.as_str(), prefix.as_str()) || e.is_dir {
        return false;
    }
    match e.modified {
        Some(t) => is_log_expired(t, now, max_days),
        None => false,
    }
}

// ── subscriber ──────────────────────────────────────────────────────────

/// Which writers the subscriber has.
#[derive(Debug, Clone, Copy, PartialEq, Eq, Structural)]
pub struct SubscriberPlan {
    /// Records are written to standard output.
    pub console: bool,
    /// Records are written to a file.
    pub file: bool,
    /// Records are JSON.
    pub json: bool,
    /// The console's records are coloured.
    pub console_ansi: bool,
    /// The file's records are coloured.
    pub file_ansi: bool,
    /// Spans are exported.
    pub otel: bool,
    /// Expired files are removed now and once a day.
    pub cleanup: bool,
}

/// The subscriber without export: it writes to the file where there is one,
/// else to standard output.
pub fn plan_tracing(has_file: bool, max_days: i32, format: &str, ansi: bool) -> (r: SubscriberPlan)
    ensures
        r == (SubscriberPlan {
            console: !has_file,
            file: has_file,
            json: format@ == "json"@,
            console_ansi: !has_file && ansi,
            file_ansi: has_file && ansi,
            otel: false,
            cleanup: has_file && max_days > 0,
        }),
{
    SubscriberPlan {
        console: !has_file,
        file: has_file,
        json: text::same_text(format, "json"),
        console_ansi: !has_file && ansi,
        file_ansi: has_file && ansi,
        otel: false,
        cleanup: has_file && max_days > 0,
    }
}

/// The subscriber with export: it always writes to standard output, and to the
/// file without colours where there is one. Spans are exported where the
/// exporter could be built.
pub fn plan_tracing_otel(
    has_file: bool,
    max_days: i32,
    format: &str,
    ansi: bool,
    exporter_built: bool,
) -> (r: SubscriberPlan)
    ensures
        r == (SubscriberPlan {
            console: true,
            file: has_file,
            json: format@ == "json"@,
            console_ansi: ansi,
            file_ansi: false,
            otel: exporter_built,
            cleanup: has_file && max_days > 0,
        }),
{
    SubscriberPlan {
        console: true,
        file: has_file,
        json: text::same_text(format, "json"),
        console_ansi: ansi,
        file_ansi: false,
        otel: exporter_built,
        cleanup: has_file && max_days > 0,
    }
}

/// A log file goes if and only if it is one of this log's, and more than so many
/// days of 86400 seconds have passed since it was written; with no limit none
/// goes.
pub proof fn law_old_logs_go(
    e: LogEntry,
    log_name: Seq<char>,
    rest: Seq<char>,
    now: UnixTime,
    max_days: int,
    age: int,
)
    requires
        now.wf(),
        e.modified is Some,
        e.modified->0.wf(),
        e.modified->0.at() == now.at() - age,
        0 < max_days <= 1_000_000,
        now.secs >= 0,
        e.name@ == log_name + seq!['.'] + rest,
    ensures
        to_be_removed(e, log_name, now, max_days) <==> !e.is_dir && age > max_days
            * 86_400_000_000_000,
        !to_be_removed(e, log_name, now, 0),
{
    assert(log_name.push('.').is_prefix_of(e.name@)) by {
        assert(e.name@.take(log_name.len() as int + 1) =~= log_name.push('.'));
    }
}

} // verus!
