//! Log lines, and where the log directory is.
//!
//! Writing to the log file is the caller's; this module decides what a log
//! line says and which directory the configuration designates.

use vstd::prelude::*;

use crate::config::{parse_app_config, parsed_app_config, AppConfig, AppConfigView, ConnectionConfig};
use crate::text::{decimal, decimal_string};

verus! {

broadcast use vstd::string::group_string_axioms;

// ── Paths ─────────────────────────────────────────────────────────

/// What `std::path::Path::parent` gives for a path written as text (its
/// result as text), on the target the library is built for.
pub uninterp spec fn path_parent(path: Seq<char>) -> Option<Seq<char>>;

/// What `std::path::Path::is_absolute` decides for a path written as text,
/// on the target the library is built for.
pub uninterp spec fn path_is_absolute(path: Seq<char>) -> bool;

/// What `std::path::Path::join` gives (as text) for two paths written as
/// text, on the target the library is built for.
pub uninterp spec fn path_join(base: Seq<char>, path: Seq<char>) -> Seq<char>;

/// Calls `std::path::Path::parent` on `path`; the contract claims only that
/// the result (as text) is `path_parent` of the argument.
#[verifier::external_body]
fn std_path_parent(path: &str) -> (r: Option<String>)
    ensures
        r.deep_view() == path_parent(path@),
{
    match std::path::Path::new(path).parent() {
        Some(p) => Some(p.to_string_lossy().into_owned()),
        None => None,
    }
}

/// Calls `std::path::Path::is_absolute` on `path`; the contract claims only
/// that the result is `path_is_absolute` of the argument.
#[verifier::external_body]
fn std_path_is_absolute(path: &str) -> (r: bool)
    ensures
        r == path_is_absolute(path@),
{
    std::path::Path::new(path).is_absolute()
}

/// Calls `std::path::Path::join` on `base` and `path`; the contract claims
/// only that the result (as text) is `path_join` of the arguments.
#[verifier::external_body]
fn std_path_join(base: &str, path: &str) -> (r: String)
    ensures
        r@ == path_join(base@, path@),
{
    std::path::Path::new(base).join(path).to_string_lossy().into_owned()
}

/// The log directory that the settings name, before it is resolved: the
/// `log_path` setting, or `logs`.
pub open spec fn configured_log_dir(app: AppConfigView) -> Seq<char> {
    match app.log_path {
        Some(p) => p,
        None => "logs"@,
    }
}

/// The directory of the configuration file, or `.` when its path has none.
pub open spec fn config_dir_of(config_path: Seq<char>) -> Seq<char> {
    match path_parent(config_path) {
        Some(d) => d,
        None => "."@,
    }
}

/// The log directory for a configuration file at `config_path` with text
/// `text`: the configured directory when it is absolute, else that directory
/// taken relative to the configuration file's directory.
pub open spec fn resolved_log_dir(config_path: Seq<char>, text: Seq<char>) -> Seq<char> {
    let configured = configured_log_dir(parsed_app_config(text));
    if path_is_absolute(configured) {
        configured
    } else {
        path_join(config_dir_of(config_path), configured)
    }
}

/// The log directory that the settings name: `log_path`, or `logs`.
pub fn configured_log_path(app: &AppConfig) -> (r: String)
    ensures
        r@ == configured_log_dir(app@),
{
    match &app.log_path {
        Some(p) => p.clone(),
        None => String::from_str("logs"),
    }
}

/// The log directory for the configuration file at `config_path`, whose text
/// is `config_text`: the `log_path` setting (default `logs`), used as it is
/// when absolute and otherwise taken relative to the configuration file's
/// directory.
pub fn resolve_log_dir(config_path: &str, config_text: &str) -> (r: String)
    ensures
        r@ == resolved_log_dir(config_path@, config_text@),
{
    let app = parse_app_config(config_text);
    let configured = configured_log_path(&app);
    if std_path_is_absolute(configured.as_str()) {
        configured
    } else {
        let dir = match std_path_parent(config_path) {
            Some(d) => d,
            None => String::from_str("."),
        };
        std_path_join(dir.as_str(), configured.as_str())
    }
}

// ── Time ──────────────────────────────────────────────────────────

#[verifier::external_type_specification]
#[verifier::external_body]
pub struct ExSystemTime(std::time::SystemTime);

#[verifier::external_type_specification]
#[verifier::external_body]
pub struct ExSystemTimeError(std::time::SystemTimeError);

/// Calls `std::time::SystemTime::now`. Nothing is claimed of the result: it
/// is the clock's reading.
#[verifier::external_body]
fn system_time_now() -> std::time::SystemTime {
    std::time::SystemTime::now()
}

/// Calls `std::time::SystemTime::duration_since` with `UNIX_EPOCH`. Nothing is
/// claimed of the result: it depends on the clock's reading.
#[verifier::external_body]
fn time_since_unix_epoch(t: &std::time::SystemTime) -> Result<
    std::time::Duration,
    std::time::SystemTimeError,
> {
    t.duration_since(std::time::UNIX_EPOCH)
}

/// Calls `std::time::Duration::as_secs`. Nothing is claimed of the result,
/// the duration being opaque here.
#[verifier::external_body]
fn duration_secs(d: &std::time::Duration) -> u64 {
    d.as_secs()
}

/// The timestamp written for a moment `secs` seconds after the Unix epoch.
pub open spec fn timestamp_of(secs: nat) -> Seq<char> {
    "unix="@ + decimal(secs)
}

/// The timestamp text for `secs` seconds after the Unix epoch: `unix=<secs>`.
pub fn timestamp_text(secs: u64) -> (r: String)
    ensures
        r@ == timestamp_of(secs as nat),
{
    let mut r = String::from_str("unix=");
    let digits = decimal_string(secs);
    r.append(digits.as_str());
    r
}

/// The timestamp for a clock reading: `since_epoch` is the whole seconds
/// since the Unix epoch, or `None` when the clock reads before the epoch.
pub open spec fn clock_timestamp(since_epoch: Option<u64>) -> Seq<char> {
    match since_epoch {
        Some(secs) => timestamp_of(secs as nat),
        None => timestamp_of(0),
    }
}

/// The timestamp for a clock reading: `unix=<secs>` for `Some(secs)` seconds
/// since the Unix epoch, and `unix=0` for a reading before the epoch (`None`).
pub fn timestamp_from_clock(since_epoch: Option<u64>) -> (r: String)
    ensures
        r@ == clock_timestamp(since_epoch),
{
    match since_epoch {
        Some(secs) => timestamp_text(secs),
        None => timestamp_text(0),
    }
}

/// The timestamp of the current moment: `timestamp_from_clock` of the
/// clock's reading, whatever that reading is.
pub fn timestamp() -> (r: String)
    ensures
        exists|since_epoch: Option<u64>| r@ == clock_timestamp(since_epoch),
{
    let now = system_time_now();
    let since_epoch = match time_since_unix_epoch(&now) {
        Ok(d) => Some(duration_secs(&d)),
        Err(_) => None,
    };
    timestamp_from_clock(since_epoch)
}

// ── Log lines ─────────────────────────────────────────────────────

/// A log line: `<timestamp> [<level>] <message>`.
pub open spec fn log_line_text(timestamp: Seq<char>, level: Seq<char>, message: Seq<char>) -> Seq<
    char,
> {
    timestamp + " ["@ + level + "] "@ + message
}

/// The log line for `message` at `level`, stamped with `timestamp`.
pub fn format_log_line(timestamp: &str, level: &str, message: &str) -> (r: String)
    ensures
        r@ == log_line_text(timestamp@, level@, message@),
{
    let mut r = String::from_str(timestamp);
    r.append(" [");
    r.append(level);
    r.append("] ");
    r.append(message);
    r
}

/// The log line for `message` at `level`, stamped with the current time.
pub fn log_line(level: &str, message: &str) -> (r: String)
    ensures
        exists|since_epoch: Option<u64>| r@ == log_line_text(clock_timestamp(since_epoch), level@, message@),
{
    let ts = timestamp();
    format_log_line(ts.as_str(), level, message)
}

/// The log line for `message` at level `INFO`.
pub fn info(message: &str) -> (r: String)
    ensures
        exists|since_epoch: Option<u64>| r@ == log_line_text(clock_timestamp(since_epoch), "INFO"@, message@),
{
    log_line("INFO", message)
}

/// The log line for `message` at level `DEBUG`.
pub fn debug(message: &str) -> (r: String)
    ensures
        exists|since_epoch: Option<u64>| r@ == log_line_text(clock_timestamp(since_epoch), "DEBUG"@, message@),
{
    log_line("DEBUG", message)
}

/// The log line for `message` at level `ERROR`.
pub fn error(message: &str) -> (r: String)
    ensures
        exists|since_epoch: Option<u64>| r@ == log_line_text(clock_timestamp(since_epoch), "ERROR"@, message@),
{
    log_line("ERROR", message)
}

/// How a connection is described in the log: its name, host, port and user.
/// The password is left out.
pub open spec fn connection_log_text(c: crate::config::ConnectionView) -> Seq<char> {
    "name="@ + c.name + " host="@ + c.host + " port="@ + c.port + " user="@ + c.user
}

/// Describes a connection for the log, without its password:
/// `name=<name> host=<host> port=<port> user=<user>`.
pub fn format_connection_for_log(cfg: &ConnectionConfig) -> (r: String)
    ensures
        r@ == connection_log_text(cfg@),
{
    let mut r = String::from_str("name=");
    r.append(cfg.name.as_str());
    r.append(" host=");
    r.append(cfg.host.as_str());
    r.append(" port=");
    r.append(cfg.port.as_str());
    r.append(" user=");
    r.append(cfg.user.as_str());
    r
}

// ── Laws ──────────────────────────────────────────────────────────

/// The log never shows a password: two connections that differ only in their
/// passwords are described alike.
pub proof fn law_log_omits_password(a: crate::config::ConnectionView, b: crate::config::ConnectionView)
    requires
        a.name == b.name,
        a.host == b.host,
        a.port == b.port,
        a.user == b.user,
    ensures
        connection_log_text(a) == connection_log_text(b),
{
}

/// An absolute `log_path` is used as it is, wherever the configuration file lies.
pub proof fn law_absolute_log_path_used_as_is(config_path: Seq<char>, text: Seq<char>)
    requires
        path_is_absolute(configured_log_dir(parsed_app_config(text))),
    ensures
        resolved_log_dir(config_path, text) == configured_log_dir(parsed_app_config(text)),
{
}

} // verus!
