use std::path::PathBuf;

use finsync::config::{parse_app_config, ConnectionConfig};
use finsync::logging::{
    configured_log_path, debug, error, format_connection_for_log, format_log_line, info,
    log_line, resolve_log_dir, timestamp, timestamp_from_clock, timestamp_text,
};

const DIR: &str = "/tmp/finsync_logging_test";

fn config_path() -> String {
    format!("{}/config.ini", DIR)
}

#[test]
fn resolve_log_dir_defaults_to_config_sibling_logs() {
    let log_dir = resolve_log_dir(&config_path(), "[local]\nhost=127.0.0.1\n");
    assert_eq!(PathBuf::from(log_dir), PathBuf::from(DIR).join("logs"));
}

#[test]
fn resolve_log_dir_uses_relative_path_from_config_dir() {
    let log_dir = resolve_log_dir(&config_path(), "log_path=custom/logs\n[local]\nhost=127.0.0.1\n");
    assert_eq!(PathBuf::from(log_dir), PathBuf::from(DIR).join("custom").join("logs"));
}

#[test]
fn resolve_log_dir_uses_absolute_path_as_is() {
    let absolute_log_dir = PathBuf::from(DIR).join("absolute-logs");
    let content = format!(
        "log_path={}\n[local]\nhost=127.0.0.1\n",
        absolute_log_dir.to_string_lossy()
    );
    let log_dir = resolve_log_dir(&config_path(), &content);
    assert_eq!(PathBuf::from(log_dir), absolute_log_dir);
}

#[test]
fn resolve_log_dir_without_directory_uses_relative_logs() {
    let log_dir = resolve_log_dir("config.ini", "");
    assert_eq!(PathBuf::from(log_dir), PathBuf::from("logs"));
}

#[test]
fn configured_log_path_default_and_setting() {
    assert_eq!(configured_log_path(&parse_app_config("")), "logs");
    assert_eq!(configured_log_path(&parse_app_config("log_path=x/y\n")), "x/y");
}

#[test]
fn format_connection_for_log_excludes_password() {
    let cfg = ConnectionConfig {
        name: "prod".to_string(),
        host: "127.0.0.1".to_string(),
        port: "3306".to_string(),
        user: "root".to_string(),
        password: "secret-password".to_string(),
    };

    let line = format_connection_for_log(&cfg);

    assert!(line.contains("name=prod"));
    assert!(line.contains("host=127.0.0.1"));
    assert!(line.contains("port=3306"));
    assert!(line.contains("user=root"));
    assert!(!line.contains("secret-password"));
    assert!(!line.contains("password"));
    assert_eq!(line, "name=prod host=127.0.0.1 port=3306 user=root");
}

#[test]
fn timestamp_text_is_unix_seconds() {
    assert_eq!(timestamp_text(0), "unix=0");
    assert_eq!(timestamp_text(1725029869), "unix=1725029869");
    assert_eq!(timestamp_text(u64::MAX), format!("unix={}", u64::MAX));
}

#[test]
fn timestamp_reads_the_clock() {
    let ts = timestamp();
    let secs: u64 = ts.strip_prefix("unix=").expect("unix= prefix").parse().expect("seconds");
    assert!(secs > 1_600_000_000);
}

#[test]
fn log_lines_carry_level_and_message() {
    assert_eq!(format_log_line("unix=5", "INFO", "启动完成：中文日志"), "unix=5 [INFO] 启动完成：中文日志");
    assert!(log_line("DEBUG", "SELECT 1").ends_with(" [DEBUG] SELECT 1"));
    assert!(info("a").ends_with(" [INFO] a"));
    assert!(debug("b").ends_with(" [DEBUG] b"));
    assert!(error("c").ends_with(" [ERROR] c"));
    assert!(info("a").starts_with("unix="));
}

#[test]
fn timestamp_before_epoch_is_zero() {
    assert_eq!(timestamp_from_clock(None), "unix=0");
    assert_eq!(timestamp_from_clock(Some(42)), "unix=42");
}
