use finsync::config::{app_config_after_read, choose_config_path, has_section_header, parse_app_config, parse_config, parse_jdbc_url, ConnectionConfig};

fn config(name: &str, host: &str, port: &str) -> ConnectionConfig {
    ConnectionConfig {
        name: name.to_string(),
        host: host.to_string(),
        port: port.to_string(),
        user: "u".to_string(),
        password: "p".to_string(),
    }
}

// ── Traditional format ──

#[test]
fn test_parse_traditional_format() {
    let content = r#"[本地开发库]
host=127.0.0.1
port=3306
user=root
password=root
"#;
    let configs = parse_config(content);

    assert_eq!(configs.len(), 1);
    assert_eq!(configs[0].name, "本地开发库");
    assert_eq!(configs[0].host, "127.0.0.1");
    assert_eq!(configs[0].port, "3306");
    assert_eq!(configs[0].user, "root");
    assert_eq!(configs[0].password, "root");
}

#[test]
fn test_parse_multiple_sections_traditional() {
    let content = r#"[section1]
host=10.0.0.1
port=3306
user=admin
password=pass1

[section2]
host=10.0.0.2
port=3307
user=admin2
password=pass2
"#;
    let configs = parse_config(content);

    assert_eq!(configs.len(), 2);
    assert_eq!(configs[0].name, "section1");
    assert_eq!(configs[0].host, "10.0.0.1");
    assert_eq!(configs[0].port, "3306");
    assert_eq!(configs[1].name, "section2");
    assert_eq!(configs[1].host, "10.0.0.2");
    assert_eq!(configs[1].port, "3307");
}

// ── JDBC URL format ──

#[test]
fn test_parse_jdbc_url_with_port() {
    let content = r#"[jdbc-test]
url=jdbc:mysql://rm-bp1xxxxx.mysql.rds.aliyuncs.com:3306/?characterEncoding=utf8&useSSL=false
user=admin
password=secret
"#;
    let configs = parse_config(content);

    assert_eq!(configs.len(), 1);
    assert_eq!(configs[0].name, "jdbc-test");
    assert_eq!(configs[0].host, "rm-bp1xxxxx.mysql.rds.aliyuncs.com");
    assert_eq!(configs[0].port, "3306");
    assert_eq!(configs[0].user, "admin");
    assert_eq!(configs[0].password, "secret");
}

#[test]
fn test_parse_jdbc_url_default_port() {
    let content = r#"[jdbc-no-port]
url=jdbc:mysql://db.example.com/somedb?charset=utf8
user=user1
password=pass1
"#;
    let configs = parse_config(content);

    assert_eq!(configs[0].host, "db.example.com");
    assert_eq!(configs[0].port, "3306");
}

#[test]
fn test_parse_jdbc_url_no_path() {
    let content = r#"[jdbc-no-path]
url=jdbc:mysql://127.0.0.1:3307/
user=u
password=p
"#;
    let configs = parse_config(content);

    assert_eq!(configs[0].host, "127.0.0.1");
    assert_eq!(configs[0].port, "3307");
}

#[test]
fn test_parse_jdbc_url_no_port_no_path() {
    let content = r#"[jdbc-simple]
url=jdbc:mysql://localhost
user=u
password=p
"#;
    let configs = parse_config(content);

    assert_eq!(configs[0].host, "localhost");
    assert_eq!(configs[0].port, "3306");
}

#[test]
fn test_parse_jdbc_url_invalid_format_no_panic() {
    let content = r#"[bad-url]
url=not-a-valid-url
user=u
password=p
"#;
    let configs = parse_config(content);

    assert_eq!(configs[0].host, "");
    assert_eq!(configs[0].port, "");
}

// ── URL precedence over host/port ──

#[test]
fn test_jdbc_url_precedence_over_host_port() {
    let content = r#"[precedence]
host=should-be-overridden
port=9999
url=jdbc:mysql://correct.host:3306/db
user=u
password=p
"#;
    let configs = parse_config(content);

    assert_eq!(configs[0].host, "correct.host");
    assert_eq!(configs[0].port, "3306");
}

#[test]
fn test_jdbc_url_precedence_url_before_host() {
    let content = r#"[precedence2]
url=jdbc:mysql://url.wins:3307/db
host=should-lose
port=1111
user=u
password=p
"#;
    let configs = parse_config(content);

    assert_eq!(configs[0].host, "url.wins");
    assert_eq!(configs[0].port, "3307");
}

// ── Comments and blank lines ──

#[test]
fn test_comments_ignored() {
    let content = r#"; This is a comment
# This is also a comment
[commented-section]
; comment in the middle
host=10.0.0.1
# another comment
port=3306
user=admin

password=secret
"#;
    let configs = parse_config(content);

    assert_eq!(configs.len(), 1);
    assert_eq!(configs[0].name, "commented-section");
    assert_eq!(configs[0].host, "10.0.0.1");
    assert_eq!(configs[0].port, "3306");
    assert_eq!(configs[0].user, "admin");
    assert_eq!(configs[0].password, "secret");
}

#[test]
fn test_blank_lines_ignored() {
    let content = r#"

[section-a]
host=1.1.1.1

port=3306
user=a
password=a

[section-b]

host=2.2.2.2
port=3307

user=b
password=b

"#;
    let configs = parse_config(content);

    assert_eq!(configs.len(), 2);
    assert_eq!(configs[0].name, "section-a");
    assert_eq!(configs[1].name, "section-b");
}

// ── Comprehensive scenarios ──

#[test]
fn test_empty_file() {
    let configs = parse_config("");
    assert!(configs.is_empty());
}

#[test]
fn test_only_comments() {
    let content = "; just a comment\n# another comment\n; and one more";
    let configs = parse_config(content);
    assert!(configs.is_empty());
}

#[test]
fn test_mixed_traditional_and_jdbc() {
    let content = r#"[traditional]
host=192.168.1.100
port=3306
user=test_user
password=test_pass

[jdbc-section]
url=jdbc:mysql://rm-bp1xxxxx.mysql.rds.aliyuncs.com:3306/?characterEncoding=utf8&zeroDateTimeBehavior=convertToNull&useSSL=false
user=admin
password=your_password_here
"#;
    let configs = parse_config(content);

    assert_eq!(configs.len(), 2);

    assert_eq!(configs[0].name, "traditional");
    assert_eq!(configs[0].host, "192.168.1.100");
    assert_eq!(configs[0].port, "3306");
    assert_eq!(configs[0].user, "test_user");

    assert_eq!(configs[1].name, "jdbc-section");
    assert_eq!(configs[1].host, "rm-bp1xxxxx.mysql.rds.aliyuncs.com");
    assert_eq!(configs[1].port, "3306");
    assert_eq!(configs[1].user, "admin");
}

#[test]
fn test_missing_fields_default_to_empty() {
    let content = r#"[minimal]
host=127.0.0.1
"#;
    let configs = parse_config(content);

    assert_eq!(configs.len(), 1);
    assert_eq!(configs[0].host, "127.0.0.1");
    assert_eq!(configs[0].port, "");
    assert_eq!(configs[0].user, "");
    assert_eq!(configs[0].password, "");
}

#[test]
fn test_keys_before_section_ignored() {
    let content = r#"host=orphan-value
port=9999

[valid-section]
host=10.0.0.1
user=admin
"#;
    let configs = parse_config(content);

    assert_eq!(configs.len(), 1);
    assert_eq!(configs[0].name, "valid-section");
    assert_eq!(configs[0].host, "10.0.0.1");
}

#[test]
fn test_parse_app_config_reads_top_level_log_path() {
    let content = r#"; app settings
log_path=logs/debug

[valid-section]
host=10.0.0.1
user=admin
"#;
    let app_config = parse_app_config(content);

    assert_eq!(app_config.log_path, Some("logs/debug".to_string()));
}

#[test]
fn test_parse_app_config_ignores_section_log_path() {
    let content = r#"[valid-section]
log_path=should-not-be-app-setting
host=10.0.0.1
"#;
    let app_config = parse_app_config(content);

    assert_eq!(app_config.log_path, None);
}

#[test]
fn test_parse_config_ignores_top_level_log_path() {
    let content = r#"log_path=logs

[valid-section]
host=10.0.0.1
user=admin
"#;
    let configs = parse_config(content);

    assert_eq!(configs.len(), 1);
    assert_eq!(configs[0].name, "valid-section");
    assert_eq!(configs[0].host, "10.0.0.1");
}

#[test]
fn test_real_config_file() {
    // The example configuration that ships with the application.
    let content = r#"; Format 1 — Traditional fields
[本地开发库]
host=127.0.0.1
port=3306
user=root
password=root

; Format 2 — JDBC URL (url takes precedence over host/port)
[阿里云RDS_生产]
url=jdbc:mysql://rm-bp1xxxxx.mysql.rds.aliyuncs.com:3306/?characterEncoding=utf8&useSSL=false
user=admin
password=your_password_here

; Both formats can be used in the same file
[测试环境]
host=192.168.1.100
port=3306
user=test_user
password=test_pass
"#;
    let configs = parse_config(content);
    assert_eq!(configs.len(), 3);

    assert_eq!(configs[0].name, "本地开发库");
    assert_eq!(configs[0].host, "127.0.0.1");
    assert_eq!(configs[0].port, "3306");
    assert_eq!(configs[0].user, "root");
    assert_eq!(configs[0].password, "root");

    assert_eq!(configs[1].name, "阿里云RDS_生产");
    assert_eq!(configs[1].host, "rm-bp1xxxxx.mysql.rds.aliyuncs.com");
    assert_eq!(configs[1].port, "3306");
    assert_eq!(configs[1].user, "admin");
    assert_eq!(configs[1].password, "your_password_here");

    assert_eq!(configs[2].name, "测试环境");
    assert_eq!(configs[2].host, "192.168.1.100");
    assert_eq!(configs[2].port, "3306");
    assert_eq!(configs[2].user, "test_user");
    assert_eq!(configs[2].password, "test_pass");
}

#[test]
fn test_key_case_insensitive() {
    let content = r#"[case-test]
HOST=10.0.0.1
Port=3306
USER=Admin
PASSWORD=Secret
"#;
    let configs = parse_config(content);

    assert_eq!(configs[0].host, "10.0.0.1");
    assert_eq!(configs[0].port, "3306");
    assert_eq!(configs[0].user, "Admin");
    assert_eq!(configs[0].password, "Secret");
}

#[test]
fn test_section_with_no_fields() {
    let content = r#"[empty-section]
[section-with-fields]
host=10.0.0.1
"#;
    let configs = parse_config(content);

    assert_eq!(configs.len(), 2);
    assert_eq!(configs[0].name, "empty-section");
    assert_eq!(configs[0].host, "");
    assert_eq!(configs[1].name, "section-with-fields");
    assert_eq!(configs[1].host, "10.0.0.1");
}

#[test]
fn test_url_with_database_path() {
    let content = r#"[with-db]
url=jdbc:mysql://db.host:3307/mydatabase?charset=utf8
user=u
password=p
"#;
    let configs = parse_config(content);

    assert_eq!(configs[0].host, "db.host");
    assert_eq!(configs[0].port, "3307");
}

#[test]
fn test_jdbc_mysql_bare_prefix() {
    let content = r#"[bare-mysql]
url=mysql://127.0.0.1:3306/
user=u
password=p
"#;
    let configs = parse_config(content);

    assert_eq!(configs[0].host, "127.0.0.1");
    assert_eq!(configs[0].port, "3306");
}

#[test]
fn test_line_with_equals_in_value() {
    let content = r#"[equals-test]
host=127.0.0.1
user=admin
password=pass=with=equals
"#;
    let configs = parse_config(content);

    assert_eq!(configs[0].password, "pass=with=equals");
}

// ── Acceptance scenarios ──

#[test]
fn c1_verify_traditional_format() {
    let content = "[本地开发库]\nhost=127.0.0.1\nport=3306\nuser=root\npassword=root\n";
    let configs = parse_config(content);

    assert_eq!(configs.len(), 1);
    assert_eq!(configs[0].name, "本地开发库");
    assert_eq!(configs[0].host, "127.0.0.1");
    assert_eq!(configs[0].port, "3306");
    assert_eq!(configs[0].user, "root");
    assert_eq!(configs[0].password, "root");
}

#[test]
fn c1_verify_traditional_with_spaces() {
    let content = "[section]\nhost = 10.0.0.1 \n port = 3307\n user=admin\npassword= pass \n";
    let configs = parse_config(content);

    assert_eq!(configs[0].host, "10.0.0.1");
    assert_eq!(configs[0].port, "3307");
    assert_eq!(configs[0].user, "admin");
    assert_eq!(configs[0].password, "pass");
}

#[test]
fn c2_verify_jdbc_url_with_port() {
    let content = "[jdbc]\nurl=jdbc:mysql://rm-bp1xxxxx.mysql.rds.aliyuncs.com:3306/?characterEncoding=utf8&useSSL=false\nuser=admin\npassword=secret\n";
    let configs = parse_config(content);

    assert_eq!(configs[0].host, "rm-bp1xxxxx.mysql.rds.aliyuncs.com");
    assert_eq!(configs[0].port, "3306");
}

#[test]
fn c2_verify_jdbc_url_default_port() {
    let content =
        "[jdbc2]\nurl=jdbc:mysql://db.example.com/somedb?charset=utf8\nuser=u\npassword=p\n";
    let configs = parse_config(content);

    assert_eq!(configs[0].host, "db.example.com");
    assert_eq!(configs[0].port, "3306");
}

#[test]
fn c3_verify_url_precedence_url_before_host() {
    let content = "[prec]\nurl=jdbc:mysql://url.wins:3307/db\nhost=should-lose\nport=1111\nuser=u\npassword=p\n";
    let configs = parse_config(content);

    assert_eq!(configs[0].host, "url.wins");
    assert_eq!(configs[0].port, "3307");
}

#[test]
fn c3_verify_url_precedence_url_after_host() {
    let content = "[prec2]\nhost=should-lose\nport=9999\nurl=jdbc:mysql://correct:3306/db\nuser=u\npassword=p\n";
    let configs = parse_config(content);

    assert_eq!(configs[0].host, "correct");
    assert_eq!(configs[0].port, "3306");
}

#[test]
fn c5_verify_comments_semicolon() {
    let content = "; top comment\n[section]\n; mid comment\nhost=1.2.3.4\nport=3306\nuser=test\npassword=test\n";
    let configs = parse_config(content);

    assert_eq!(configs.len(), 1);
    assert_eq!(configs[0].host, "1.2.3.4");
}

#[test]
fn c5_verify_comments_hash() {
    let content =
        "# top comment\n[section]\n# mid comment\nhost=5.6.7.8\nport=3307\nuser=u\npassword=p\n";
    let configs = parse_config(content);

    assert_eq!(configs.len(), 1);
    assert_eq!(configs[0].host, "5.6.7.8");
}

#[test]
fn c5_verify_blank_lines_ignored() {
    let content = "\n\n[section]\n\n\nhost=9.9.9.9\n\nport=3306\n\nuser=u\npassword=p\n\n\n";
    let configs = parse_config(content);

    assert_eq!(configs.len(), 1);
    assert_eq!(configs[0].host, "9.9.9.9");
}

#[test]
fn c6_verify_mixed_sections() {
    let content = "; Config file\n\n[section1]\nhost=192.168.1.100\nport=3306\nuser=test_user\npassword=test_pass\n\n[section2]\n# JDBC\nurl=jdbc:mysql://rm-test.rds.aliyuncs.com:3306/?charset=utf8\nuser=admin\npassword=secret\n\n[section3]\nhost=10.0.0.1\nport=3307\nuser=root\npassword=root\n";
    let configs = parse_config(content);

    assert_eq!(configs.len(), 3);

    assert_eq!(configs[0].name, "section1");
    assert_eq!(configs[0].host, "192.168.1.100");
    assert_eq!(configs[0].port, "3306");

    assert_eq!(configs[1].name, "section2");
    assert_eq!(configs[1].host, "rm-test.rds.aliyuncs.com");
    assert_eq!(configs[1].port, "3306");

    assert_eq!(configs[2].name, "section3");
    assert_eq!(configs[2].host, "10.0.0.1");
    assert_eq!(configs[2].port, "3307");
}

#[test]
fn c6_verify_empty_config() {
    let configs = parse_config("");
    assert!(configs.is_empty());
}

#[test]
fn edge_case_bare_mysql_prefix() {
    let content = "[bare]\nurl=mysql://127.0.0.1:3306/\nuser=u\npassword=p\n";
    let configs = parse_config(content);

    assert_eq!(configs[0].host, "127.0.0.1");
    assert_eq!(configs[0].port, "3306");
}

#[test]
fn edge_case_equals_in_value() {
    let content = "[test]\nhost=127.0.0.1\nuser=admin\npassword=pass=with=equals\n";
    let configs = parse_config(content);

    assert_eq!(configs[0].password, "pass=with=equals");
}

// ── Further cases ──

#[test]
fn crlf_line_endings_are_trimmed() {
    let content = "[win]\r\nhost=10.1.1.1\r\nport=3310\r\nuser=w\r\npassword=pw\r\n";
    let configs = parse_config(content);

    assert_eq!(configs.len(), 1);
    assert_eq!(configs[0].name, "win");
    assert_eq!(configs[0].host, "10.1.1.1");
    assert_eq!(configs[0].port, "3310");
    assert_eq!(configs[0].password, "pw");
}

#[test]
fn last_assignment_of_a_key_wins() {
    let configs = parse_config("[dup]\nhost=first\nhost=second\n");
    assert_eq!(configs[0].host, "second");
}

#[test]
fn url_is_local_to_its_section() {
    let content = "[a]\nurl=jdbc:mysql://a.host:1/\n[b]\nhost=b.host\nport=2\n";
    let configs = parse_config(content);
    assert_eq!(configs[0].host, "a.host");
    assert_eq!(configs[0].port, "1");
    assert_eq!(configs[1].host, "b.host");
    assert_eq!(configs[1].port, "2");
}

#[test]
fn unknown_keys_and_lines_without_equals_ignored() {
    let content = "[s]\ncharset=utf8\njust some words\nhost=h\n";
    let configs = parse_config(content);
    assert_eq!(configs.len(), 1);
    assert_eq!(configs[0].host, "h");
    assert_eq!(configs[0].port, "");
}

#[test]
fn empty_header_and_whitespace_in_name_kept() {
    let configs = parse_config("[]\n[ spaced name ]\n");
    assert_eq!(configs.len(), 2);
    assert_eq!(configs[0].name, "");
    assert_eq!(configs[1].name, " spaced name ");
}

#[test]
fn jdbc_prefix_without_mysql_scheme_ignored() {
    let configs = parse_config("[x]\nhost=keep\nport=1\nurl=jdbc:postgresql://other:5432/\n");
    assert_eq!(configs[0].host, "keep");
    assert_eq!(configs[0].port, "1");
}

#[test]
fn jdbc_url_with_empty_host_ignored() {
    let configs = parse_config("[x]\nhost=keep\nurl=jdbc:mysql:///db\n");
    assert_eq!(configs[0].host, "keep");
    assert_eq!(configs[0].port, "");
}

#[test]
fn jdbc_url_with_empty_port_kept_empty() {
    let configs = parse_config("[x]\nurl=mysql://h:/\n");
    assert_eq!(configs[0].host, "h");
    assert_eq!(configs[0].port, "");
}

#[test]
fn parse_jdbc_url_changes_only_host_and_port() {
    let mut cfg = config("n", "old", "1");
    parse_jdbc_url(&mut cfg, "  jdbc:mysql://new.host:4406/db?x=1  ");
    assert_eq!(cfg.name, "n");
    assert_eq!(cfg.host, "new.host");
    assert_eq!(cfg.port, "4406");
    assert_eq!(cfg.user, "u");
    assert_eq!(cfg.password, "p");

    let mut same = config("n", "old", "1");
    parse_jdbc_url(&mut same, "mysql:/missing-slash");
    assert_eq!(same, config("n", "old", "1"));
}

#[test]
fn app_config_last_nonempty_log_path_wins() {
    let app = parse_app_config("log_path=a\nLOG_PATH = b \nlog_path=\n[s]\n");
    assert_eq!(app.log_path, Some("b".to_string()));
    assert_eq!(parse_app_config("log_path=\n").log_path, None);
    assert_eq!(parse_app_config("").log_path, None);
}

#[test]
fn choose_config_path_prefers_executable_directory() {
    let exe = Some("/opt/app/config.ini".to_string());
    let cwd = Some("/home/u/config.ini".to_string());
    let fallback = "/opt/app/config.ini".to_string();
    assert_eq!(
        choose_config_path(exe.clone(), true, cwd.clone(), fallback.clone()),
        "/opt/app/config.ini"
    );
    assert_eq!(
        choose_config_path(exe.clone(), false, cwd, fallback.clone()),
        "/home/u/config.ini"
    );
    assert_eq!(choose_config_path(exe, false, None, fallback), "/opt/app/config.ini");
    assert_eq!(
        choose_config_path(None, true, None, "./config.ini".to_string()),
        "./config.ini"
    );
}

#[test]
fn app_config_read_error_after_header_is_ignored() {
    let text = "log_path=logs/x\n[s]\n";
    let r = app_config_after_read(text, Some("读取配置文件失败: bad".to_string()));
    assert_eq!(r.unwrap().log_path, Some("logs/x".to_string()));
    let r = app_config_after_read("log_path=logs/x\n", Some("读取配置文件失败: bad".to_string()));
    assert_eq!(r.unwrap_err(), "读取配置文件失败: bad");
    let r = app_config_after_read("log_path=y\n", None);
    assert_eq!(r.unwrap().log_path, Some("y".to_string()));
    assert!(has_section_header("; c\n [a] \n"));
    assert!(!has_section_header("; [a]\nkey=[v]\n"));
}
