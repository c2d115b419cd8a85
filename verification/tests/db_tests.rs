use finsync::config::ConnectionConfig;
use finsync::db::{
    after_stage, connection_port, filter_databases, finish_outcome, first_stage, is_system_db,
    match_filter, parse_port, rollback_statement, stage_statement, ExecStage, ExecStep,
};

// ── match_filter ──

#[test]
fn match_filter_empty_filters() {
    assert!(match_filter("anything", "", ""));
    assert!(match_filter("test", "", ""));
    assert!(match_filter("", "", ""));
}

#[test]
fn match_filter_whitespace_only_filters() {
    assert!(match_filter("db", "   ", "\t"));
    assert!(match_filter("db", " ", ""));
}

#[test]
fn match_filter_prefix_only_match() {
    assert!(match_filter("prod_customer", "prod_", ""));
    assert!(match_filter("prod_orders", "prod_", ""));
}

#[test]
fn match_filter_prefix_only_mismatch() {
    assert!(!match_filter("dev_customer", "prod_", ""));
    assert!(!match_filter("customer", "prod_", ""));
}

#[test]
fn match_filter_suffix_only_match() {
    assert!(match_filter("log_error", "", "_error"));
    assert!(match_filter("http_error", "", "_error"));
}

#[test]
fn match_filter_suffix_only_mismatch() {
    assert!(!match_filter("log_info", "", "_error"));
    assert!(!match_filter("error", "", "_error_log"));
}

#[test]
fn match_filter_both_match() {
    assert!(match_filter("prod_log_error", "prod_", "_error"));
    assert!(match_filter("prod_db_error", "prod_", "_error"));
}

#[test]
fn match_filter_both_mismatch_prefix_wrong() {
    assert!(!match_filter("dev_log_error", "prod_", "_error"));
}

#[test]
fn match_filter_both_mismatch_suffix_wrong() {
    assert!(!match_filter("prod_log_info", "prod_", "_error"));
}

#[test]
fn match_filter_both_mismatch_neither() {
    assert!(!match_filter("dev_log_info", "prod_", "_error"));
}

#[test]
fn match_filter_partial_match_prefix_only() {
    assert!(!match_filter("prod_log_info", "prod_", "_error"));
    assert!(!match_filter("dev_log_error", "prod_", "_error"));
}

#[test]
fn match_filter_exact_match() {
    assert!(match_filter("abc", "a", "c"));
    assert!(match_filter("mydb", "mydb", ""));
    assert!(match_filter("mydb", "", "mydb"));
}

#[test]
fn match_filter_single_character() {
    assert!(match_filter("a", "a", ""));
    assert!(match_filter("a", "", "a"));
    assert!(match_filter("a", "a", "a"));
    assert!(!match_filter("b", "a", ""));
}

#[test]
fn match_filter_overlapping_prefix_suffix() {
    assert!(match_filter("test", "test", "test"));
    assert!(match_filter("test", "tes", "est"));
}

#[test]
fn match_filter_trims_padded_filters() {
    assert!(match_filter("prod_x_error", "  prod_ ", "\t_error\n"));
    assert!(!match_filter("prod_x_error", " dev_", ""));
    assert!(match_filter("数据库_生产", "数据库", "生产"));
}

// ── is_system_db ──

#[test]
fn system_dbs_are_recognized() {
    assert!(is_system_db("information_schema"));
    assert!(is_system_db("mysql"));
    assert!(is_system_db("performance_schema"));
    assert!(is_system_db("sys"));
}

#[test]
fn regular_dbs_are_not_system() {
    assert!(!is_system_db("my_app_db"));
    assert!(!is_system_db("test"));
    assert!(!is_system_db("production"));
    assert!(!is_system_db(""));
}

#[test]
fn similar_names_not_system() {
    assert!(!is_system_db("my_mysql"));
    assert!(!is_system_db("information_schema_backup"));
    assert!(!is_system_db("SYS"));
}

// ── filter_databases ──

fn names(list: &[&str]) -> Vec<String> {
    list.iter().map(|s| s.to_string()).collect()
}

#[test]
fn filter_databases_excludes_system_and_keeps_order() {
    let all = names(&["mysql", "prod_a_error", "sys", "dev_b_error", "prod_c_error", "information_schema"]);
    assert_eq!(
        filter_databases(all.clone(), "prod_", "_error"),
        names(&["prod_a_error", "prod_c_error"])
    );
    assert_eq!(
        filter_databases(all, "", ""),
        names(&["prod_a_error", "dev_b_error", "prod_c_error"])
    );
    assert_eq!(filter_databases(Vec::new(), "x", "y"), Vec::<String>::new());
}

#[test]
fn filter_databases_nonmatching_prefix_excludes_all() {
    let all = names(&["alpha", "beta"]);
    assert!(filter_databases(all, "zzz_nonexistent_", "").is_empty());
}

// ── ports ──

fn config_with_port(port: &str) -> ConnectionConfig {
    ConnectionConfig {
        name: "n".to_string(),
        host: "h".to_string(),
        port: port.to_string(),
        user: "u".to_string(),
        password: "p".to_string(),
    }
}

#[test]
fn port_parses_like_str_parse() {
    for s in ["3306", "+3306", "0", "65535", "007", "", "+", "-1", "65536", " 3306", "33a6", "99999999999"] {
        assert_eq!(parse_port(s), s.parse::<u16>().ok(), "port text {:?}", s);
    }
}

#[test]
fn connection_port_defaults_to_3306() {
    assert_eq!(connection_port(&config_with_port("3307")), 3307);
    assert_eq!(connection_port(&config_with_port("")), 3306);
    assert_eq!(connection_port(&config_with_port("abc")), 3306);
    assert_eq!(connection_port(&config_with_port("70000")), 3306);
}

// ── the per-database transaction ──

#[test]
fn stages_run_in_order_and_commit() {
    let mut stage = first_stage();
    let mut statements = Vec::new();
    loop {
        if let Some(sql) = stage_statement(stage, "app_db", "UPDATE t SET x = 1") {
            statements.push(sql);
        }
        match after_stage(stage, "app_db", Ok(())) {
            ExecStep::Next(next) => stage = next,
            step => {
                assert_eq!(step, ExecStep::Succeeded);
                break;
            }
        }
    }
    assert_eq!(
        statements,
        vec![
            "START TRANSACTION".to_string(),
            "SET NAMES utf8mb4".to_string(),
            "USE `app_db`".to_string(),
            "UPDATE t SET x = 1".to_string(),
            "COMMIT".to_string(),
        ]
    );
    let outcome = finish_outcome("app_db", ExecStep::Succeeded);
    assert!(outcome.success);
    assert_eq!(outcome.database, "app_db");
    assert!(outcome.error.is_empty());
}

#[test]
fn failures_report_stage_and_rollback_after_begin() {
    let e = || Err("boom".to_string());
    assert_eq!(
        after_stage(ExecStage::Connect, "d", e()),
        ExecStep::Failed { error: "获取数据库连接失败: boom".to_string(), rollback: false }
    );
    assert_eq!(
        after_stage(ExecStage::StartTransaction, "d", e()),
        ExecStep::Failed { error: "开始事务失败: boom".to_string(), rollback: false }
    );
    assert_eq!(
        after_stage(ExecStage::SetNames, "d", e()),
        ExecStep::Failed { error: "设置字符集失败: boom".to_string(), rollback: true }
    );
    assert_eq!(
        after_stage(ExecStage::UseDatabase, "nonexistent_db_xyz_12345", e()),
        ExecStep::Failed {
            error: "切换数据库 `nonexistent_db_xyz_12345` 失败: boom".to_string(),
            rollback: true
        }
    );
    assert_eq!(
        after_stage(ExecStage::ExecuteSql, "d", e()),
        ExecStep::Failed { error: "执行 SQL 失败: boom".to_string(), rollback: true }
    );
    assert_eq!(
        after_stage(ExecStage::Commit, "d", e()),
        ExecStep::Failed { error: "提交事务失败: boom".to_string(), rollback: true }
    );
    assert_eq!(rollback_statement(), "ROLLBACK");

    let outcome = finish_outcome(
        "failing_db",
        ExecStep::Failed { error: "执行 SQL 失败: syntax error".to_string(), rollback: true },
    );
    assert!(!outcome.success);
    assert_eq!(outcome.database, "failing_db");
    assert_eq!(outcome.error, "执行 SQL 失败: syntax error");
}

#[test]
fn connect_stage_runs_no_statement() {
    assert_eq!(stage_statement(ExecStage::Connect, "d", "SELECT 1"), None);
}
