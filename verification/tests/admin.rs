use himqtt::admin::{
    AccountOutcome, BatchReport,
    defaults_failure_message, hash_failure_message, malformed_line_message,
    default_admin_listen, default_admin_password, default_enabled, default_static_dir, default_true,
    parse_batch_users, AdminConfig, BatchLine,
};

#[test]
fn admin_config_defaults() {
    let c = AdminConfig::default();
    assert_eq!(c.listen, "127.0.0.1:8091");
    assert_eq!(c.default_password, "admin123");
    assert_eq!(c.static_dir, "admin-web/dist");
    assert_eq!(default_admin_listen(), c.listen);
    assert_eq!(default_admin_password(), c.default_password);
    assert_eq!(default_static_dir(), c.static_dir);
    assert!(default_enabled() && default_true());
}

#[test]
fn batch_lines_are_parsed() {
    let text = "dev1 pass1\n\n# comment\n  dev2\tpass2 extra \r\nlonely\r\n   \ndev3  p3";
    let entries = parse_batch_users(text);
    assert_eq!(entries.len(), 4);
    match &entries[0] {
        BatchLine::Account { line, username, password } => {
            assert_eq!((*line, username.as_str(), password.as_str()), (1, "dev1", "pass1"));
        }
        _ => panic!("expected an account"),
    }
    match &entries[1] {
        BatchLine::Account { line, username, password } => {
            assert_eq!((*line, username.as_str(), password.as_str()), (4, "dev2", "pass2"));
        }
        _ => panic!("expected an account"),
    }
    match &entries[2] {
        BatchLine::Malformed { line, text } => {
            assert_eq!((*line, text.as_str()), (5, "lonely"));
        }
        _ => panic!("expected a malformed line"),
    }
    match &entries[3] {
        BatchLine::Account { line, username, password } => {
            assert_eq!((*line, username.as_str(), password.as_str()), (7, "dev3", "p3"));
        }
        _ => panic!("expected an account"),
    }
}

#[test]
fn batch_of_nothing() {
    assert!(parse_batch_users("").is_empty());
    assert!(parse_batch_users("\n\n#x\n").is_empty());
}

#[test]
fn batch_messages() {
    assert_eq!(malformed_line_message(12, "lonely"), "第 12 行格式错误: lonely");
    assert_eq!(hash_failure_message("dev1"), "用户 dev1 密码哈希失败");
    assert_eq!(defaults_failure_message("dev1", "boom"), "用户 dev1 应用默认规则失败: boom");
}

#[test]
fn batch_report_accounting() {
    let mut r = BatchReport::new();
    r.record_malformed(3, "x");
    r.record_account("a", AccountOutcome::Created);
    r.record_account("b", AccountOutcome::NotCreated);
    r.record_account("c", AccountOutcome::HashFailed);
    r.record_account("d", AccountOutcome::CreatedDefaultsFailed { cause: "boom".to_string() });
    assert_eq!(r.created, 2);
    assert_eq!(r.skipped, vec!["b".to_string()]);
    assert_eq!(
        r.errors,
        vec![
            "第 3 行格式错误: x".to_string(),
            "用户 c 密码哈希失败".to_string(),
            "用户 d 应用默认规则失败: boom".to_string(),
        ]
    );
}
