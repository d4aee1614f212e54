use himqtt::acl::{verify_user_password, AclConfig, AclOperation, AclRule, AclService, MqttUser};
use himqtt::password::{hash_admin_password, hash_mqtt_password, new_password_hash, verify_password};
use himqtt::settings::AclSettings;

fn rule(user: &str, pattern: &str, sub: bool, publ: bool) -> AclRule {
    AclRule {
        username: user.to_string(),
        topic_pattern: pattern.to_string(),
        can_subscribe: sub,
        can_publish: publ,
    }
}

fn user(name: &str, hash: &str, enabled: bool) -> MqttUser {
    MqttUser { username: name.to_string(), password_hash: hash.to_string(), enabled }
}

fn service(enforce: bool) -> AclService {
    let mut s = AclService::new(AclConfig { enforce_registered_topics: enforce, cache_refresh_secs: 10 });
    s.reload(
        vec![user("dev1", "x", true)],
        vec!["home/#".to_string(), "sensor/temp".to_string()],
        vec![
            rule("dev1", "home/#", true, false),
            rule("dev1", "home/+/cmd", false, true),
            rule("dev2", "sensor/temp", true, true),
        ],
    );
    s
}

#[test]
fn empty_username_is_denied() {
    let s = service(false);
    assert!(!s.check_acl("", "home/a", AclOperation::Subscribe));
}

#[test]
fn rules_grant_per_operation() {
    let s = service(false);
    assert!(s.check_acl("dev1", "home/a/b", AclOperation::Subscribe));
    assert!(!s.check_acl("dev1", "home/a/b", AclOperation::Publish));
    assert!(s.check_acl("dev1", "home/x/cmd", AclOperation::Publish));
    assert!(!s.check_acl("dev1", "office/a", AclOperation::Subscribe));
}

#[test]
fn user_without_rules_is_denied() {
    let s = service(false);
    assert!(!s.check_acl("nobody", "home/a", AclOperation::Subscribe));
}

#[test]
fn registration_enforced_blocks_unregistered_topics() {
    let s = service(true);
    assert!(s.check_acl("dev2", "sensor/temp", AclOperation::Publish));
    let mut open = service(false);
    open.reload(vec![], vec![], vec![rule("dev2", "other/#", true, true)]);
    assert!(open.check_acl("dev2", "other/x", AclOperation::Publish));
    let mut strict = service(true);
    strict.reload(vec![], vec!["home/#".to_string()], vec![rule("dev2", "other/#", true, true)]);
    assert!(!strict.check_acl("dev2", "other/x", AclOperation::Publish));
}

#[test]
fn reload_replaces_the_cache() {
    let mut s = service(false);
    s.reload(vec![], vec![], vec![]);
    assert!(!s.check_acl("dev1", "home/a/b", AclOperation::Subscribe));
}

#[test]
fn refresh_interval_is_at_least_five_seconds() {
    let s = AclService::new(AclConfig { enforce_registered_topics: false, cache_refresh_secs: 2 });
    assert_eq!(s.refresh_interval_secs(), 5);
    let t = AclService::new(AclConfig { enforce_registered_topics: false, cache_refresh_secs: 30 });
    assert_eq!(t.refresh_interval_secs(), 30);
}

#[test]
fn from_settings_takes_the_acl_section() {
    let s = AclService::from_settings(&AclSettings {
        enabled: true,
        enforce_registered_topics: false,
        cache_refresh_secs: 1,
    });
    assert_eq!(s.refresh_interval_secs(), 5);
}

#[test]
fn cached_password_check_uses_enabled_accounts_only() {
    let hash = hash_mqtt_password("s3cret").expect("hash");
    assert_eq!(hash.len(), 60);
    assert!(hash.starts_with("$2b$10$"));
    let mut s = service(false);
    s.reload(
        vec![user("dev1", &hash, true), user("dev2", &hash, false)],
        vec![],
        vec![],
    );
    assert_eq!(s.cached_password_check("dev1", "s3cret"), Some(true));
    assert_eq!(s.cached_password_check("dev1", "wrong"), Some(false));
    assert_eq!(s.cached_password_check("dev2", "s3cret"), None);
    assert_eq!(s.cached_password_check("dev3", "s3cret"), None);
}

#[test]
fn database_account_password_check() {
    let hash = hash_mqtt_password("pw").expect("hash");
    let enabled = user("a", &hash, true);
    let disabled = user("a", &hash, false);
    assert!(verify_user_password(Some(&enabled), "pw"));
    assert!(!verify_user_password(Some(&enabled), "nope"));
    assert!(!verify_user_password(Some(&disabled), "pw"));
    assert!(!verify_user_password(None, "pw"));
}

#[test]
fn malformed_hash_never_verifies() {
    assert!(!verify_password("pw", "not-a-hash"));
}

#[test]
fn new_password_hash_keeps_empty_passwords() {
    assert_eq!(new_password_hash(None), Ok(None));
    assert_eq!(new_password_hash(Some("")), Ok(None));
    match new_password_hash(Some("abc")) {
        Ok(Some(h)) => assert!(verify_password("abc", &h) && h.starts_with("$2b$10$")),
        _ => panic!("expected a hash"),
    }
}

#[test]
fn admin_hashes_use_cost_twelve() {
    let h = hash_admin_password("admin123").expect("hash");
    assert!(h.starts_with("$2b$12$"));
    assert!(verify_password("admin123", &h));
}

#[test]
fn subscribe_checks_take_any_first_character() {
    let mut s = service(false);
    s.reload(vec![], vec![], vec![rule("dev1", "#", true, true)]);
    assert!(s.check_acl("dev1", "é/x", AclOperation::Subscribe));
}

#[test]
fn publish_to_a_non_ascii_topic_is_refused() {
    let mut s = service(false);
    s.reload(vec![], vec![], vec![rule("dev3", "#", true, true)]);
    assert!(!s.check_acl("dev3", "é/x", AclOperation::Publish));
    assert!(s.check_acl("dev3", "x/é", AclOperation::Publish));
    assert!(!s.check_acl("nobody", "é/x", AclOperation::Publish));
    assert!(!s.check_acl("", "é/x", AclOperation::Publish));
}
