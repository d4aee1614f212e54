use himqtt::auth::{bearer_token, token_from_query, AdminAuth, AdminUser};
use himqtt::password::hash_admin_password;

#[test]
fn session_lifecycle() {
    let mut auth = AdminAuth::new();
    let token = auth.create_session("admin", [7u8; 16]);
    assert_eq!(token.len(), 36);
    assert_eq!(auth.validate(&token), Some("admin".to_string()));
    auth.revoke(&token);
    assert_eq!(auth.validate(&token), None);
}

#[test]
fn revoke_leaves_other_sessions() {
    let mut auth = AdminAuth::default();
    let a = auth.create_session("a", [1u8; 16]);
    let b = auth.create_session("b", [2u8; 16]);
    assert_ne!(a, b);
    auth.revoke(&a);
    assert_eq!(auth.validate(&b), Some("b".to_string()));
}

#[test]
fn bearer_token_requires_the_prefix() {
    assert_eq!(bearer_token(Some("Bearer abc")), Some("abc".to_string()));
    assert_eq!(bearer_token(Some("Bearer ")), Some(String::new()));
    assert_eq!(bearer_token(Some("bearer abc")), None);
    assert_eq!(bearer_token(Some("Basic abc")), None);
    assert_eq!(bearer_token(None), None);
}

#[test]
fn token_from_query_takes_the_first_token_pair() {
    assert_eq!(token_from_query(Some("a=1&token=xyz&token=other")), Some("xyz".to_string()));
    assert_eq!(token_from_query(Some("token=a=b")), Some("a=b".to_string()));
    assert_eq!(token_from_query(Some("token&x=1")), None);
    assert_eq!(token_from_query(Some("tokens=1")), None);
    assert_eq!(token_from_query(Some("")), None);
    assert_eq!(token_from_query(None), None);
}

#[test]
fn authorize_accepts_header_or_query() {
    let mut auth = AdminAuth::new();
    let token = auth.create_session("admin", [7u8; 16]);
    let header = format!("Bearer {token}");
    let query = format!("token={token}");
    assert!(auth.authorize(Some(&header), None));
    assert!(auth.authorize(None, Some(&query)));
    assert!(!auth.authorize(Some("Bearer nope"), Some(&query)));
    assert!(!auth.authorize(None, None));
}

#[test]
fn login_logout_me() {
    let hash = hash_admin_password("admin123").expect("hash");
    let mut auth = AdminAuth::new();
    let account = || AdminUser { username: "admin".to_string(), password_hash: hash.clone() };
    assert!(auth.login(Some(account()), "wrong", [3u8; 16]).is_none());
    assert!(auth.login(None, "admin123", [3u8; 16]).is_none());
    let resp = auth.login(Some(account()), "admin123", [3u8; 16]).expect("login");
    assert_eq!(resp.username, "admin");
    let header = format!("Bearer {}", resp.token);
    let me = auth.me(Some(&header)).expect("me");
    assert_eq!(me.username, "admin");
    assert_eq!(me.token, resp.token);
    auth.logout(Some(&header));
    assert!(auth.me(Some(&header)).is_none());
    assert!(auth.me(None).is_none());
}

#[test]
fn session_tokens_are_uuid_v4_text() {
    let mut auth = AdminAuth::new();
    let t = auth.create_session("u", [0xffu8; 16]);
    let chars: Vec<char> = t.chars().collect();
    assert_eq!(chars.len(), 36);
    for (i, c) in chars.iter().enumerate() {
        if [8, 13, 18, 23].contains(&i) {
            assert_eq!(*c, '-');
        } else {
            assert!(c.is_ascii_digit() || ('a'..='f').contains(c));
        }
    }
    assert_eq!(chars[14], '4');
    assert!(['8', '9', 'a', 'b'].contains(&chars[19]));
}

#[test]
fn session_token_is_the_uuid_of_the_random_bytes() {
    let mut auth = AdminAuth::new();
    assert_eq!(auth.create_session("z", [0u8; 16]), "00000000-0000-4000-8000-000000000000");
    let bytes: [u8; 16] = [
        0x12, 0x34, 0x56, 0x78, 0x9a, 0xbc, 0xde, 0xf0, 0xff, 0x01, 0x23, 0x45, 0x67, 0x89, 0xab, 0xcd,
    ];
    let t = auth.create_session("y", bytes);
    assert_eq!(t, "12345678-9abc-4ef0-bf01-23456789abcd");
    assert_eq!(auth.validate(&t), Some("y".to_string()));
}
