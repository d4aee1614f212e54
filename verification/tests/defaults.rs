use himqtt::defaults::{
    render_template, render_user_defaults, DefaultAclTemplate, DefaultTopicTemplate, UserDefaultsSettings,
};

#[test]
fn render_replaces_every_placeholder() {
    assert_eq!(render_template("devices/{username}/#", "dev1"), "devices/dev1/#");
    assert_eq!(render_template("{username}-{username}", "a"), "a-a");
    assert_eq!(render_template("no placeholder", "a"), "no placeholder");
    assert_eq!(render_template("{user}", "a"), "{user}");
    assert_eq!(render_template("{username}", "{username}"), "{username}");
    assert_eq!(render_template("", "a"), "");
}

#[test]
fn render_user_defaults_keeps_order_and_flags() {
    let defaults = UserDefaultsSettings {
        default_topics: vec![DefaultTopicTemplate {
            topic: "dev/{username}/up".to_string(),
            description: "uplink of {username}".to_string(),
        }],
        default_acls: vec![
            DefaultAclTemplate { topic_pattern: "dev/{username}/#".to_string(), can_subscribe: true, can_publish: false },
            DefaultAclTemplate { topic_pattern: "shared".to_string(), can_subscribe: false, can_publish: true },
        ],
    };
    let r = render_user_defaults(&defaults, "u7");
    assert_eq!(r.default_topics.len(), 1);
    assert_eq!(r.default_topics[0].topic, "dev/u7/up");
    assert_eq!(r.default_topics[0].description, "uplink of u7");
    assert_eq!(r.default_acls.len(), 2);
    assert_eq!(r.default_acls[0].topic_pattern, "dev/u7/#");
    assert!(r.default_acls[0].can_subscribe && !r.default_acls[0].can_publish);
    assert_eq!(r.default_acls[1].topic_pattern, "shared");
    assert!(!r.default_acls[1].can_subscribe && r.default_acls[1].can_publish);
}

#[test]
fn default_user_defaults_are_empty() {
    let d = UserDefaultsSettings::default();
    assert!(d.default_topics.is_empty());
    assert!(d.default_acls.is_empty());
}
