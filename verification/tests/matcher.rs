use himqtt::matcher::{publish_allowed, registered_covers, subscribe_allowed};

#[test]
fn subscribe_prefix_wildcard() {
    assert!(subscribe_allowed("home/#", "home/room/temp"));
    assert!(!subscribe_allowed("home/#", "office/room"));
}

#[test]
fn publish_wildcard() {
    assert!(publish_allowed("home/+/temp", "home/a/temp"));
    assert!(!publish_allowed("home/+/temp", "home/a/humid"));
}

#[test]
fn subscribe_exact_pattern_allows_same_filter() {
    assert!(subscribe_allowed("home/room", "home/room"));
    assert!(!subscribe_allowed("home/room", "home/room/temp"));
}

#[test]
fn subscribe_slash_hash_covers_its_parent_level() {
    assert!(subscribe_allowed("home/#", "home"));
    assert!(subscribe_allowed("home/#", "home/#"));
    assert!(!subscribe_allowed("home/#", "homeroom"));
    assert!(!subscribe_allowed("home/#", "hom"));
}

#[test]
fn subscribe_bare_hash_is_a_prefix() {
    assert!(subscribe_allowed("home#", "homeroom"));
    assert!(subscribe_allowed("#", "anything/at/all"));
    assert!(!subscribe_allowed("home#", "hom"));
}

#[test]
fn subscribe_plus_is_not_a_wildcard_for_reads() {
    assert!(!subscribe_allowed("home/+/temp", "home/a/temp"));
}

#[test]
fn publish_hash_and_dollar_topics() {
    assert!(publish_allowed("home/#", "home/a/b"));
    assert!(publish_allowed("#", "a"));
    assert!(!publish_allowed("#", "$SYS/uptime"));
    assert!(!publish_allowed("home/a", "home/b"));
}

#[test]
fn registered_covers_equal_and_prefix() {
    assert!(registered_covers("sensor/temp", "sensor/temp"));
    assert!(!registered_covers("sensor/temp", "sensor/hum"));
    assert!(registered_covers("sensor/#", "sensor/a/b"));
    assert!(registered_covers("sensor##", "sensor/x"));
    assert!(registered_covers("sensor/#", "sensor/"));
    assert!(!registered_covers("sensor/#", "sensor"));
    assert!(!registered_covers("sensor/#", "other/a"));
}

#[test]
fn publish_levels_and_non_ascii_topics() {
    assert!(publish_allowed("#", ""));
    assert!(publish_allowed("a/+", "a/é"));
    assert!(!publish_allowed("a/+", "a/b/c"));
    assert!(!publish_allowed("a/b/c", "a/b"));
    assert!(publish_allowed("a/b/#", "a/b"));
    assert!(!publish_allowed("a/+", "a/#"));
    assert!(!publish_allowed("#", "é/x"));
    assert!(!publish_allowed("é/x", "é/x"));
}
