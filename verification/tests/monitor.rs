use himqtt::monitor::{
    handle_link_event, meter_poll_due, LinkEvent, LinkStep,
    cut_payload_text, decimal_chars, default_limit, default_max_messages, payload_to_string, MonitorState, MonitorStats,
};

#[test]
fn defaults_are_five_hundred() {
    assert_eq!(default_max_messages(), 500);
    assert_eq!(default_limit(), 500);
}

#[test]
fn push_assigns_consecutive_ids_and_keeps_at_most_max() {
    let mut m = MonitorState::new(2);
    let a = m.push_message("t/a".to_string(), b"one", 0, false, 1_000);
    let b = m.push_message("t/b".to_string(), b"two", 1, true, 2_000);
    let c = m.push_message("t/a".to_string(), b"three", 0, false, 3_000);
    assert_eq!((a.id, b.id, c.id), (1, 2, 3));
    assert_eq!(c.payload, "three");
    assert_eq!(c.payload_bytes, 5);
    assert!(b.retain && b.qos == 1);
    let listed = m.list_messages(false, 10, 3_000);
    let ids: Vec<u64> = listed.iter().map(|r| r.id).collect();
    assert_eq!(ids, vec![3, 2]);
}

#[test]
fn zero_max_still_keeps_the_last_message() {
    let mut m = MonitorState::new(0);
    m.push_message("t".to_string(), b"x", 0, false, 10);
    m.push_message("t".to_string(), b"y", 0, false, 20);
    let listed = m.list_messages(false, 5, 20);
    assert_eq!(listed.len(), 1);
    assert_eq!(listed[0].payload, "y");
}

#[test]
fn listing_limits_filters_and_sorts() {
    let mut m = MonitorState::new(10);
    m.push_message("t".to_string(), b"old", 0, false, 1_000);
    m.push_message("t".to_string(), b"new", 0, false, 100_000);
    m.push_message("t".to_string(), b"mid", 0, false, 50_000);
    let recent = m.list_messages(true, 10, 120_000);
    let texts: Vec<&str> = recent.iter().map(|r| r.payload.as_str()).collect();
    assert_eq!(texts, vec!["new"]);
    let all = m.list_messages(false, 10, 120_000);
    let texts: Vec<&str> = all.iter().map(|r| r.payload.as_str()).collect();
    assert_eq!(texts, vec!["new", "mid", "old"]);
    let two = m.list_messages(false, 2, 120_000);
    let texts: Vec<&str> = two.iter().map(|r| r.payload.as_str()).collect();
    assert_eq!(texts, vec!["new", "mid"]);
    let one = m.list_messages(false, 0, 120_000);
    assert_eq!(one.len(), 1);
    assert_eq!(one[0].payload, "mid");
}

#[test]
fn stats_rank_topics_and_count_the_last_minute() {
    let mut m = MonitorState::new(100);
    for (i, t) in ["a", "b", "b", "c", "c", "c", "d"].iter().enumerate() {
        m.push_message(t.to_string(), b"", 0, false, 1_000 * (i as u128 + 1));
    }
    m.push_message("e".to_string(), b"", 0, false, 100_000);
    let stats = m.refresh_stats(100_500, &vec![2, 3, 0]);
    assert_eq!(stats.total_connections, 3);
    assert_eq!(stats.total_subscriptions, 5);
    assert_eq!(stats.total_messages, 8);
    assert_eq!(stats.messages_last_minute, 1);
    assert_eq!(stats.updated_at, 100_500);
    let ranked: Vec<(&str, usize)> = stats.top_topics.iter().map(|t| (t.topic.as_str(), t.count)).collect();
    assert_eq!(ranked, vec![("c", 3), ("b", 2), ("a", 1), ("d", 1), ("e", 1)]);
    let stored = m.stats();
    assert_eq!(stored.total_messages, 8);
    assert_eq!(stored.top_topics.len(), 5);
}

#[test]
fn stats_keep_eight_topics() {
    let mut m = MonitorState::new(100);
    for i in 0..10u128 {
        m.push_message(format!("t{i}"), b"", 0, false, i);
    }
    let stats = m.refresh_stats(10, &vec![]);
    assert_eq!(stats.top_topics.len(), 8);
    assert_eq!(stats.top_topics[0].topic, "t0");
}

#[test]
fn default_stats_are_zero() {
    let s = MonitorStats::default();
    assert_eq!(s.total_messages, 0);
    assert!(s.top_topics.is_empty());
}

#[test]
fn payload_text_is_lossy_and_cut_after_4096_bytes() {
    assert_eq!(payload_to_string(b"hello"), "hello");
    assert_eq!(payload_to_string(&[0x66, 0xff, 0x6f]), "f\u{fffd}o");
    let big = vec![b'a'; 5000];
    let text = payload_to_string(&big);
    assert_eq!(text, format!("{}… [5000 bytes]", "a".repeat(4096)));
    let exact = vec![b'b'; 4096];
    assert_eq!(payload_to_string(&exact), "b".repeat(4096));
}

#[test]
fn decimal_writing() {
    let s: String = decimal_chars(0).into_iter().collect();
    assert_eq!(s, "0");
    let s: String = decimal_chars(4097).into_iter().collect();
    assert_eq!(s, "4097");
}

#[test]
fn cut_payload_text_appends_the_size() {
    assert_eq!(cut_payload_text("abc", 12345), "abc… [12345 bytes]");
    assert_eq!(cut_payload_text("", 0), "… [0 bytes]");
}

#[test]
fn collector_decisions() {
    assert!(!meter_poll_due(999));
    assert!(meter_poll_due(1000));
    match handle_link_event(LinkEvent::Forward { topic: "t".to_string(), payload: vec![1, 2], retain: true }) {
        LinkStep::Record { topic, payload, qos, retain } => {
            assert_eq!((topic.as_str(), payload, qos, retain), ("t", vec![1, 2], 0, true));
        }
        _ => panic!("expected a record"),
    }
    assert!(matches!(handle_link_event(LinkEvent::TimedOut), LinkStep::Continue));
    assert!(matches!(handle_link_event(LinkEvent::NoNotification), LinkStep::Continue));
    assert!(matches!(handle_link_event(LinkEvent::OtherNotification), LinkStep::Continue));
    assert!(matches!(handle_link_event(LinkEvent::Failed), LinkStep::Stop));
}
