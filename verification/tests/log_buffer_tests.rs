use backend_supervisor::log_buffer::{channel_for, Channel, LogBuffer, LOG_CAPACITY};

#[test]
fn new_buffer_is_empty() {
    let buffer = LogBuffer::new();
    assert_eq!(buffer.len(), 0);
    assert!(buffer.snapshot().is_empty());
}

#[test]
fn record_appends_in_order() {
    let mut buffer = LogBuffer::new();
    buffer.record("first".to_string(), false);
    buffer.record("second".to_string(), true);
    let entries = buffer.snapshot();
    assert_eq!(entries.len(), 2);
    assert_eq!(entries[0].text, "first");
    assert!(!entries[0].is_error);
    assert_eq!(entries[1].text, "second");
    assert!(entries[1].is_error);
}

#[test]
fn record_returns_the_event_to_publish() {
    let mut buffer = LogBuffer::new();
    let info = buffer.record("hello".to_string(), false);
    assert_eq!(info.channel, Channel::Info);
    assert_eq!(info.channel.name(), "python-log");
    assert_eq!(info.payload, "hello");
    let error = buffer.record("oops".to_string(), true);
    assert_eq!(error.channel, Channel::Error);
    assert_eq!(error.channel.name(), "python-error");
    assert_eq!(error.payload, "oops");
}

#[test]
fn channel_follows_the_tag() {
    assert_eq!(channel_for(false), Channel::Info);
    assert_eq!(channel_for(true), Channel::Error);
}

#[test]
fn capacity_is_one_thousand() {
    assert_eq!(LOG_CAPACITY, 1000);
}

#[test]
fn full_buffer_keeps_all_entries() {
    let mut buffer = LogBuffer::new();
    for i in 0..1000 {
        buffer.record(format!("line {}", i), false);
    }
    let entries = buffer.snapshot();
    assert_eq!(entries.len(), 1000);
    assert_eq!(entries[0].text, "line 0");
    assert_eq!(entries[999].text, "line 999");
}

#[test]
fn overflow_evicts_the_oldest_entry() {
    let mut buffer = LogBuffer::new();
    for i in 0..1001 {
        buffer.record(format!("line {}", i), i % 2 == 1);
    }
    let entries = buffer.snapshot();
    assert_eq!(buffer.len(), 1000);
    assert_eq!(entries.len(), 1000);
    assert_eq!(entries[0].text, "line 1");
    assert!(entries[0].is_error);
    assert_eq!(entries[999].text, "line 1000");
}

#[test]
fn buffer_holds_the_most_recent_thousand_in_order() {
    let mut buffer = LogBuffer::new();
    for i in 0..2500 {
        buffer.record(format!("{}", i), false);
    }
    let entries = buffer.snapshot();
    assert_eq!(entries.len(), 1000);
    for (k, entry) in entries.iter().enumerate() {
        assert_eq!(entry.text, format!("{}", 1500 + k));
    }
}

#[test]
fn snapshot_is_a_copy() {
    let mut buffer = LogBuffer::new();
    buffer.record("a".to_string(), false);
    let before = buffer.snapshot();
    buffer.record("b".to_string(), false);
    assert_eq!(before.len(), 1);
    assert_eq!(buffer.snapshot().len(), 2);
}
