//! The application log.

use gut_loader::log_buffer::{
    clear_logs, get_all_logs, level_name, log_line, push_entry, visit_field, BufferLayer, LogBuffer,
    LogEntry, LogLevel, MAX_LOG_ENTRIES,
};

fn entry(i: usize) -> LogEntry {
    LogEntry {
        timestamp: format!("t{}", i),
        level: "INFO".to_string(),
        target: "app".to_string(),
        message: format!("m{}", i),
    }
}

#[test]
fn ring_keeps_latest_entries() {
    let mut b = LogBuffer::new();
    for i in 0..MAX_LOG_ENTRIES + 5 {
        push_entry(&mut b, entry(i));
    }
    let all = get_all_logs(&b);
    assert_eq!(all.len(), MAX_LOG_ENTRIES);
    assert_eq!(all[0].message, "m5");
    assert_eq!(all[MAX_LOG_ENTRIES - 1].message, format!("m{}", MAX_LOG_ENTRIES + 4));
    let again = get_all_logs(&b);
    assert_eq!(again.len(), all.len());
    assert_eq!(again[0].message, all[0].message);
    clear_logs(&mut b);
    assert!(get_all_logs(&b).is_empty());
    for i in 0..3 {
        push_entry(&mut b, entry(100 + i));
    }
    let msgs: Vec<String> = get_all_logs(&b).into_iter().map(|e| e.message).collect();
    assert_eq!(msgs, vec!["m100", "m101", "m102"]);
}

#[test]
fn captured_levels() {
    let l = BufferLayer;
    assert!(l.captures(LogLevel::Info, "gut_loader_app::loader"));
    assert!(l.captures(LogLevel::Warn, "x"));
    assert!(l.captures(LogLevel::Error, "x"));
    assert!(!l.captures(LogLevel::Debug, "x"));
    assert!(!l.captures(LogLevel::Trace, "gut_loader_lib"));
    assert!(l.captures(LogLevel::Debug, "gut_loader_lib::database::mysql"));
    assert_eq!(level_name(LogLevel::Warn), "WARN");
}

#[test]
fn messages_and_lines() {
    assert_eq!(visit_field("", "message", "hello"), "hello");
    assert_eq!(visit_field("", "rows", "5"), "rows=5");
    assert_eq!(visit_field("hello", "rows", "5"), "hello rows=5");
    assert_eq!(log_line(&entry(1)), "[t1] [INFO] app: m1");
}
