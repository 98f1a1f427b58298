//! Tests for the console log store and the verified text helpers.

use workbench_core::console::{ConsoleState, LogEntry, LogLevel};
use workbench_core::text::{contains_sub, str_eq, str_lt, usize_to_decimal};

#[test]
fn push_counts_per_level() {
    let mut c = ConsoleState::new();
    c.push(LogLevel::Info, "app", String::from("hello"));
    c.push(LogLevel::Warn, "app", String::from("careful"));
    c.push(LogLevel::Error, "net", String::from("boom"));
    c.push(LogLevel::Error, "net", String::from("boom again"));
    c.push(LogLevel::Trace, "noise", String::from("tick"));
    assert_eq!(c.logs.len(), 5);
    assert_eq!(c.info_count, 1);
    assert_eq!(c.warn_count, 1);
    assert_eq!(c.error_count, 2);

    c.clear();
    assert_eq!(c.logs.len(), 0);
    assert_eq!(c.info_count, 0);
    assert_eq!(c.warn_count, 0);
    assert_eq!(c.error_count, 0);
}

#[test]
fn level_filters() {
    let mut c = ConsoleState::new();
    c.show_warn = false;
    let info = LogEntry { level: LogLevel::Info, message: String::from("i"), target: String::from("t") };
    let warn = LogEntry { level: LogLevel::Warn, message: String::from("w"), target: String::from("t") };
    let trace = LogEntry { level: LogLevel::Trace, message: String::from("x"), target: String::from("t") };
    assert!(c.entry_visible(&info));
    assert!(!c.entry_visible(&warn));
    // Trace and debug entries never show in the console list.
    assert!(!c.entry_visible(&trace));
}

#[test]
fn text_filter_is_case_insensitive() {
    let mut c = ConsoleState::new();
    c.filter_text = String::from("ERROR");
    let hit = LogEntry {
        level: LogLevel::Info,
        message: String::from("an error occurred"),
        target: String::from("app"),
    };
    let miss = LogEntry {
        level: LogLevel::Info,
        message: String::from("all fine"),
        target: String::from("app"),
    };
    // The lowercased filter matches the lowercased message; if lowercasing
    // handed its input back unchanged, "ERROR" would match neither.
    assert!(c.entry_visible(&hit));
    assert!(!c.entry_visible(&miss));

    // The target is searched too.
    c.filter_text = String::from("NET");
    let by_target = LogEntry {
        level: LogLevel::Info,
        message: String::from("payload"),
        target: String::from("network"),
    };
    assert!(c.entry_visible(&by_target));
}

#[test]
fn level_labels() {
    assert_eq!(LogLevel::Info.label(), "INFO");
    assert_eq!(LogLevel::Error.label(), "ERROR");
    assert_eq!(LogLevel::Trace.label(), "TRACE");
}

#[test]
fn string_helpers() {
    assert!(str_eq("abc", "abc"));
    assert!(!str_eq("abc", "abd"));
    assert!(!str_eq("abc", "ab"));
    assert!(str_eq("", ""));

    assert!(contains_sub("workbench_console", "console"));
    assert!(contains_sub("anything", ""));
    assert!(!contains_sub("short", "much longer"));
    assert!(!contains_sub("inspect", "inspector"));

    assert!(str_lt("Alpha", "Beta"));
    assert!(!str_lt("Beta", "Alpha"));
    assert!(!str_lt("same", "same"));
    assert!(str_lt("ab", "abc"));
    assert!(str_lt("Zebra", "apple")); // byte order: upper case sorts first
}

#[test]
fn decimal_rendering() {
    assert_eq!(usize_to_decimal(0), "0");
    assert_eq!(usize_to_decimal(7), "7");
    assert_eq!(usize_to_decimal(10), "10");
    assert_eq!(usize_to_decimal(907), "907");
    assert_eq!(usize_to_decimal(120034), "120034");
}
