use core::cmp::Ordering;

use packable::sorted::{is_sorted, is_sorted_by, is_unique_sorted, is_unique_sorted_by};
use packable::timestamp::{
    format_unix_timestamp, try_format_unix_timestamp, MAX_TIMESTAMP, MIN_TIMESTAMP,
    TIMESTAMP_FORMAT,
};
use packable::trace::{console_filter, flamegraph_filter, log_filter, LocationVisitor};

#[test]
fn sorted_slices() {
    assert!(is_sorted::<u8>(&[]));
    assert!(is_sorted(&[1]));
    assert!(is_sorted(&[1, 2, 2, 3]));
    assert!(!is_sorted(&[1, 3, 2]));
    assert!(is_unique_sorted::<u8>(&[]));
    assert!(is_unique_sorted(&[1, 2, 3]));
    assert!(!is_unique_sorted(&[1, 2, 2, 3]));
    assert!(!is_unique_sorted(&[2, 1]));
}

#[test]
fn sorted_slices_by() {
    let descending = |a: &u8, b: &u8| b.cmp(a);
    assert!(is_sorted_by(&[3, 2, 2, 1], descending));
    assert!(!is_sorted_by(&[1, 2], descending));
    assert!(is_unique_sorted_by(&[3, 2, 1], descending));
    assert!(!is_unique_sorted_by(&[3, 2, 2, 1], descending));
    assert!(is_unique_sorted_by(&[1u8], |_, _| Ordering::Greater));
}

#[test]
fn timestamp_text() {
    assert_eq!(format_unix_timestamp(0), "1970-01-01 00:00:00 (UTC)");
    assert_eq!(format_unix_timestamp(1_625_140_800), "2021-07-01 12:00:00 (UTC)");
    assert_eq!(format_unix_timestamp(MAX_TIMESTAMP), "9999-12-31 23:59:59 (UTC)");
    assert_eq!(format_unix_timestamp(MIN_TIMESTAMP), "-9999-01-01 00:00:00 (UTC)");
    assert_eq!(
        try_format_unix_timestamp(86_399).as_deref(),
        Some("1970-01-01 23:59:59 (UTC)")
    );
    assert_eq!(try_format_unix_timestamp(MAX_TIMESTAMP + 1), None);
    assert_eq!(try_format_unix_timestamp(MIN_TIMESTAMP - 1), None);
    assert_eq!(try_format_unix_timestamp(i64::MAX), None);
    assert_eq!(TIMESTAMP_FORMAT, "[year]-[month]-[day] [hour]:[minute]:[second] (UTC)");
}

#[test]
fn trace_filters() {
    assert!(!flamegraph_filter(true, "runtime.spawn", "tokio::task"));
    assert!(flamegraph_filter(false, "runtime.spawn", "other"));
    assert!(flamegraph_filter(false, "span", "tokio::task"));
    assert!(flamegraph_filter(false, "span", "trace_tools::observe"));
    assert!(!flamegraph_filter(false, "span", "trace_tools::observed"));
    assert!(!flamegraph_filter(false, "my runtime", "a tokio"));
    assert!(log_filter(true));
    assert!(!log_filter(false));
    assert!(console_filter(true, "event", "runtime::resource"));
    assert!(console_filter(true, "event", "tokio::task"));
    assert!(!console_filter(true, "runtime.spawn", "other"));
    assert!(console_filter(false, "runtime.spawn", "other"));
    assert!(console_filter(false, "span", "tokio"));
    assert!(!console_filter(false, "span", "runtime"));
}

#[test]
fn location_visitor_reads_file_and_line() {
    let mut visitor = LocationVisitor::new();
    assert_eq!(visitor.file(), None);
    assert_eq!(visitor.line(), None);
    visitor.record_u64("other", 3);
    visitor.record_str("other", "x");
    assert_eq!(visitor.file(), None);
    assert_eq!(visitor.line(), None);
    visitor.record_u64("loc.line", 42);
    visitor.record_str("loc.file", "src/main.rs");
    assert_eq!(visitor.file(), Some("src/main.rs"));
    assert_eq!(visitor.line(), Some(42));
    visitor.record_u64("loc.line", 0x1_0000_0007);
    assert_eq!(visitor.line(), Some(7));
}
