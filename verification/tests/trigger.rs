use fastlog_core::{trigger_flush, UtcStamp};

#[test]
fn test_trigger_name() {
    let now = UtcStamp { year: 2024, month: 5, day: 17, hour: 9, minute: 30, second: 5 };
    let name = trigger_flush("malware test", &now);
    assert!(name.contains("malware_test"));
    assert!(name.ends_with(".ttfr"));
}

#[test]
fn test_trigger_name_exact() {
    let now = UtcStamp { year: 2024, month: 1, day: 2, hour: 3, minute: 4, second: 5 };
    let name = trigger_flush("a b", &now);
    assert_eq!(name, "flush_a_b_2024-01-02_03-04-05.ttfr");
}

#[test]
fn test_trigger_name_no_spaces() {
    let now = UtcStamp { year: 999, month: 12, day: 31, hour: 23, minute: 59, second: 59 };
    let name = trigger_flush("panic", &now);
    assert_eq!(name, "flush_panic_0999-12-31_23-59-59.ttfr");
}
