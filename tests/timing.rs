use appointment_reminders::ledger::NotifiedIds;
use appointment_reminders::timing::{classify, start_seconds, Decision, REMINDER_WINDOW_SECONDS};

const NOW: i64 = 1704844800; // 2024-01-10 00:00:00 UTC

#[test]
fn start_is_read_as_utc() {
    assert_eq!(start_seconds("2024-01-10 00:00:00"), Some(NOW));
    assert_eq!(start_seconds("1970-01-01 00:00:01"), Some(1));
    assert_eq!(start_seconds("2024-01-12 13:45:10"), Some(NOW + 2 * 86400 + 13 * 3600 + 45 * 60 + 10));
}

#[test]
fn malformed_start_is_none() {
    assert_eq!(start_seconds("2024-01-10T00:00:00Z"), None);
    assert_eq!(start_seconds("tomorrow"), None);
    assert_eq!(start_seconds(""), None);
}

#[test]
fn past_is_expired() {
    let n = NotifiedIds::new();
    assert_eq!(classify(1, NOW - 60, NOW, &n), Decision::Expired);
    assert_eq!(classify(1, NOW, NOW, &n), Decision::Expired);
}

#[test]
fn far_future_not_due() {
    let n = NotifiedIds::new();
    assert_eq!(classify(1, NOW + 5 * 86400, NOW, &n), Decision::NotYetDue);
    assert_eq!(classify(1, NOW + REMINDER_WINDOW_SECONDS + 1, NOW, &n), Decision::NotYetDue);
}

#[test]
fn window_edges_eligible() {
    let n = NotifiedIds::new();
    assert_eq!(classify(1, NOW + 1, NOW, &n), Decision::Eligible);
    assert_eq!(classify(1, NOW + REMINDER_WINDOW_SECONDS, NOW, &n), Decision::Eligible);
}

#[test]
fn recorded_is_already_notified_whatever_the_time() {
    let mut n = NotifiedIds::new();
    n.insert(9);
    assert_eq!(classify(9, NOW - 86400, NOW, &n), Decision::AlreadyNotified);
    assert_eq!(classify(9, NOW + 86400, NOW, &n), Decision::AlreadyNotified);
    assert_eq!(classify(9, NOW + 10 * 86400, NOW, &n), Decision::AlreadyNotified);
}

#[test]
fn classify_twice_same_decision() {
    let n = NotifiedIds::new();
    let a = classify(5, NOW + 86400, NOW, &n);
    let b = classify(5, NOW + 86400, NOW, &n);
    assert_eq!(a, b);
}

#[test]
fn extreme_times_do_not_overflow() {
    let n = NotifiedIds::new();
    assert_eq!(classify(1, i64::MAX, i64::MIN, &n), Decision::NotYetDue);
    assert_eq!(classify(1, i64::MIN, i64::MAX, &n), Decision::Expired);
}
