use ir_bench::messages::{
    clock_text, countdown_display, decode_ui_message, log_entry, prepend_log_entries, progress_message, status_message, timeout_message,
    timeout_stopped_message, PercentReading, PercentUpdate, UiMessage,
};

#[test]
fn progress_message_round_trip() {
    let text = progress_message(2, 5);
    assert_eq!(text, "PROGRESS:2/5");
    match decode_ui_message(&text) {
        UiMessage::Progress { current, total } => {
            assert_eq!(current, 2);
            assert_eq!(total, 5);
        }
        _ => panic!("expected a progress message"),
    }
}

#[test]
fn negative_progress_round_trip() {
    let text = progress_message(-1, 0);
    assert_eq!(text, "PROGRESS:-1/0");
    assert!(matches!(decode_ui_message(&text), UiMessage::Progress { current: -1, total: 0 }));
}

#[test]
fn status_message_round_trip() {
    let text = status_message("Ready");
    assert_eq!(text, "STATUS:Ready");
    match decode_ui_message(&text) {
        UiMessage::Status { text } => assert_eq!(text, "Ready"),
        _ => panic!("expected a status message"),
    }
}

#[test]
fn timeout_message_round_trip() {
    let text = timeout_message(2, 5, "0.50");
    assert_eq!(text, "TIMEOUT_REMAINING:2:05:0.50");
    match decode_ui_message(&text) {
        UiMessage::Timeout { minutes, seconds, percentage } => {
            assert_eq!(minutes, Some(2));
            assert_eq!(seconds, Some(5));
            assert_eq!(percentage, "0.50");
        }
        _ => panic!("expected a timeout message"),
    }
}

#[test]
fn stopped_timer_message() {
    let text = timeout_stopped_message();
    assert_eq!(text, "TIMEOUT_REMAINING:-:-:0.0");
    match decode_ui_message(&text) {
        UiMessage::Timeout { minutes, seconds, percentage } => {
            assert_eq!(minutes, None);
            assert_eq!(seconds, None);
            assert_eq!(percentage, "0.0");
        }
        _ => panic!("expected a timeout message"),
    }
}

#[test]
fn malformed_progress_is_dropped() {
    assert!(matches!(decode_ui_message("PROGRESS:a/3"), UiMessage::Ignored));
    assert!(matches!(decode_ui_message("PROGRESS:1/2/3"), UiMessage::Progress { current: 1, total: 2 }));
}

#[test]
fn other_messages_are_logged() {
    match decode_ui_message("Benchmark started") {
        UiMessage::Log { text } => assert_eq!(text, "Benchmark started"),
        _ => panic!("expected a log line"),
    }
    match decode_ui_message("PROGRESS:12") {
        UiMessage::Log { text } => assert_eq!(text, "PROGRESS:12"),
        _ => panic!("expected a log line"),
    }
    match decode_ui_message("TIMEOUT_REMAINING:1:2") {
        UiMessage::Log { text } => assert_eq!(text, "TIMEOUT_REMAINING:1:2"),
        _ => panic!("expected a log line"),
    }
}

#[test]
fn countdown_text() {
    let (t, u) = countdown_display(Some(2), Some(5), PercentReading::InRange);
    assert_eq!(t, "2:05");
    assert!(matches!(u, PercentUpdate::SetReported));
    let (t, u) = countdown_display(Some(-1), Some(5), PercentReading::InRange);
    assert_eq!(t, "-");
    assert!(matches!(u, PercentUpdate::Keep));
    let (t, u) = countdown_display(None, None, PercentReading::InRange);
    assert_eq!(t, "-");
    assert!(matches!(u, PercentUpdate::SetReported));
    let (t, u) = countdown_display(None, None, PercentReading::Invalid);
    assert_eq!(t, "-");
    assert!(matches!(u, PercentUpdate::SetZero));
    let (t, u) = countdown_display(Some(1), Some(1), PercentReading::OutOfRange);
    assert_eq!(t, "-");
    assert!(matches!(u, PercentUpdate::Keep));
}

#[test]
fn log_entry_has_time_and_blank_line() {
    assert_eq!(clock_text(7, 5, 0), "07:05:00");
    assert_eq!(clock_text(23, 59, 60), "23:59:60");
    assert_eq!(log_entry("07:05:00", "Benchmark started"), "[ 07:05:00 ]  Benchmark started\n\n");
}

#[test]
fn log_batches_go_on_top_newest_first() {
    let first = prepend_log_entries("old\n", &vec!["a".to_string(), "b".to_string()]);
    assert_eq!(first, "baold\n");
    let second = prepend_log_entries(&first, &vec!["c".to_string()]);
    let together = prepend_log_entries("old\n", &vec!["a".to_string(), "b".to_string(), "c".to_string()]);
    assert_eq!(second, "cbaold\n");
    assert_eq!(second, together);
    assert_eq!(prepend_log_entries("x", &Vec::new()), "x");
}
