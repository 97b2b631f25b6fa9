use capslock_indicator::daemon::{
    daemon_arguments, idle_millis_from_nanos, idle_millis_from_ticks, parse_pid, pid_file_name, pid_text, signal_pid,
    BlinkAction, Blinker,
};
use capslock_indicator::led::Target;

#[test]
fn pid_file_names() {
    assert_eq!(pid_file_name(Some("bob")), "capslock-indicator-bob.pid");
    assert_eq!(pid_file_name(None), "capslock-indicator-unknown.pid");
}

#[test]
fn pid_parsing() {
    assert_eq!(parse_pid("1234"), Some(1234));
    assert_eq!(parse_pid(" 42\n"), Some(42));
    assert_eq!(parse_pid("+7"), Some(7));
    assert_eq!(parse_pid("007"), Some(7));
    assert_eq!(parse_pid("4294967295"), Some(4294967295));
    assert_eq!(parse_pid("4294967296"), None);
    assert_eq!(parse_pid("-5"), None);
    assert_eq!(parse_pid("+"), None);
    assert_eq!(parse_pid(""), None);
    assert_eq!(parse_pid("   "), None);
    assert_eq!(parse_pid("12 34"), None);
    assert_eq!(parse_pid("12a"), None);
    assert_eq!(parse_pid("\u{3000}99\u{a0}"), Some(99));
}

#[test]
fn pid_parsing_agrees_with_std() {
    for s in ["1", " 1 ", "+0", "99999999999", "x", "\t\r\n5\n", "5-", "++5", "\u{2009}8"] {
        assert_eq!(parse_pid(s), s.trim().parse::<u32>().ok(), "{s:?}");
    }
}

#[test]
fn daemon_command_line() {
    let a = daemon_arguments("0.4", Target::Backlight);
    assert_eq!(a, vec!["_daemon".to_string(), "0.4".to_string(), "backlight".to_string()]);
}

#[test]
fn blinker_alternates_starting_on() {
    let mut b = Blinker::new(200, None);
    assert_eq!(b.half_interval_ms, 200);
    assert!(b.tick());
    assert!(!b.tick());
    assert!(b.tick());
    assert!(!b.tick());
}

#[test]
fn blinker_stops_on_user_input() {
    let mut b = Blinker::new(200, Some(5000));
    assert_eq!(b.observe_idle(Some(5400)), BlinkAction::Continue);
    assert_eq!(b.prev_idle, Some(5400));
    // A drop of exactly the margin is not enough.
    assert_eq!(b.observe_idle(Some(5150)), BlinkAction::Continue);
    assert_eq!(b.prev_idle, Some(5150));
    // A drop of more than the margin is input.
    assert_eq!(b.observe_idle(Some(10)), BlinkAction::Stop);
}

#[test]
fn blinker_without_idle_source_never_stops() {
    let mut b = Blinker::new(200, None);
    assert_eq!(b.observe_idle(None), BlinkAction::Continue);
    assert_eq!(b.prev_idle, None);
    assert_eq!(b.observe_idle(Some(0)), BlinkAction::Continue);
    assert_eq!(b.observe_idle(None), BlinkAction::Continue);
    assert_eq!(b.prev_idle, Some(0));
}

#[test]
fn idle_time_conversions() {
    assert_eq!(idle_millis_from_nanos(true, 2_500_000_000), Some(2500));
    assert_eq!(idle_millis_from_nanos(true, 999_999), Some(0));
    assert_eq!(idle_millis_from_nanos(false, 2_500_000_000), None);
    assert_eq!(idle_millis_from_nanos(true, -1), None);
    assert_eq!(idle_millis_from_ticks(1000, 400), 600);
    assert_eq!(idle_millis_from_ticks(5, u32::MAX - 4), 10);
}

#[test]
fn only_real_pids_are_signalled() {
    assert_eq!(signal_pid(0), None);
    assert_eq!(signal_pid(1234), Some(1234));
    assert_eq!(signal_pid(2147483647), Some(2147483647));
    assert_eq!(signal_pid(2147483648), None);
    assert_eq!(signal_pid(4294967295), None);
    assert_eq!(parse_pid("4294967295").and_then(signal_pid), None);
}

#[test]
fn pid_text_is_decimal() {
    assert_eq!(pid_text(0), "0");
    assert_eq!(pid_text(7), "7");
    assert_eq!(pid_text(10), "10");
    assert_eq!(pid_text(4321), "4321");
    assert_eq!(pid_text(u32::MAX), "4294967295");
}

#[test]
fn pid_text_reads_back() {
    for pid in [0u32, 1, 9, 10, 99, 100, 31337, 65536, 2147483647, u32::MAX] {
        assert_eq!(pid_text(pid), pid.to_string());
        assert_eq!(parse_pid(&pid_text(pid)), Some(pid));
    }
}
