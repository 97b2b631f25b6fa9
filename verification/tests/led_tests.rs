use capslock_indicator::led::{
    after_led_writes, xset_led_arg, LedWriteOutcome,
    backend, brightness_file_name, caps_lock_toggled, is_capslock_led_name, led_file_state,
    led_file_text, needs_toggle, Driver, Platform, Target,
};

#[test]
fn target_names_round_trip() {
    for t in [Target::CapsLock, Target::Backlight] {
        assert_eq!(Target::parse(t.as_str()), Some(t));
    }
    assert_eq!(Target::CapsLock.as_str(), "capslock");
    assert_eq!(Target::Backlight.as_str(), "backlight");
}

#[test]
fn target_parse_rejects_other_names() {
    assert_eq!(Target::parse("CapsLock"), None);
    assert_eq!(Target::parse(""), None);
    assert_eq!(Target::parse("capslock "), None);
}

#[test]
fn backend_choice() {
    assert_eq!(backend(Target::CapsLock, Platform::Other), Ok(Driver::CapsLockLed));
    assert_eq!(backend(Target::CapsLock, Platform::MacOs), Ok(Driver::CapsLockLed));
    assert_eq!(backend(Target::Backlight, Platform::MacOs), Ok(Driver::KeyboardBacklight));
    assert_eq!(
        backend(Target::Backlight, Platform::Other),
        Err("The backlight target is only supported on macOS".to_string())
    );
}

#[test]
fn capslock_led_names() {
    assert!(is_capslock_led_name("input3::capslock"));
    assert!(is_capslock_led_name("capslock"));
    assert!(!is_capslock_led_name("input3::numlock"));
    assert!(!is_capslock_led_name("caps"));
}

#[test]
fn led_file_states() {
    assert!(!led_file_state("0\n"));
    assert!(!led_file_state("  0 "));
    assert!(led_file_state("1\n"));
    assert!(led_file_state("255"));
    assert!(led_file_state("00"));
    assert!(led_file_state(""));
    assert_eq!(led_file_text(true), "1");
    assert_eq!(led_file_text(false), "0");
}

#[test]
fn caps_lock_key_state_bit() {
    assert!(caps_lock_toggled(1));
    assert!(!caps_lock_toggled(0));
    assert!(caps_lock_toggled(-127));
    assert!(!caps_lock_toggled(-128));
}

#[test]
fn toggle_needed_only_when_state_differs() {
    assert!(!needs_toggle(Some(true), true));
    assert!(needs_toggle(Some(false), true));
    assert!(needs_toggle(None, false));
}

#[test]
fn brightness_file_names() {
    assert_eq!(brightness_file_name(Some("ann")), "capslock-indicator-backlight-ann.sav");
    assert_eq!(brightness_file_name(None), "capslock-indicator-backlight-unknown.sav");
}

#[test]
fn led_readings_agree_with_std() {
    for s in ["0", " 0\n", "1", "", "0 0", "\u{2003}0\u{85}", "O"] {
        assert_eq!(led_file_state(s), s.trim() != "0", "{s:?}");
    }
    for name in ["input1::capslock", "caps lock", "CAPSLOCK", "xcapslockx", ""] {
        assert_eq!(is_capslock_led_name(name), name.contains("capslock"), "{name:?}");
    }
}

#[test]
fn linux_write_fallback() {
    assert_eq!(after_led_writes(true, false), LedWriteOutcome::Written);
    assert_eq!(after_led_writes(true, true), LedWriteOutcome::Written);
    assert_eq!(after_led_writes(false, true), LedWriteOutcome::TryXset);
    assert_eq!(after_led_writes(false, false), LedWriteOutcome::Failed);
    assert_eq!(xset_led_arg(true), "led");
    assert_eq!(xset_led_arg(false), "-led");
}

#[test]
fn led_file_reads_back_what_was_written() {
    for state in [true, false] {
        assert_eq!(led_file_state(led_file_text(state)), state);
    }
}
