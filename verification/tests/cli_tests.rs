use capslock_indicator::cli::{daemon_target, light_to_set, parse_command, parse_target, status_text, Command};
use capslock_indicator::led::Target;

fn args(words: &[&str]) -> Vec<String> {
    words.iter().map(|w| w.to_string()).collect()
}

#[test]
fn parse_target_defaults_to_capslock() {
    let mut a = args(&["on"]);
    assert_eq!(parse_target(&mut a), Ok(Target::CapsLock));
    assert_eq!(a, args(&["on"]));
}

#[test]
fn parse_target_empty_arguments() {
    let mut a: Vec<String> = Vec::new();
    assert_eq!(parse_target(&mut a), Ok(Target::CapsLock));
    assert!(a.is_empty());
}

#[test]
fn parse_target_backlight_shorthand() {
    let mut a = args(&["--backlight", "install-hooks"]);
    assert_eq!(parse_target(&mut a), Ok(Target::Backlight));
    assert_eq!(a, args(&["install-hooks"]));
}

#[test]
fn parse_target_long_option_anywhere() {
    let mut a = args(&["blink", "0.2", "--target", "backlight"]);
    assert_eq!(parse_target(&mut a), Ok(Target::Backlight));
    assert_eq!(a, args(&["blink", "0.2"]));
}

#[test]
fn parse_target_short_option() {
    let mut a = args(&["-t", "capslock", "off"]);
    assert_eq!(parse_target(&mut a), Ok(Target::CapsLock));
    assert_eq!(a, args(&["off"]));
}

#[test]
fn parse_target_last_option_wins() {
    let mut a = args(&["--backlight", "on", "--target", "capslock"]);
    assert_eq!(parse_target(&mut a), Ok(Target::CapsLock));
    assert_eq!(a, args(&["on"]));
    let mut b = args(&["-t", "capslock", "--backlight", "status"]);
    assert_eq!(parse_target(&mut b), Ok(Target::Backlight));
    assert_eq!(b, args(&["status"]));
}

#[test]
fn parse_target_missing_value() {
    let mut a = args(&["on", "--target"]);
    assert_eq!(
        parse_target(&mut a),
        Err("--target requires a value: capslock|backlight".to_string())
    );
    assert_eq!(a, args(&["on", "--target"]));
}

#[test]
fn parse_target_unknown_value() {
    let mut a = args(&["--backlight", "-t", "numlock", "on"]);
    assert_eq!(parse_target(&mut a), Err("Unknown target: numlock".to_string()));
    assert_eq!(a, args(&["-t", "numlock", "on"]));
}

#[test]
fn parse_target_option_value_is_taken_literally() {
    let mut a = args(&["--target", "--backlight"]);
    assert_eq!(parse_target(&mut a), Err("Unknown target: --backlight".to_string()));
}

#[test]
fn parse_command_words() {
    assert_eq!(parse_command(&args(&[])), Command::Help);
    assert_eq!(parse_command(&args(&["help"])), Command::Help);
    assert_eq!(parse_command(&args(&["-h"])), Command::Help);
    assert_eq!(parse_command(&args(&["--help"])), Command::Help);
    assert_eq!(parse_command(&args(&["_daemon", "0.4"])), Command::Daemon);
    assert_eq!(parse_command(&args(&["blink"])), Command::Blink);
    assert_eq!(parse_command(&args(&["install-hooks"])), Command::InstallHooks);
    assert_eq!(parse_command(&args(&["uninstall-hooks"])), Command::UninstallHooks);
    assert_eq!(parse_command(&args(&["on"])), Command::On);
    assert_eq!(parse_command(&args(&["off"])), Command::Off);
    assert_eq!(parse_command(&args(&["toggle"])), Command::Toggle);
    assert_eq!(parse_command(&args(&["status"])), Command::Status);
    assert_eq!(parse_command(&args(&["Status"])), Command::Unknown);
    assert_eq!(parse_command(&args(&["flash"])), Command::Unknown);
}

#[test]
fn light_commands_set_the_light() {
    assert_eq!(light_to_set(Command::On, Some(false)), Some(true));
    assert_eq!(light_to_set(Command::Off, Some(true)), Some(false));
    assert_eq!(light_to_set(Command::Toggle, Some(true)), Some(false));
    assert_eq!(light_to_set(Command::Toggle, Some(false)), Some(true));
    assert_eq!(light_to_set(Command::Toggle, None), Some(true));
    assert_eq!(light_to_set(Command::Status, Some(true)), None);
    assert_eq!(light_to_set(Command::Blink, None), None);
}

#[test]
fn toggle_twice_restores_the_light() {
    for start in [true, false] {
        let once = light_to_set(Command::Toggle, Some(start));
        assert_eq!(light_to_set(Command::Toggle, once), Some(start));
    }
}

#[test]
fn status_words() {
    assert_eq!(status_text(Some(true)), "on");
    assert_eq!(status_text(Some(false)), "off");
    assert_eq!(status_text(None), "unknown");
}

#[test]
fn daemon_target_falls_back_to_capslock() {
    assert_eq!(daemon_target(Some("backlight")), Target::Backlight);
    assert_eq!(daemon_target(Some("capslock")), Target::CapsLock);
    assert_eq!(daemon_target(Some("bogus")), Target::CapsLock);
    assert_eq!(daemon_target(None), Target::CapsLock);
}
