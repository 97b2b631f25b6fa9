use capslock_indicator::hooks::{file_name_of, hook_command_base, install, is_our_command_text, is_ours, strip_ours, uninstall};
use capslock_indicator::json_text::{settings_from_parse, settings_from_text, settings_text, with_final_newline};
use capslock_indicator::json::{drop_shadowed, Json};
use capslock_indicator::led::Target;

const EXE: &str = "/usr/local/bin/capslock-indicator";

fn s(x: &str) -> Json {
    Json::Str(x.to_string())
}

fn members(list: Vec<(&str, Json)>) -> Vec<(String, Json)> {
    list.into_iter().map(|(k, v)| (k.to_string(), v)).collect()
}

fn obj(list: Vec<(&str, Json)>) -> Json {
    Json::Object(members(list))
}

fn get<'a>(m: &'a [(String, Json)], k: &str) -> Option<&'a Json> {
    m.iter().find(|(key, _)| key == k).map(|(_, v)| v)
}

fn as_members(j: &Json) -> &[(String, Json)] {
    match j {
        Json::Object(m) => m,
        other => panic!("not an object: {other:?}"),
    }
}

fn as_list(j: &Json) -> &[Json] {
    match j {
        Json::Array(a) => a,
        other => panic!("not an array: {other:?}"),
    }
}

fn entry(command: &str) -> Json {
    obj(vec![("hooks", Json::Array(vec![obj(vec![("type", s("command")), ("command", s(command))])]))])
}

fn command_of(e: &Json) -> String {
    let hs = as_list(get(as_members(e), "hooks").unwrap());
    match get(as_members(&hs[0]), "command").unwrap() {
        Json::Str(c) => c.clone(),
        other => panic!("not a string: {other:?}"),
    }
}

fn user_entry(command: &str) -> Json {
    obj(vec![("hooks", Json::Array(vec![obj(vec![("type", s("command")), ("command", s(command))])]))])
}

#[test]
fn install_into_empty_settings() {
    let out = install(Vec::new(), EXE, Target::CapsLock).unwrap();
    let hooks = as_members(get(&out, "hooks").unwrap());
    assert_eq!(hooks.len(), 4);
    for (event, action) in [
        ("UserPromptSubmit", "on"),
        ("Stop", "off"),
        ("Notification", "blink"),
        ("SessionEnd", "off"),
    ] {
        let list = as_list(get(hooks, event).unwrap());
        assert_eq!(list.len(), 1);
        assert_eq!(list[0], entry(&format!("{EXE} {action}")));
    }
}

#[test]
fn install_with_backlight_target() {
    let out = install(Vec::new(), EXE, Target::Backlight).unwrap();
    let hooks = as_members(get(&out, "hooks").unwrap());
    let list = as_list(get(hooks, "Notification").unwrap());
    assert_eq!(command_of(&list[0]), format!("{EXE} --target backlight blink"));
}

#[test]
fn command_base_per_target() {
    assert_eq!(hook_command_base(EXE, Target::CapsLock), EXE);
    assert_eq!(hook_command_base(EXE, Target::Backlight), format!("{EXE} --target backlight"));
}

#[test]
fn install_keeps_other_settings_and_hooks() {
    let settings = members(vec![
        ("model", s("opus")),
        ("hooks", obj(vec![
            ("Stop", Json::Array(vec![user_entry("say done")])),
            ("PreToolUse", Json::Array(vec![user_entry("lint")])),
        ])),
        ("verbose", Json::Bool(true)),
    ]);
    let out = install(settings, EXE, Target::CapsLock).unwrap();
    assert_eq!(get(&out, "model"), Some(&s("opus")));
    assert_eq!(get(&out, "verbose"), Some(&Json::Bool(true)));
    let hooks = as_members(get(&out, "hooks").unwrap());
    assert_eq!(get(hooks, "PreToolUse"), Some(&Json::Array(vec![user_entry("lint")])));
    let stop = as_list(get(hooks, "Stop").unwrap());
    assert_eq!(stop.len(), 2);
    assert_eq!(stop[0], user_entry("say done"));
    assert_eq!(command_of(&stop[1]), format!("{EXE} off"));
}

#[test]
fn install_twice_is_install_once() {
    let settings = members(vec![("hooks", obj(vec![("Stop", Json::Array(vec![user_entry("say done")]))]))]);
    let once = install(settings, EXE, Target::CapsLock).unwrap();
    let snapshot = format!("{once:?}");
    let twice = install(once, EXE, Target::CapsLock).unwrap();
    assert_eq!(format!("{twice:?}"), snapshot);
}

#[test]
fn install_replaces_entries_of_a_moved_binary() {
    let settings = members(vec![("hooks", obj(vec![(
        "Stop",
        Json::Array(vec![entry("/old/place/capslock-indicator off"), user_entry("say done")]),
    )]))]);
    let out = install(settings, EXE, Target::CapsLock).unwrap();
    let hooks = as_members(get(&out, "hooks").unwrap());
    let stop = as_list(get(hooks, "Stop").unwrap());
    assert_eq!(stop.len(), 2);
    assert_eq!(stop[0], user_entry("say done"));
    assert_eq!(command_of(&stop[1]), format!("{EXE} off"));
}

#[test]
fn install_rejects_hooks_that_are_not_an_object() {
    let settings = members(vec![("hooks", Json::Array(vec![]))]);
    assert_eq!(
        install(settings, EXE, Target::CapsLock),
        Err("`hooks` in settings.json is not an object".to_string())
    );
    let settings = members(vec![("hooks", Json::Null)]);
    assert!(install(settings, EXE, Target::CapsLock).is_err());
}

#[test]
fn install_rejects_an_event_that_is_not_a_list() {
    let settings = members(vec![("hooks", obj(vec![
        ("SessionEnd", s("x")),
        ("Notification", Json::Number("3".to_string())),
    ]))]);
    assert_eq!(
        install(settings, EXE, Target::CapsLock),
        Err("hooks.Notification is not an array".to_string())
    );
}

const NAME: &str = "capslock-indicator";

#[test]
fn uninstall_after_install_leaves_only_user_hooks() {
    let settings = members(vec![
        ("model", s("opus")),
        ("hooks", obj(vec![("Stop", Json::Array(vec![user_entry("say done")]))])),
    ]);
    let installed = install(settings, EXE, Target::CapsLock).unwrap();
    let out = uninstall(installed, EXE);
    assert_eq!(
        out,
        members(vec![
            ("model", s("opus")),
            ("hooks", obj(vec![("Stop", Json::Array(vec![user_entry("say done")]))])),
        ])
    );
}

#[test]
fn uninstall_after_install_without_hooks_leaves_an_empty_object() {
    let installed = install(members(vec![("model", s("opus"))]), "/x", Target::Backlight).unwrap();
    assert_eq!(
        uninstall(installed, "/x"),
        members(vec![("model", s("opus")), ("hooks", obj(vec![]))])
    );
}

#[test]
fn uninstall_into_settings_without_hooks() {
    let settings = members(vec![("model", s("opus"))]);
    assert_eq!(uninstall(settings, EXE), members(vec![("model", s("opus"))]));
    let odd = members(vec![("hooks", Json::Number("1".to_string()))]);
    assert_eq!(uninstall(odd, EXE), members(vec![("hooks", Json::Number("1".to_string()))]));
}

#[test]
fn uninstall_twice_is_uninstall_once() {
    let settings = members(vec![("hooks", obj(vec![
        ("Stop", Json::Array(vec![entry("capslock-indicator off"), user_entry("x")])),
        ("Notification", Json::Array(vec![entry("capslock-indicator blink")])),
    ]))]);
    let once = uninstall(settings, EXE);
    let snapshot = format!("{once:?}");
    assert_eq!(format!("{:?}", uninstall(once, EXE)), snapshot);
}

#[test]
fn entries_recognised_as_ours() {
    assert!(is_ours(&entry("/bin/capslock-indicator on"), NAME));
    assert!(is_ours(&entry("capslock-indicator blink"), NAME));
    assert!(is_ours(&entry("/opt/my tools/capslock-indicator --target backlight off"), NAME));
    assert!(is_ours(&entry("C:\\tools\\capslock-indicator --target capslock on"), NAME));
    assert!(is_ours(&obj(vec![(
        "hooks",
        Json::Array(vec![obj(vec![("command", s("echo hi"))]), obj(vec![("command", s("/x/capslock-indicator off"))])]),
    )]), NAME));
    assert!(!is_ours(&user_entry("capslock-notify.sh"), NAME));
    assert!(!is_ours(&user_entry("/bin/capslock-indicator status"), NAME));
    assert!(is_ours(&user_entry("/bin/my-capslock-indicator on"), NAME));
    assert!(is_ours(&entry("/opt/capslock-indicator on"), "capslock-indicator2"));
    assert!(is_ours(&entry("/opt/light.exe off"), "light.exe"));
    assert!(!is_ours(&entry("/opt/light.exe off"), "capslock-indicator"));
    assert!(!is_ours(&entry("/opt/light.exe off"), ""));
    assert!(is_ours(&entry("/opt/capslock-indicator off"), ""));
    assert!(!is_ours(&user_entry("notify capslock status"), NAME));
    assert!(!is_ours(&user_entry("echo capslock on"), NAME));
    assert!(is_ours(&entry("C:\\Program Files\\capslock.exe blink"), "other.exe"));
    assert!(!is_ours(&user_entry("/bin/capslock-indicator --target numlock on"), NAME));
    assert!(!is_ours(&user_entry("/bin/capslock-indicator on; rm x"), NAME));
    assert!(!is_ours(&obj(vec![("hooks", Json::Array(vec![obj(vec![("command", Json::Number("5".to_string()))])]))]), NAME));
    assert!(!is_ours(&obj(vec![("hooks", obj(vec![]))]), NAME));
    assert!(!is_ours(&obj(vec![("command", s("capslock-indicator on"))]), NAME));
    assert!(!is_ours(&s("capslock-indicator on"), NAME));
}

#[test]
fn install_keeps_another_tools_entry() {
    let settings = members(vec![("hooks", obj(vec![("Stop", Json::Array(vec![user_entry("capslock-notify.sh")]))]))]);
    let out = install(settings, EXE, Target::CapsLock).unwrap();
    let hooks = as_members(get(&out, "hooks").unwrap());
    let stop = as_list(get(hooks, "Stop").unwrap());
    assert_eq!(stop.len(), 2);
    assert_eq!(stop[0], user_entry("capslock-notify.sh"));
    assert_eq!(command_of(&stop[1]), format!("{EXE} off"));
}

#[test]
fn strip_drops_emptied_events_and_keeps_others() {
    let hooks = members(vec![
        ("Stop", Json::Array(vec![entry("capslock-indicator off")])),
        ("Empty", Json::Array(vec![])),
        ("Odd", s("not a list")),
        ("Mixed", Json::Array(vec![user_entry("a"), entry("capslock-indicator on"), user_entry("b")])),
    ]);
    let out = strip_ours(hooks, NAME);
    assert_eq!(
        out,
        members(vec![
            ("Odd", s("not a list")),
            ("Mixed", Json::Array(vec![user_entry("a"), user_entry("b")])),
        ])
    );
}

#[test]
fn strip_reads_the_first_of_repeated_keys() {
    let hooks = members(vec![
        ("Stop", Json::Array(vec![entry("capslock-indicator off")])),
        ("Stop", Json::Array(vec![user_entry("shadowed")])),
    ]);
    assert_eq!(strip_ours(hooks, NAME), Vec::new());
}

#[test]
fn settings_from_parsed_documents() {
    let doc = obj(vec![("model", s("opus"))]);
    assert_eq!(settings_from_parse(Ok(doc), "/h/settings.json"), Ok(members(vec![("model", s("opus"))])));
    assert_eq!(
        settings_from_parse(Ok(Json::Array(vec![])), "/h/settings.json"),
        Err("/h/settings.json is not a JSON object".to_string())
    );
    assert_eq!(
        settings_from_parse(Err("EOF while parsing".to_string()), "/h/settings.json"),
        Err("Cannot parse /h/settings.json: EOF while parsing".to_string())
    );
}

#[test]
fn reinstall_with_another_target_replaces_entries() {
    let settings = members(vec![("hooks", obj(vec![("Stop", Json::Array(vec![user_entry("say done")]))]))]);
    let caps = install(settings, EXE, Target::CapsLock).unwrap();
    let back = install(caps, "/opt/capslock-indicator", Target::Backlight).unwrap();
    let direct = install(
        members(vec![("hooks", obj(vec![("Stop", Json::Array(vec![user_entry("say done")]))]))]),
        "/opt/capslock-indicator",
        Target::Backlight,
    )
    .unwrap();
    assert_eq!(format!("{back:?}"), format!("{direct:?}"));
    let hooks = as_members(get(&back, "hooks").unwrap());
    let on = as_list(get(hooks, "UserPromptSubmit").unwrap());
    assert_eq!(on.len(), 1);
    assert_eq!(command_of(&on[0]), "/opt/capslock-indicator --target backlight on");
}

#[test]
fn install_twice_for_any_program_path() {
    for exe in ["/x", "/usr/bin/indicator", "C:\\Program Files\\light.exe", "tool"] {
        let once = install(Vec::new(), exe, Target::CapsLock).unwrap();
        let snapshot = format!("{once:?}");
        let twice = install(once, exe, Target::CapsLock).unwrap();
        assert_eq!(format!("{twice:?}"), snapshot, "{exe}");
        let hooks = as_members(get(&twice, "hooks").unwrap());
        assert_eq!(as_list(get(hooks, "Stop").unwrap()).len(), 1);
        assert_eq!(uninstall(twice, exe), members(vec![("hooks", obj(vec![]))]));
    }
}

#[test]
fn settings_from_file_text() {
    assert_eq!(
        settings_from_text("{\"model\": \"opus\", \"n\": 1.5}", "/h/s.json"),
        Ok(members(vec![("model", s("opus")), ("n", Json::Number("1.5".to_string()))]))
    );
    assert_eq!(
        settings_from_text("[1, 2]", "/h/s.json"),
        Err("/h/s.json is not a JSON object".to_string())
    );
    let err = settings_from_text("{", "/h/s.json").unwrap_err();
    assert!(err.starts_with("Cannot parse /h/s.json: "), "{err}");
}

#[test]
fn settings_file_text() {
    let text = settings_text(members(vec![("b", Json::Bool(true)), ("a", Json::Number("1".to_string()))]));
    assert_eq!(text, "{\n  \"a\": 1,\n  \"b\": true\n}\n");
    assert_eq!(settings_text(Vec::new()), "{}\n");
    assert_eq!(with_final_newline("x".to_string()), "x\n".to_string());
    assert_eq!(with_final_newline(String::new()), "\n".to_string());
}

#[test]
fn settings_text_writes_the_first_of_repeated_keys() {
    let text = settings_text(members(vec![
        ("a", Json::Number("1".to_string())),
        ("a", Json::Number("2".to_string())),
        ("h", obj(vec![("x", s("first")), ("x", s("second"))])),
    ]));
    assert_eq!(text, "{\n  \"a\": 1,\n  \"h\": {\n    \"x\": \"first\"\n  }\n}\n");
}

#[test]
fn shadowed_members_are_dropped_at_every_depth() {
    let doc = obj(vec![
        ("k", Json::Array(vec![obj(vec![("y", Json::Null), ("y", Json::Bool(true))])])),
        ("k", Json::Null),
        ("z", Json::Bool(false)),
    ]);
    assert_eq!(
        drop_shadowed(doc),
        obj(vec![("k", Json::Array(vec![obj(vec![("y", Json::Null)])])), ("z", Json::Bool(false))])
    );
}

#[test]
fn settings_text_round_trip() {
    let settings = install(Vec::new(), EXE, Target::Backlight).unwrap();
    let text = settings_text(settings);
    let back = settings_from_text(&text, "p").unwrap();
    let hooks = as_members(get(&back, "hooks").unwrap());
    let list = as_list(get(hooks, "Notification").unwrap());
    assert_eq!(command_of(&list[0]), format!("{EXE} --target backlight blink"));
}

#[test]
fn program_file_names_and_commands() {
    assert_eq!(file_name_of("/usr/local/bin/capslock-indicator"), "capslock-indicator");
    assert_eq!(file_name_of("C:\\bin\\light.exe"), "light.exe");
    assert_eq!(file_name_of("tool"), "tool");
    assert_eq!(file_name_of("/dir/"), "");
    assert!(is_our_command_text("/a/light.exe off", "light.exe"));
    assert!(!is_our_command_text("/a/light.exe", "light.exe"));
    assert!(!is_our_command_text("/a/xlight.exe on", "light.exe"));
    assert!(is_our_command_text("/a/xlight-capslock on", "light.exe"));
    assert!(!is_our_command_text("/a/light.exe on", ""));
}

#[test]
fn reinstall_after_rename_replaces_old_entries() {
    let settings = members(vec![("hooks", obj(vec![("Stop", Json::Array(vec![user_entry("say done")]))]))]);
    let old = install(settings, "/opt/capslock-indicator", Target::CapsLock).unwrap();
    let renamed = "/usr/bin/capslock-indicator2";
    let again = install(old, renamed, Target::CapsLock).unwrap();
    let direct = install(
        members(vec![("hooks", obj(vec![("Stop", Json::Array(vec![user_entry("say done")]))]))]),
        renamed,
        Target::CapsLock,
    )
    .unwrap();
    assert_eq!(format!("{again:?}"), format!("{direct:?}"));
    let hooks = as_members(get(&again, "hooks").unwrap());
    let stop = as_list(get(hooks, "Stop").unwrap());
    assert_eq!(stop.len(), 2);
    assert_eq!(command_of(&stop[1]), format!("{renamed} off"));
    let removed = uninstall(again, renamed);
    assert_eq!(
        removed,
        members(vec![("hooks", obj(vec![("Stop", Json::Array(vec![user_entry("say done")]))]))])
    );
}

#[test]
fn uninstall_without_a_program_name_removes_capslock_entries() {
    let settings = members(vec![(
        "hooks",
        obj(vec![("Stop", Json::Array(vec![entry("/opt/capslock-indicator off"), entry("/opt/light.exe off")]))]),
    )]);
    let out = uninstall(settings, "");
    assert_eq!(
        out,
        members(vec![("hooks", obj(vec![("Stop", Json::Array(vec![entry("/opt/light.exe off")]))]))])
    );
}
