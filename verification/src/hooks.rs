//! The agent's hooks in the settings document: recognising the indicator's
//! own entries, removing them, and installing a fresh set.
use vstd::prelude::*;
use vstd::string::*;
use crate::json::{
    Json, JsonView, json_view, array_view, members_view, key_index, find_key, lemma_members_lookup,
    lemma_array_view, lemma_array_view_push, lemma_key_index, lemma_key_index_at, lemma_key_index_none,
    lemma_members_push, lemma_members_update,
};
use crate::text::{seq_contains, seq_ends_with, str_contains, str_ends_with, str_eq};
use crate::led::{Target, target_name};

verus! {

/// Whether a character separates the parts of a path.
pub open spec fn is_separator(c: char) -> bool {
    c == '/' || c == '\\'
}

/// Where the file name of a path starts: just after its last separator.
pub open spec fn name_start(p: Seq<char>) -> int
    decreases p.len(),
{
    if p.len() == 0 {
        0
    } else if is_separator(p.last()) {
        p.len() as int
    } else {
        name_start(p.drop_last())
    }
}

/// The file name of a path: what follows its last separator.
pub open spec fn file_name(p: Seq<char>) -> Seq<char> {
    p.subrange(name_start(p), p.len() as int)
}

/// The file name of a path.
pub fn file_name_of(path: &str) -> (r: &str)
    ensures
        r@ == file_name(path@),
{
    let n = path.unicode_len();
    let mut k: usize = n;
    proof {
        assert(path@.subrange(0, n as int) =~= path@);
    }
    while k > 0 && path.get_char(k - 1) != '/' && path.get_char(k - 1) != '\\'
        invariant
            n == path@.len(),
            k <= n,
            name_start(path@) == name_start(path@.subrange(0, k as int)),
        decreases k,
    {
        proof {
            assert(path@.subrange(0, k as int).drop_last() =~= path@.subrange(0, k - 1));
        }
        k = k - 1;
    }
    path.substring_char(k, n)
}

/// What follows the program in one of the indicator's hook commands: the
/// target option where there is one, then the light action.
pub open spec fn action_suffix(option: Option<Target>, action: Seq<char>) -> Seq<char> {
    match option {
        None => " "@ + action,
        Some(t) => " --target "@ + target_name(t) + " "@ + action,
    }
}

/// Whether a file name is one that the indicator's program goes by: it holds
/// `capslock` and no space.
pub open spec fn capslock_name(f: Seq<char>) -> bool {
    seq_contains(f, "capslock"@) && !seq_contains(f, " "@)
}

/// Whether the program that a command runs (the text before its options) is
/// the indicator: its file name is `name`, the running program's own, or a
/// name that the indicator's program goes by.
pub open spec fn program_is_ours(x: Seq<char>, name: Seq<char>) -> bool {
    ||| name.len() > 0 && file_name(x) == name
    ||| capslock_name(file_name(x))
}

/// Whether a command runs the indicator's program (see `program_is_ours`)
/// with the given target option and light action.
pub open spec fn has_shape(c: Seq<char>, name: Seq<char>, option: Option<Target>, action: Seq<char>) -> bool {
    &&& seq_ends_with(c, action_suffix(option, action))
    &&& program_is_ours(c.subrange(0, c.len() - action_suffix(option, action).len()), name)
}

/// Whether a command runs the indicator's program with the given target
/// option and one of the light actions that hooks run.
pub open spec fn has_shape_for(c: Seq<char>, name: Seq<char>, option: Option<Target>) -> bool {
    has_shape(c, name, option, "on"@) || has_shape(c, name, option, "off"@) || has_shape(c, name, option, "blink"@)
}

/// Whether a hook command is one that the indicator writes: the program
/// (recognised by its file name, in any directory), optionally a target
/// option, then `on`, `off` or `blink`.
pub open spec fn command_text_is_ours(c: Seq<char>, name: Seq<char>) -> bool {
    has_shape_for(c, name, None) || has_shape_for(c, name, Some(Target::CapsLock))
        || has_shape_for(c, name, Some(Target::Backlight))
}

/// Whether a command has the given shape.
fn has_shape_exec(c: &str, name: &str, option: Option<Target>, action: &str) -> (r: bool)
    ensures
        r == has_shape(c@, name@, option, action@),
{
    let mut suffix = match option {
        None => " ".to_owned(),
        Some(t) => {
            let mut s = " --target ".to_owned();
            s.append(t.as_str());
            s.append(" ");
            s
        },
    };
    suffix.append(action);
    if !str_ends_with(c, suffix.as_str()) {
        return false;
    }
    let n = c.unicode_len();
    let m = suffix.as_str().unicode_len();
    let x = c.substring_char(0, n - m);
    let program = file_name_of(x);
    (name.unicode_len() > 0 && str_eq(program, name))
        || (str_contains(program, "capslock") && !str_contains(program, " "))
}

/// Whether a command has the shape for a target option.
fn has_shape_for_exec(c: &str, name: &str, option: Option<Target>) -> (r: bool)
    ensures
        r == has_shape_for(c@, name@, option),
{
    has_shape_exec(c, name, option, "on") || has_shape_exec(c, name, option, "off")
        || has_shape_exec(c, name, option, "blink")
}

/// Whether a hook command is one that the indicator writes, for the program
/// whose file name is `name`.
pub fn is_our_command_text(c: &str, name: &str) -> (r: bool)
    ensures
        r == command_text_is_ours(c@, name@),
{
    has_shape_for_exec(c, name, None) || has_shape_for_exec(c, name, Some(Target::CapsLock))
        || has_shape_for_exec(c, name, Some(Target::Backlight))
}

/// Whether a hook command belongs to the indicator: its `command` is a string
/// in the shape the indicator writes.
pub open spec fn command_is_ours(h: JsonView, name: Seq<char>) -> bool {
    match h {
        JsonView::Object(m) => m.contains_key("command"@) && match m["command"@] {
            JsonView::Str(c) => command_text_is_ours(c, name),
            _ => false,
        },
        _ => false,
    }
}

/// Whether an entry of an event's hook list belongs to the indicator: its
/// `hooks` is an array that holds one of the indicator's commands.
pub open spec fn entry_is_ours(entry: JsonView, name: Seq<char>) -> bool {
    match entry {
        JsonView::Object(m) => m.contains_key("hooks"@) && match m["hooks"@] {
            JsonView::Array(hs) => exists|i: int| 0 <= i < hs.len() && #[trigger] command_is_ours(hs[i], name),
            _ => false,
        },
        _ => false,
    }
}

/// The entries of a list that do not belong to the indicator, in order.
pub open spec fn others(a: Seq<JsonView>, name: Seq<char>) -> Seq<JsonView>
    decreases a.len(),
{
    if a.len() == 0 {
        a
    } else {
        let r = others(a.drop_last(), name);
        if entry_is_ours(a.last(), name) {
            r
        } else {
            r.push(a.last())
        }
    }
}

/// Whether an event's value is a list that holds nothing but the indicator's
/// entries (the empty list included).
pub open spec fn only_ours(v: JsonView, name: Seq<char>) -> bool {
    match v {
        JsonView::Array(a) => others(a, name).len() == 0,
        _ => false,
    }
}

/// An event's value with the indicator's entries removed.
pub open spec fn without_ours(v: JsonView, name: Seq<char>) -> JsonView {
    match v {
        JsonView::Array(a) => JsonView::Array(others(a, name)),
        _ => v,
    }
}

/// The hooks map with the indicator's entries removed from every event's
/// list; an event whose list is left empty is dropped, and an event whose
/// value is not a list is kept as it is.
pub open spec fn strip_ours_spec(hooks: Map<Seq<char>, JsonView>, name: Seq<char>) -> Map<Seq<char>, JsonView> {
    Map::new(
        |k: Seq<char>| hooks.contains_key(k) && !only_ours(hooks[k], name),
        |k: Seq<char>| without_ours(hooks[k], name),
    )
}

/// Whether a hook command belongs to the indicator.
fn is_our_command(h: &Json, name: &str) -> (r: bool)
    ensures
        r == command_is_ours(h@, name@),
{
    match h {
        Json::Object(m) => {
            proof {
                lemma_members_lookup(m@, "command"@);
            }
            match find_key(m, "command") {
                Some(i) => match &m[i].1 {
                    Json::Str(c) => is_our_command_text(c.as_str(), name),
                    _ => false,
                },
                None => false,
            }
        },
        _ => false,
    }
}

/// Whether an entry of an event's hook list belongs to the indicator, when
/// the running program has the file name `name`.
pub fn is_ours(entry: &Json, name: &str) -> (r: bool)
    ensures
        r == entry_is_ours(entry@, name@),
{
    match entry {
        Json::Object(m) => {
            proof {
                lemma_members_lookup(m@, "hooks"@);
            }
            match find_key(m, "hooks") {
                Some(i) => match &m[i].1 {
                    Json::Array(hs) => {
                        proof {
                            lemma_array_view(hs@);
                        }
                        let mut j: usize = 0;
                        assert(entry_is_ours(entry@, name@) == (exists|l: int| 0 <= l < array_view(hs@).len()
                            && #[trigger] command_is_ours(array_view(hs@)[l], name@)));
                        while j < hs.len()
                            invariant
                                j <= hs@.len(),
                                entry_is_ours(entry@, name@) == (exists|l: int| 0 <= l < array_view(hs@).len()
                                    && #[trigger] command_is_ours(array_view(hs@)[l], name@)),
                                array_view(hs@).len() == hs@.len(),
                                forall|l: int| 0 <= l < hs@.len() ==> #[trigger] array_view(hs@)[l] == json_view(hs@[l]),
                                forall|l: int| 0 <= l < j ==> !#[trigger] command_is_ours(array_view(hs@)[l], name@),
                            decreases hs@.len() - j,
                        {
                            if is_our_command(&hs[j], name) {
                                assert(command_is_ours(array_view(hs@)[j as int], name@));
                                return true;
                            }
                            j = j + 1;
                        }
                        false
                    },
                    _ => false,
                },
                None => false,
            }
        },
        _ => false,
    }
}

/// The entries of a hook list that do not belong to the indicator, in order.
fn keep_others(a: Vec<Json>, name: &str) -> (r: Vec<Json>)
    ensures
        array_view(r@) == others(array_view(a@), name@),
{
    let ghost orig = a@;
    let mut a = a;
    let mut out: Vec<Json> = Vec::new();
    let n = a.len();
    let mut i: usize = 0;
    proof {
        assert(orig.take(0) =~= Seq::<Json>::empty());
    }
    while i < n
        invariant
            n == orig.len(),
            i <= n,
            a@ == orig.skip(i as int),
            array_view(out@) == others(array_view(orig.take(i as int)), name@),
        decreases n - i,
    {
        let x = a.remove(0);
        proof {
            assert(x == orig[i as int]);
            assert(orig.take(i + 1) =~= orig.take(i as int).push(x));
            assert(a@ =~= orig.skip(i + 1));
            lemma_array_view_push(orig.take(i as int), x);
            let pv = array_view(orig.take(i as int)).push(json_view(x));
            assert(pv.drop_last() =~= array_view(orig.take(i as int)));
        }
        if !is_ours(&x, name) {
            proof {
                lemma_array_view_push(out@, x);
            }
            out.push(x);
        }
        i = i + 1;
    }
    proof {
        assert(orig.take(n as int) =~= orig);
    }
    out
}

/// Removing the indicator's entries from a map extended by a new key is
/// removing them from the map and then handling the new key alone.
pub proof fn lemma_strip_insert(m: Map<Seq<char>, JsonView>, k: Seq<char>, v: JsonView, name: Seq<char>)
    requires
        !m.contains_key(k),
    ensures
        strip_ours_spec(m.insert(k, v), name) == if only_ours(v, name) {
            strip_ours_spec(m, name)
        } else {
            strip_ours_spec(m, name).insert(k, without_ours(v, name))
        },
{
    if only_ours(v, name) {
        assert(strip_ours_spec(m.insert(k, v), name) =~= strip_ours_spec(m, name));
    } else {
        assert(strip_ours_spec(m.insert(k, v), name) =~= strip_ours_spec(m, name).insert(k, without_ours(v, name)));
    }
}

/// Removes the indicator's entries (recognised as `is_ours` does, for the
/// running program's file name `name`) from every event's hook list; an
/// event whose list is left empty is dropped.
pub fn strip_ours(hooks: Vec<(String, Json)>, name: &str) -> (r: Vec<(String, Json)>)
    ensures
        members_view(r@) == strip_ours_spec(members_view(hooks@), name@),
{
    let ghost orig = hooks@;
    let n = hooks.len();
    // Which members are the first with their key: the others are shadowed.
    let mut first: Vec<bool> = Vec::new();
    let mut i: usize = 0;
    while i < n
        invariant
            n == orig.len(),
            hooks@ == orig,
            i <= n,
            first@.len() == i,
            forall|j: int| 0 <= j < i ==> #[trigger] first@[j] == (key_index(orig, orig[j].0@) == j),
        decreases n - i,
    {
        let f = match find_key(&hooks, hooks[i].0.as_str()) {
            Some(p) => p == i,
            None => false,
        };
        first.push(f);
        i = i + 1;
    }
    let mut hooks = hooks;
    let mut out: Vec<(String, Json)> = Vec::new();
    i = 0;
    proof {
        assert(orig.take(0) =~= Seq::<(String, Json)>::empty());
        assert(strip_ours_spec(Map::empty(), name@) =~= Map::empty());
    }
    while i < n
        invariant
            n == orig.len(),
            i <= n,
            first@.len() == n,
            forall|j: int| 0 <= j < n ==> #[trigger] first@[j] == (key_index(orig, orig[j].0@) == j),
            hooks@ == orig.skip(i as int),
            members_view(out@) == strip_ours_spec(members_view(orig.take(i as int)), name@),
        decreases n - i,
    {
        let (k, v) = hooks.remove(0);
        let ghost p = orig.take(i as int);
        let ghost x = orig[i as int];
        proof {
            assert(x == (k, v));
            assert(orig.take(i + 1) =~= p.push(x));
            assert(hooks@ =~= orig.skip(i + 1));
            lemma_key_index(orig, k@);
            lemma_key_index(p, k@);
        }
        if first[i] {
            proof {
                assert forall|j: int| 0 <= j < p.len() implies #[trigger] p[j].0@ != k@ by {
                    assert(p[j] == orig[j]);
                }
                lemma_key_index_none(p, k@);
                lemma_members_lookup(p, k@);
                lemma_members_push(p, x);
                lemma_strip_insert(members_view(p), k@, json_view(v), name@);
                lemma_members_lookup(out@, k@);
            }
            match v {
                Json::Array(a) => {
                    let kept = keep_others(a, name);
                    proof {
                        lemma_array_view(kept@);
                    }
                    if kept.len() > 0 {
                        proof {
                            lemma_members_push(out@, (k, Json::Array(kept)));
                        }
                        out.push((k, Json::Array(kept)));
                    }
                },
                other => {
                    proof {
                        lemma_members_push(out@, (k, other));
                    }
                    out.push((k, other));
                },
            }
        } else {
            proof {
                let j0 = key_index(orig, k@);
                assert(j0 < i);
                assert forall|j: int| 0 <= j < j0 implies #[trigger] p[j].0@ != k@ by {
                    assert(p[j] == orig[j]);
                }
                assert(p[j0] == orig[j0]);
                lemma_key_index_at(p, k@, j0);
                lemma_members_push(p, x);
            }
        }
        i = i + 1;
    }
    proof {
        assert(orig.take(n as int) =~= orig);
    }
    out
}

/// The start of the indicator's hook commands: the program's path, followed
/// by the target option where the target is not the default one.
pub open spec fn command_base(exe: Seq<char>, target: Target) -> Seq<char> {
    if target == Target::CapsLock {
        exe
    } else {
        exe + " --target "@ + target_name(target)
    }
}

/// The hook command that runs `action`.
pub open spec fn hook_command(base: Seq<char>, action: Seq<char>) -> Seq<char> {
    base + " "@ + action
}

/// The hook entry that runs `command`:
/// `{"hooks": [{"type": "command", "command": command}]}`.
pub open spec fn entry_view(command: Seq<char>) -> JsonView {
    JsonView::Object(
        map![
            "hooks"@ => JsonView::Array(
                seq![
                    JsonView::Object(
                        map![
                            "type"@ => JsonView::Str("command"@),
                            "command"@ => JsonView::Str(command),
                        ],
                    ),
                ],
            ),
        ],
    )
}

/// The agent's events that the indicator hooks, each with the light action
/// that it runs: working, idle, waiting on the user, session over.
pub open spec fn hook_events() -> Seq<(Seq<char>, Seq<char>)> {
    seq![
        ("UserPromptSubmit"@, "on"@),
        ("Stop"@, "off"@),
        ("Notification"@, "blink"@),
        ("SessionEnd"@, "off"@),
    ]
}

/// The error given when the `hooks` setting is not an object.
pub open spec fn hooks_not_object_message() -> Seq<char> {
    "`hooks` in settings.json is not an object"@
}

/// The error given when an event's value is not a list.
pub open spec fn not_array_message(event: Seq<char>) -> Seq<char> {
    "hooks."@ + event + " is not an array"@
}

/// Appends the entry that runs `command` to the event's list, creating the
/// list where the event is absent.
pub open spec fn add_hook_spec(hooks: Map<Seq<char>, JsonView>, event: Seq<char>, command: Seq<char>) -> Result<Map<Seq<char>, JsonView>, Seq<char>> {
    if hooks.contains_key(event) {
        match hooks[event] {
            JsonView::Array(a) => Ok(hooks.insert(event, JsonView::Array(a.push(entry_view(command))))),
            _ => Err(not_array_message(event)),
        }
    } else {
        Ok(hooks.insert(event, JsonView::Array(seq![entry_view(command)])))
    }
}

/// Adds the indicator's entry to each of `events` in turn; the first event
/// whose value is not a list stops it with an error.
pub open spec fn add_all_spec(hooks: Map<Seq<char>, JsonView>, events: Seq<(Seq<char>, Seq<char>)>, base: Seq<char>) -> Result<Map<Seq<char>, JsonView>, Seq<char>>
    decreases events.len(),
{
    if events.len() == 0 {
        Ok(hooks)
    } else {
        match add_hook_spec(hooks, events[0].0, hook_command(base, events[0].1)) {
            Ok(h) => add_all_spec(h, events.drop_first(), base),
            Err(e) => Err(e),
        }
    }
}

/// The `hooks` setting, an empty object where it is absent.
pub open spec fn hooks_setting(settings: Map<Seq<char>, JsonView>) -> JsonView {
    if settings.contains_key("hooks"@) {
        settings["hooks"@]
    } else {
        JsonView::Object(Map::empty())
    }
}

/// The settings after installing the indicator's hooks with commands that
/// start with `base`: the indicator's old entries are removed, then one entry
/// is appended to each hooked event. Every other setting and every other
/// entry is kept.
pub open spec fn install_spec(settings: Map<Seq<char>, JsonView>, base: Seq<char>, name: Seq<char>) -> Result<Map<Seq<char>, JsonView>, Seq<char>> {
    match hooks_setting(settings) {
        JsonView::Object(h) => match add_all_spec(strip_ours_spec(h, name), hook_events(), base) {
            Ok(h2) => Ok(settings.insert("hooks"@, JsonView::Object(h2))),
            Err(e) => Err(e),
        },
        _ => Err(hooks_not_object_message()),
    }
}

/// The settings after removing the indicator's hooks. Settings whose `hooks`
/// is absent or not an object are left as they are.
pub open spec fn uninstall_spec(settings: Map<Seq<char>, JsonView>, name: Seq<char>) -> Map<Seq<char>, JsonView> {
    if settings.contains_key("hooks"@) {
        match settings["hooks"@] {
            JsonView::Object(h) => settings.insert("hooks"@, JsonView::Object(strip_ours_spec(h, name))),
            _ => settings,
        }
    } else {
        settings
    }
}

/// The start of the indicator's hook commands.
pub fn hook_command_base(exe: &str, target: Target) -> (r: String)
    ensures
        r@ == command_base(exe@, target),
{
    let mut base = exe.to_owned();
    if target != Target::CapsLock {
        base.append(" --target ");
        base.append(target.as_str());
    }
    base
}

/// The hook entry that runs `command`.
fn hook_entry(command: String) -> (r: Json)
    ensures
        r@ == entry_view(command@),
{
    let ghost c = command@;
    let mut inner: Vec<(String, Json)> = Vec::new();
    let t = ("type".to_owned(), Json::Str("command".to_owned()));
    let cm = ("command".to_owned(), Json::Str(command));
    proof {
        reveal_strlit("type");
        reveal_strlit("command");
        assert(members_view(inner@) =~= Map::empty());
        lemma_key_index_none(inner@, t.0@);
        lemma_members_push(inner@, t);
        assert(t.0@ != cm.0@) by {
            assert(t.0@[0] != cm.0@[0]);
        }
        assert(inner@.push(t)[0] == t);
        lemma_key_index_none(inner@.push(t), cm.0@);
        lemma_members_push(inner@.push(t), cm);
    }
    inner.push(t);
    inner.push(cm);
    let inner_json = Json::Object(inner);
    let mut list: Vec<Json> = Vec::new();
    proof {
        lemma_array_view_push(list@, inner_json);
        assert(array_view(list@) =~= Seq::<JsonView>::empty());
    }
    list.push(inner_json);
    let mut outer: Vec<(String, Json)> = Vec::new();
    let h = ("hooks".to_owned(), Json::Array(list));
    proof {
        assert(members_view(outer@) =~= Map::empty());
        lemma_key_index_none(outer@, h.0@);
        lemma_members_push(outer@, h);
    }
    outer.push(h);
    let r = Json::Object(outer);
    proof {
        assert(json_view(inner_json) == JsonView::Object(
            map!["type"@ => JsonView::Str("command"@), "command"@ => JsonView::Str(c)],
        ));
        assert(array_view(list@) =~= seq![json_view(inner_json)]);
    }
    r
}

/// The hooked events with their actions, as `hook_events` lists them.
fn hook_event_list() -> (r: Vec<(&'static str, &'static str)>)
    ensures
        r@.len() == hook_events().len(),
        forall|i: int| 0 <= i < r@.len() ==> (#[trigger] r@[i].0@, r@[i].1@) == hook_events()[i],
{
    let mut r: Vec<(&'static str, &'static str)> = Vec::new();
    r.push(("UserPromptSubmit", "on"));
    r.push(("Stop", "off"));
    r.push(("Notification", "blink"));
    r.push(("SessionEnd", "off"));
    r
}

/// Appends the entry that runs `command` to the event's list.
fn add_hook(hooks: Vec<(String, Json)>, event: &str, command: String) -> (r: Result<Vec<(String, Json)>, String>)
    ensures
        match r {
            Ok(v) => add_hook_spec(members_view(hooks@), event@, command@) == Ok::<Map<Seq<char>, JsonView>, Seq<char>>(members_view(v@)),
            Err(e) => add_hook_spec(members_view(hooks@), event@, command@) == Err::<Map<Seq<char>, JsonView>, Seq<char>>(e@),
        },
{
    let ghost orig = hooks@;
    let mut hooks = hooks;
    proof {
        lemma_members_lookup(orig, event@);
    }
    match find_key(&hooks, event) {
        Some(i) => {
            let (k, v) = hooks.remove(i);
            match v {
                Json::Array(a) => {
                    let mut a = a;
                    let e = hook_entry(command);
                    proof {
                        lemma_array_view_push(a@, e);
                    }
                    a.push(e);
                    let x = (k, Json::Array(a));
                    proof {
                        lemma_key_index(orig, event@);
                        lemma_members_update(orig, i as int, x);
                    }
                    hooks.insert(i, x);
                    assert(hooks@ =~= orig.update(i as int, x));
                    Ok(hooks)
                },
                _ => {
                    let mut msg = "hooks.".to_owned();
                    msg.append(event);
                    msg.append(" is not an array");
                    Err(msg)
                },
            }
        },
        None => {
            let mut a: Vec<Json> = Vec::new();
            let e = hook_entry(command);
            proof {
                lemma_array_view_push(a@, e);
                assert(array_view(a@) =~= Seq::<JsonView>::empty());
            }
            a.push(e);
            let x = (event.to_owned(), Json::Array(a));
            proof {
                lemma_members_push(orig, x);
                assert(array_view(a@) =~= seq![entry_view(command@)]);
            }
            hooks.push(x);
            Ok(hooks)
        },
    }
}

/// Installs the indicator's hooks in the settings (the members of the
/// settings object): its old entries (recognised for the file name of
/// `exe`) are removed, then one entry is appended to each hooked event, running the program at `exe` with the action for
/// that event (and the target option where the target is not the default).
pub fn install(settings: Vec<(String, Json)>, exe: &str, target: Target) -> (r: Result<Vec<(String, Json)>, String>)
    ensures
        match r {
            Ok(v) => install_spec(members_view(settings@), command_base(exe@, target), file_name(exe@))
                == Ok::<Map<Seq<char>, JsonView>, Seq<char>>(members_view(v@)),
            Err(e) => install_spec(members_view(settings@), command_base(exe@, target), file_name(exe@))
                == Err::<Map<Seq<char>, JsonView>, Seq<char>>(e@),
        },
{
    let ghost orig = settings@;
    let base = hook_command_base(exe, target);
    let name = file_name_of(exe);
    let mut doc = settings;
    proof {
        lemma_members_lookup(orig, "hooks"@);
        lemma_key_index(orig, "hooks"@);
    }
    let (place, hooks) = match find_key(&doc, "hooks") {
        Some(i) => {
            let (k, v) = doc.remove(i);
            match v {
                Json::Object(h) => (Some((i, k)), h),
                _ => {
                    return Err("`hooks` in settings.json is not an object".to_owned());
                },
            }
        },
        None => {
            proof {
                assert(members_view(Seq::<(String, Json)>::empty()) =~= Map::empty());
            }
            (None, Vec::new())
        },
    };
    let ghost h0 = members_view(hooks@);
    assert(hooks_setting(members_view(orig)) == JsonView::Object(h0));
    let mut hooks = strip_ours(hooks, name);
    let events = hook_event_list();
    let mut j: usize = 0;
    proof {
        assert(hook_events().skip(0) =~= hook_events());
    }
    while j < events.len()
        invariant
            events@.len() == hook_events().len(),
            forall|l: int| 0 <= l < events@.len() ==> (#[trigger] events@[l].0@, events@[l].1@) == hook_events()[l],
            j <= events@.len(),
            orig == settings@,
            base@ == command_base(exe@, target),
            name@ == file_name(exe@),
            hooks_setting(members_view(orig)) == JsonView::Object(h0),
            add_all_spec(strip_ours_spec(h0, name@), hook_events(), base@)
                == add_all_spec(members_view(hooks@), hook_events().skip(j as int), base@),
        decreases events@.len() - j,
    {
        let (event, action) = events[j];
        let mut command = base.clone();
        command.append(" ");
        command.append(action);
        proof {
            assert(hook_events().skip(j as int)[0] == (event@, action@));
            assert(hook_events().skip(j as int).drop_first() =~= hook_events().skip(j + 1));
        }
        match add_hook(hooks, event, command) {
            Ok(h) => {
                hooks = h;
            },
            Err(e) => {
                return Err(e);
            },
        }
        j = j + 1;
    }
    proof {
        assert(hook_events().skip(j as int) =~= Seq::<(Seq<char>, Seq<char>)>::empty());
    }
    let ghost h2 = members_view(hooks@);
    match place {
        Some((i, k)) => {
            let x = (k, Json::Object(hooks));
            proof {
                lemma_members_update(orig, i as int, x);
            }
            doc.insert(i, x);
            assert(doc@ =~= orig.update(i as int, x));
        },
        None => {
            let x = ("hooks".to_owned(), Json::Object(hooks));
            proof {
                lemma_members_push(orig, x);
            }
            doc.push(x);
        },
    }
    Ok(doc)
}

/// Removes the indicator's hooks (recognised for the file name of `exe`) from
/// the settings (the members of the settings object). Settings whose `hooks`
/// is absent or not an object are returned as they are.
pub fn uninstall(settings: Vec<(String, Json)>, exe: &str) -> (r: Vec<(String, Json)>)
    ensures
        members_view(r@) == uninstall_spec(members_view(settings@), file_name(exe@)),
{
    let ghost orig = settings@;
    let name = file_name_of(exe);
    let mut settings = settings;
    proof {
        lemma_members_lookup(orig, "hooks"@);
        lemma_key_index(orig, "hooks"@);
    }
    match find_key(&settings, "hooks") {
        Some(i) => {
            let (k, v) = settings.remove(i);
            let x = match v {
                Json::Object(h) => (k, Json::Object(strip_ours(h, name))),
                other => (k, other),
            };
            proof {
                lemma_members_update(orig, i as int, x);
                if !(orig[i as int].1 is Object) {
                    assert(x == orig[i as int]);
                    assert(orig.update(i as int, x) =~= orig);
                    assert(members_view(orig).insert("hooks"@, json_view(x.1)) =~= members_view(orig));
                }
            }
            settings.insert(i, x);
            assert(settings@ =~= orig.update(i as int, x));
        },
        None => {},
    }
    settings
}

/// An entry that runs a command in the indicator's shape is recognised as
/// the indicator's.
pub proof fn lemma_entry_is_ours(command: Seq<char>, name: Seq<char>)
    requires
        command_text_is_ours(command, name),
    ensures
        entry_is_ours(entry_view(command), name),
{
    reveal_strlit("type");
    reveal_strlit("command");
    let inner = map!["type"@ => JsonView::Str("command"@), "command"@ => JsonView::Str(command)];
    assert(inner.contains_key("command"@));
    assert(inner["command"@] == JsonView::Str(command));
    let hs = seq![JsonView::Object(inner)];
    assert(command_is_ours(hs[0], name));
    let outer = map!["hooks"@ => JsonView::Array(hs)];
    assert(outer.contains_key("hooks"@));
    assert(outer["hooks"@] == JsonView::Array(hs));
    assert(entry_view(command) == JsonView::Object(outer));
    assert(outer.contains_key("hooks"@));
    match outer["hooks"@] {
        JsonView::Array(hs2) => {
            assert(hs2 == hs);
            assert(command_is_ours(hs2[0], name));
            assert(exists|i: int| 0 <= i < hs2.len() && #[trigger] command_is_ours(hs2[i], name));
        },
        _ => {},
    }
    assert(entry_is_ours(JsonView::Object(outer), name));
}

/// Whether an action is one of the light actions that hooks run.
pub open spec fn is_light_action(action: Seq<char>) -> bool {
    action == "on"@ || action == "off"@ || action == "blink"@
}

/// Every command that `install` writes for the program at `exe` is
/// recognised as the indicator's, for any program name under which `exe`
/// is recognised, whatever the directory.
pub proof fn lemma_written_command_is_ours(exe: Seq<char>, target: Target, action: Seq<char>, name: Seq<char>)
    requires
        is_light_action(action),
        program_is_ours(exe, name),
    ensures
        command_text_is_ours(hook_command(command_base(exe, target), action), name),
{
    let c = hook_command(command_base(exe, target), action);
    let option = if target == Target::CapsLock { None } else { Some(target) };
    let sfx = action_suffix(option, action);
    assert(c =~= exe + sfx);
    assert(c.subrange(c.len() - sfx.len(), c.len() as int) =~= sfx);
    assert(c.subrange(0, c.len() - sfx.len()) =~= exe);
    assert(has_shape(c, name, option, action));
}

/// Whether every entry that is recognised as the indicator's for the program
/// name `old` is recognised for `new` as well: the names are the same, or
/// the old one is a name that the indicator's program goes by.
pub open spec fn name_covers(old: Seq<char>, new: Seq<char>) -> bool {
    old == new || capslock_name(old)
}

/// A program recognised under a name is recognised under every name that
/// name covers.
proof fn lemma_program_covered(x: Seq<char>, old: Seq<char>, new: Seq<char>)
    requires
        name_covers(old, new),
        program_is_ours(x, old),
    ensures
        program_is_ours(x, new),
{
    if old != new && file_name(x) == old && old.len() > 0 {
        assert(capslock_name(file_name(x)));
    }
}

/// An entry recognised under a name is recognised under every name that
/// name covers.
pub proof fn lemma_entry_covered(e: JsonView, old: Seq<char>, new: Seq<char>)
    requires
        name_covers(old, new),
        entry_is_ours(e, old),
    ensures
        entry_is_ours(e, new),
{
    if let JsonView::Object(m) = e {
        if let JsonView::Array(hs) = m["hooks"@] {
            let i = choose|i: int| 0 <= i < hs.len() && #[trigger] command_is_ours(hs[i], old);
            if let JsonView::Object(hm) = hs[i] {
                if let JsonView::Str(c) = hm["command"@] {
                    let o1 = Some(Target::CapsLock);
                    let o2 = Some(Target::Backlight);
                    assert forall|option: Option<Target>, action: Seq<char>| has_shape(c, old, option, action)
                        implies has_shape(c, new, option, action) by {
                        lemma_program_covered(c.subrange(0, c.len() - action_suffix(option, action).len()), old, new);
                    }
                    assert(command_text_is_ours(c, new));
                }
            }
            assert(command_is_ours(hs[i], new));
        }
    }
}

/// The entries left by `others` are none of the indicator's.
pub proof fn lemma_others_not_ours(a: Seq<JsonView>, name: Seq<char>)
    ensures
        forall|i: int| 0 <= i < others(a, name).len() ==> !entry_is_ours(#[trigger] others(a, name)[i], name),
    decreases a.len(),
{
    if a.len() > 0 {
        let r = others(a.drop_last(), name);
        lemma_others_not_ours(a.drop_last(), name);
        assert forall|i: int| 0 <= i < others(a, name).len() implies !entry_is_ours(#[trigger] others(a, name)[i], name) by {
            if i < r.len() {
                assert(others(a, name)[i] == r[i]);
            }
        }
    }
}

/// A list of entries none of which is the indicator's is left as it is.
pub proof fn lemma_others_of_others(a: Seq<JsonView>, name: Seq<char>)
    requires
        forall|i: int| 0 <= i < a.len() ==> !entry_is_ours(#[trigger] a[i], name),
    ensures
        others(a, name) == a,
    decreases a.len(),
{
    if a.len() > 0 {
        let b = a.drop_last();
        assert forall|i: int| 0 <= i < b.len() implies !entry_is_ours(#[trigger] b[i], name) by {
            assert(b[i] == a[i]);
        }
        lemma_others_of_others(b, name);
        assert(!entry_is_ours(a[a.len() - 1], name));
        assert(b.push(a.last()) =~= a);
    }
}

/// Removing the indicator's entries twice is removing them once.
pub proof fn lemma_others_idempotent(a: Seq<JsonView>, name: Seq<char>)
    ensures
        others(others(a, name), name) == others(a, name),
{
    lemma_others_not_ours(a, name);
    lemma_others_of_others(others(a, name), name);
}

/// Stripping the indicator's entries twice is stripping them once.
pub proof fn lemma_strip_idempotent(h: Map<Seq<char>, JsonView>, name: Seq<char>)
    ensures
        strip_ours_spec(strip_ours_spec(h, name), name) == strip_ours_spec(h, name),
{
    let s1 = strip_ours_spec(h, name);
    assert forall|k: Seq<char>| #[trigger] s1.contains_key(k) implies !only_ours(s1[k], name) && without_ours(s1[k], name) == s1[k] by {
        if let JsonView::Array(a) = h[k] {
            lemma_others_idempotent(a, name);
        }
    }
    assert(strip_ours_spec(s1, name) =~= s1);
}

/// Adding the indicator's entry to one event, then stripping, is stripping.
pub proof fn lemma_strip_add_hook(h: Map<Seq<char>, JsonView>, event: Seq<char>, command: Seq<char>, name: Seq<char>)
    requires
        add_hook_spec(h, event, command) is Ok,
        command_text_is_ours(command, name),
    ensures
        strip_ours_spec(add_hook_spec(h, event, command)->Ok_0, name) == strip_ours_spec(h, name),
{
    lemma_entry_is_ours(command, name);
    let e = entry_view(command);
    let h2 = add_hook_spec(h, event, command)->Ok_0;
    if h.contains_key(event) {
        if let JsonView::Array(a) = h[event] {
            assert(a.push(e).drop_last() =~= a);
            assert(others(a.push(e), name) == others(a, name));
        }
    } else {
        assert(seq![e].drop_last() =~= Seq::<JsonView>::empty());
        assert(others(seq![e], name) == others(Seq::<JsonView>::empty(), name));
    }
    assert(strip_ours_spec(h2, name) =~= strip_ours_spec(h, name));
}

/// Adding the indicator's entries to all the events, then stripping with a
/// program name under which `exe` is recognised, is stripping.
pub proof fn lemma_strip_add_all(h: Map<Seq<char>, JsonView>, events: Seq<(Seq<char>, Seq<char>)>, exe: Seq<char>, target: Target, name: Seq<char>)
    requires
        add_all_spec(h, events, command_base(exe, target)) is Ok,
        forall|i: int| 0 <= i < events.len() ==> is_light_action(#[trigger] events[i].1),
        program_is_ours(exe, name),
    ensures
        strip_ours_spec(add_all_spec(h, events, command_base(exe, target))->Ok_0, name)
            == strip_ours_spec(h, name),
    decreases events.len(),
{
    if events.len() > 0 {
        let base = command_base(exe, target);
        let c = hook_command(base, events[0].1);
        lemma_written_command_is_ours(exe, target, events[0].1, name);
        let h1 = add_hook_spec(h, events[0].0, c)->Ok_0;
        lemma_strip_add_hook(h, events[0].0, c, name);
        let rest = events.drop_first();
        assert forall|i: int| 0 <= i < rest.len() implies is_light_action(#[trigger] rest[i].1) by {
            assert(rest[i] == events[i + 1]);
        }
        lemma_strip_add_all(h1, rest, exe, target, name);
    }
}

/// Removing the entries recognised under one name, then those recognised
/// under a name it covers, is removing the latter.
pub proof fn lemma_others_absorb(a: Seq<JsonView>, old: Seq<char>, new: Seq<char>)
    requires
        name_covers(old, new),
    ensures
        others(others(a, old), new) == others(a, new),
    decreases a.len(),
{
    if a.len() > 0 {
        let d = a.drop_last();
        lemma_others_absorb(d, old, new);
        if entry_is_ours(a.last(), old) {
            lemma_entry_covered(a.last(), old, new);
        } else {
            let x = others(d, old);
            assert(x.push(a.last()).drop_last() =~= x);
            assert(x.push(a.last()).last() == a.last());
        }
    }
}

/// Stripping the entries recognised under one name, then those recognised
/// under a name it covers, is stripping the latter.
pub proof fn lemma_strip_absorb(h: Map<Seq<char>, JsonView>, old: Seq<char>, new: Seq<char>)
    requires
        name_covers(old, new),
    ensures
        strip_ours_spec(strip_ours_spec(h, old), new) == strip_ours_spec(h, new),
{
    let s1 = strip_ours_spec(h, old);
    assert forall|k: Seq<char>| #[trigger] h.contains_key(k) implies
        (only_ours(h[k], old) ==> only_ours(h[k], new))
        && (!only_ours(h[k], old) ==> (only_ours(s1[k], new) == only_ours(h[k], new)
            && without_ours(s1[k], new) == without_ours(h[k], new))) by {
        if let JsonView::Array(a) = h[k] {
            lemma_others_absorb(a, old, new);
            if others(a, old).len() == 0 {
                assert(others(a, old) =~= Seq::<JsonView>::empty());
            }
        }
    }
    assert(strip_ours_spec(s1, new) =~= strip_ours_spec(h, new));
}

/// The hooked events run light actions.
pub proof fn lemma_hook_events_actions()
    ensures
        forall|i: int| 0 <= i < hook_events().len() ==> is_light_action(#[trigger] hook_events()[i].1),
{
}

/// The settings after installing the hooks for the program at `exe` with
/// `target`.
pub open spec fn installed(settings: Map<Seq<char>, JsonView>, exe: Seq<char>, target: Target) -> Result<Map<Seq<char>, JsonView>, Seq<char>> {
    install_spec(settings, command_base(exe, target), file_name(exe))
}

/// Installing over an earlier install gives what installing once gives, for
/// every program path and target: the indicator's old entries are replaced
/// wherever the program now lies and whatever it is now called, as long as
/// it kept its file name or its old file name holds `capslock` and no space (a program
/// whose path ends in a separator, with no file name, is left out).
pub proof fn lemma_reinstall(settings: Map<Seq<char>, JsonView>, old_exe: Seq<char>, old_target: Target, exe: Seq<char>, target: Target)
    requires
        installed(settings, old_exe, old_target) is Ok,
        file_name(old_exe).len() > 0,
        name_covers(file_name(old_exe), file_name(exe)),
    ensures
        installed(installed(settings, old_exe, old_target)->Ok_0, exe, target) == installed(settings, exe, target),
{
    let old_name = file_name(old_exe);
    let name = file_name(exe);
    assert(program_is_ours(old_exe, name));
    if let JsonView::Object(h0) = hooks_setting(settings) {
        let h1 = strip_ours_spec(h0, old_name);
        let h2 = add_all_spec(h1, hook_events(), command_base(old_exe, old_target))->Ok_0;
        let t = settings.insert("hooks"@, JsonView::Object(h2));
        assert(hooks_setting(t) == JsonView::Object(h2));
        lemma_hook_events_actions();
        lemma_strip_add_all(h1, hook_events(), old_exe, old_target, name);
        lemma_strip_absorb(h0, old_name, name);
        let h1n = strip_ours_spec(h0, name);
        match add_all_spec(h1n, hook_events(), command_base(exe, target)) {
            Ok(h3) => {
                assert(t.insert("hooks"@, JsonView::Object(h3)) =~= settings.insert("hooks"@, JsonView::Object(h3)));
            },
            Err(e) => {},
        }
    }
}

/// Installing the hooks a second time changes nothing, for every program
/// path with a file name and every target.
pub proof fn lemma_install_idempotent(settings: Map<Seq<char>, JsonView>, exe: Seq<char>, target: Target)
    requires
        installed(settings, exe, target) is Ok,
        file_name(exe).len() > 0,
    ensures
        installed(installed(settings, exe, target)->Ok_0, exe, target) == installed(settings, exe, target),
{
    lemma_reinstall(settings, exe, target, exe, target);
}

/// Uninstalling after installing leaves the settings as uninstalling alone
/// leaves them (where `hooks` was absent, it is now an empty object), for
/// every program path with a file name and target, and for an uninstall run
/// by the same program or by one under whose name it is recognised.
pub proof fn lemma_uninstall_after_install(settings: Map<Seq<char>, JsonView>, exe: Seq<char>, target: Target, name: Seq<char>)
    requires
        installed(settings, exe, target) is Ok,
        file_name(exe).len() > 0,
        name_covers(file_name(exe), name),
    ensures
        uninstall_spec(installed(settings, exe, target)->Ok_0, name)
            == uninstall_spec(settings.insert("hooks"@, hooks_setting(settings)), name),
{
    let old_name = file_name(exe);
    assert(program_is_ours(exe, name));
    if let JsonView::Object(h0) = hooks_setting(settings) {
        let h1 = strip_ours_spec(h0, old_name);
        let h2 = add_all_spec(h1, hook_events(), command_base(exe, target))->Ok_0;
        lemma_hook_events_actions();
        lemma_strip_add_all(h1, hook_events(), exe, target, name);
        lemma_strip_absorb(h0, old_name, name);
        let t = settings.insert("hooks"@, JsonView::Object(h2));
        let s2 = settings.insert("hooks"@, hooks_setting(settings));
        assert(uninstall_spec(t, name) =~= uninstall_spec(s2, name));
    }
}

/// Whether a hooks map holds none of the indicator's entries and no empty
/// list: every list is one the user wrote.
pub open spec fn holds_only_others(h: Map<Seq<char>, JsonView>, name: Seq<char>) -> bool {
    forall|k: Seq<char>| #[trigger] h.contains_key(k) ==> match h[k] {
        JsonView::Array(a) => a.len() > 0 && forall|i: int| 0 <= i < a.len() ==> !entry_is_ours(#[trigger] a[i], name),
        _ => true,
    }
}

/// Settings whose hooks hold none of the indicator's entries come back from
/// installing and then uninstalling unchanged, but for an empty `hooks`
/// object where there was none.
pub proof fn lemma_uninstall_undoes_install(settings: Map<Seq<char>, JsonView>, exe: Seq<char>, target: Target, name: Seq<char>)
    requires
        installed(settings, exe, target) is Ok,
        file_name(exe).len() > 0,
        name_covers(file_name(exe), name),
        hooks_setting(settings) matches JsonView::Object(h0) && holds_only_others(h0, name),
    ensures
        uninstall_spec(installed(settings, exe, target)->Ok_0, name)
            == settings.insert("hooks"@, hooks_setting(settings)),
{
    lemma_uninstall_after_install(settings, exe, target, name);
    if let JsonView::Object(h0) = hooks_setting(settings) {
        assert forall|k: Seq<char>| #[trigger] h0.contains_key(k) implies !only_ours(h0[k], name)
            && without_ours(h0[k], name) == h0[k] by {
            if let JsonView::Array(a) = h0[k] {
                lemma_others_of_others(a, name);
            }
        }
        assert(strip_ours_spec(h0, name) =~= h0);
        let s2 = settings.insert("hooks"@, hooks_setting(settings));
        assert(uninstall_spec(s2, name) =~= s2);
    }
}

/// Uninstalling twice is uninstalling once.
pub proof fn lemma_uninstall_idempotent(settings: Map<Seq<char>, JsonView>, name: Seq<char>)
    ensures
        uninstall_spec(uninstall_spec(settings, name), name) == uninstall_spec(settings, name),
{
    if settings.contains_key("hooks"@) {
        if let JsonView::Object(h) = settings["hooks"@] {
            lemma_strip_idempotent(h, name);
            let u = uninstall_spec(settings, name);
            assert(uninstall_spec(u, name) =~= u);
        }
    }
}

/// The list of an event, empty where the event is absent or not a list.
pub open spec fn event_list(h: Map<Seq<char>, JsonView>, event: Seq<char>) -> Seq<JsonView> {
    if h.contains_key(event) {
        match h[event] {
            JsonView::Array(a) => a,
            _ => Seq::empty(),
        }
    } else {
        Seq::empty()
    }
}

/// Whether the events of a list are all different.
pub open spec fn distinct_events(events: Seq<(Seq<char>, Seq<char>)>) -> bool {
    forall|i: int, j: int| 0 <= i < j < events.len() ==> #[trigger] events[i].0 != #[trigger] events[j].0
}

/// Adding the entries to a list of different events appends one entry to
/// each of them and leaves every other event as it was.
pub proof fn lemma_add_all_effect(h: Map<Seq<char>, JsonView>, events: Seq<(Seq<char>, Seq<char>)>, base: Seq<char>)
    requires
        add_all_spec(h, events, base) is Ok,
        distinct_events(events),
    ensures
        forall|i: int| #![trigger events[i]] 0 <= i < events.len() ==> {
            let h2 = add_all_spec(h, events, base)->Ok_0;
            &&& h2.contains_key(events[i].0)
            &&& h2[events[i].0] == JsonView::Array(
                event_list(h, events[i].0).push(entry_view(hook_command(base, events[i].1))))
            &&& (h.contains_key(events[i].0) ==> h[events[i].0] is Array)
        },
        forall|k: Seq<char>| #![trigger h.contains_key(k)] #![trigger h[k]]
            (forall|i: int| 0 <= i < events.len() ==> #[trigger] events[i].0 != k) ==> {
            let h2 = add_all_spec(h, events, base)->Ok_0;
            &&& h2.contains_key(k) == h.contains_key(k)
            &&& (h.contains_key(k) ==> h2[k] == h[k])
        },
    decreases events.len(),
{
    if events.len() > 0 {
        let ev = events[0].0;
        let c = hook_command(base, events[0].1);
        let h1 = add_hook_spec(h, ev, c)->Ok_0;
        let rest = events.drop_first();
        assert forall|i: int, j: int| 0 <= i < j < rest.len() implies #[trigger] rest[i].0 != #[trigger] rest[j].0 by {
            assert(rest[i] == events[i + 1] && rest[j] == events[j + 1]);
        }
        lemma_add_all_effect(h1, rest, base);
        let h2 = add_all_spec(h, events, base)->Ok_0;
        assert forall|i: int| #![trigger events[i]] 0 <= i < events.len() implies {
            &&& h2.contains_key(events[i].0)
            &&& h2[events[i].0] == JsonView::Array(
                event_list(h, events[i].0).push(entry_view(hook_command(base, events[i].1))))
            &&& (h.contains_key(events[i].0) ==> h[events[i].0] is Array)
        } by {
            if i == 0 {
                assert forall|l: int| 0 <= l < rest.len() implies #[trigger] rest[l].0 != ev by {
                    assert(rest[l] == events[l + 1]);
                }
                assert(h1.contains_key(ev));
                assert(h2[ev] == h1[ev]);
                if !h.contains_key(ev) {
                    assert(Seq::<JsonView>::empty().push(entry_view(c)) =~= seq![entry_view(c)]);
                }
            } else {
                let e = events[i].0;
                assert(rest[i - 1] == events[i]);
                assert(events[i].0 != ev);
                assert(h1.contains_key(e) == h.contains_key(e));
                if h.contains_key(e) {
                    assert(h1[e] == h[e]);
                }
                assert(event_list(h1, e) == event_list(h, e));
            }
        }
        assert forall|k: Seq<char>| #![trigger h.contains_key(k)] #![trigger h[k]]
            (forall|i: int| 0 <= i < events.len() ==> #[trigger] events[i].0 != k) implies {
            &&& h2.contains_key(k) == h.contains_key(k)
            &&& (h.contains_key(k) ==> h2[k] == h[k])
        } by {
            assert(events[0].0 != k);
            assert(h1.contains_key(k) == h.contains_key(k));
            if h.contains_key(k) {
                assert(h1[k] == h[k]);
            }
            assert forall|l: int| 0 <= l < rest.len() implies #[trigger] rest[l].0 != k by {
                assert(rest[l] == events[l + 1]);
            }
        }
    }
}

/// The events that the indicator hooks are all different.
pub proof fn lemma_hook_events_distinct()
    ensures
        distinct_events(hook_events()),
{
    reveal_strlit("UserPromptSubmit");
    reveal_strlit("Stop");
    reveal_strlit("Notification");
    reveal_strlit("SessionEnd");
    let e = hook_events();
    assert(e[0].0[0] != e[1].0[0]);
    assert(e[0].0[0] != e[2].0[0]);
    assert(e[0].0[0] != e[3].0[0]);
    assert(e[1].0[0] != e[2].0[0]);
    assert(e[1].0[1] != e[3].0[1]);
    assert(e[2].0[0] != e[3].0[0]);
}

/// After installing, each hooked event's list holds the event's own entries
/// (those that are not the indicator's), in their order, followed by one new
/// entry that runs the light action for that event; every other event keeps
/// its own entries, and every setting other than `hooks` is unchanged.
pub proof fn lemma_install_effect(settings: Map<Seq<char>, JsonView>, base: Seq<char>, name: Seq<char>)
    requires
        install_spec(settings, base, name) is Ok,
    ensures
        ({
            let t = install_spec(settings, base, name)->Ok_0;
            let h0 = hooks_setting(settings)->Object_0;
            &&& hooks_setting(settings) is Object
            &&& t.remove("hooks"@) == settings.remove("hooks"@)
            &&& t.contains_key("hooks"@)
            &&& t["hooks"@] is Object
            &&& forall|i: int| #![trigger hook_events()[i]] 0 <= i < hook_events().len() ==> {
                let ev = hook_events()[i];
                &&& t["hooks"@]->Object_0.contains_key(ev.0)
                &&& t["hooks"@]->Object_0[ev.0] == JsonView::Array(
                    others(event_list(h0, ev.0), name).push(entry_view(hook_command(base, ev.1))))
            }
            &&& forall|k: Seq<char>| #![trigger strip_ours_spec(h0, name).contains_key(k)] #![trigger strip_ours_spec(h0, name)[k]]
                (forall|i: int| 0 <= i < hook_events().len() ==> #[trigger] hook_events()[i].0 != k) ==> {
                &&& t["hooks"@]->Object_0.contains_key(k) == strip_ours_spec(h0, name).contains_key(k)
                &&& (strip_ours_spec(h0, name).contains_key(k) ==> t["hooks"@]->Object_0[k] == strip_ours_spec(h0, name)[k])
            }
        }),
{
    let t = install_spec(settings, base, name)->Ok_0;
    let h0 = hooks_setting(settings)->Object_0;
    let h1 = strip_ours_spec(h0, name);
    lemma_hook_events_distinct();
    lemma_add_all_effect(h1, hook_events(), base);
    assert(t.remove("hooks"@) =~= settings.remove("hooks"@));
    assert forall|i: int| #![trigger hook_events()[i]] 0 <= i < hook_events().len() implies
        event_list(h1, hook_events()[i].0) == others(event_list(h0, hook_events()[i].0), name) by {
        let ev = hook_events()[i].0;
        if h0.contains_key(ev) {
            if let JsonView::Array(a) = h0[ev] {
            } else {
                assert(h1.contains_key(ev));
            }
        }
    }
}

/// After installing, the list of each hooked event ends with one new entry,
/// `{"hooks": [{"type": "command", "command": C}]}`, where C is the program's
/// path, then ` --target backlight` for the backlight, a space and the
/// event's action: `on` when a prompt is submitted, `off` when the agent
/// stops, `blink` on a notification, `off` when the session ends.
pub proof fn lemma_install_writes_entries(settings: Map<Seq<char>, JsonView>, exe: Seq<char>, target: Target)
    requires
        install_spec(settings, command_base(exe, target), file_name(exe)) is Ok,
    ensures
        ({
            let t = install_spec(settings, command_base(exe, target), file_name(exe))->Ok_0;
            let program = if target == Target::Backlight { exe + " --target backlight"@ } else { exe };
            let events = seq![
                ("UserPromptSubmit"@, "on"@),
                ("Stop"@, "off"@),
                ("Notification"@, "blink"@),
                ("SessionEnd"@, "off"@),
            ];
            &&& t.contains_key("hooks"@)
            &&& t["hooks"@] is Object
            &&& forall|i: int| 0 <= i < events.len() ==> {
                let h = t["hooks"@]->Object_0;
                let ev = #[trigger] events[i];
                &&& h.contains_key(ev.0)
                &&& h[ev.0] is Array
                &&& h[ev.0]->Array_0.len() > 0
                &&& h[ev.0]->Array_0.last() == JsonView::Object(map![
                    "hooks"@ => JsonView::Array(seq![JsonView::Object(map![
                        "type"@ => JsonView::Str("command"@),
                        "command"@ => JsonView::Str(program + " "@ + ev.1),
                    ])]),
                ])
            }
        }),
{
    let base = command_base(exe, target);
    let name = file_name(exe);
    let program = if target == Target::Backlight { exe + " --target backlight"@ } else { exe };
    reveal_strlit(" --target ");
    reveal_strlit("backlight");
    reveal_strlit(" --target backlight");
    if target == Target::Backlight {
        assert(base =~= program);
    }
    assert(base == program);
    lemma_install_effect(settings, base, name);
    let t = install_spec(settings, base, name)->Ok_0;
    let events = seq![
        ("UserPromptSubmit"@, "on"@),
        ("Stop"@, "off"@),
        ("Notification"@, "blink"@),
        ("SessionEnd"@, "off"@),
    ];
    assert(events == hook_events());
    assert forall|i: int| 0 <= i < events.len() implies {
        let h = t["hooks"@]->Object_0;
        let ev = #[trigger] events[i];
        &&& h.contains_key(ev.0)
        &&& h[ev.0] is Array
        &&& h[ev.0]->Array_0.len() > 0
        &&& h[ev.0]->Array_0.last() == JsonView::Object(map![
            "hooks"@ => JsonView::Array(seq![JsonView::Object(map![
                "type"@ => JsonView::Str("command"@),
                "command"@ => JsonView::Str(program + " "@ + ev.1),
            ])]),
        ])
    } by {
        assert(hook_events()[i] == events[i]);
    }
}

/// An entry that is not the indicator's is kept by `others`.
pub proof fn lemma_others_keeps(a: Seq<JsonView>, name: Seq<char>, i: int)
    requires
        0 <= i < a.len(),
        !entry_is_ours(a[i], name),
    ensures
        others(a, name).contains(a[i]),
    decreases a.len(),
{
    let r = others(a.drop_last(), name);
    if i == a.len() - 1 {
        assert(others(a, name) == r.push(a[i]));
        assert(others(a, name)[r.len() as int] == a[i]);
    } else {
        assert(a.drop_last()[i] == a[i]);
        lemma_others_keeps(a.drop_last(), name, i);
        let j = choose|j: int| 0 <= j < r.len() && r[j] == a[i];
        if !entry_is_ours(a.last(), name) {
            assert(others(a, name)[j] == r[j]);
        }
    }
}

/// Installing removes no entry that the indicator did not write: each one
/// stays in its event's list, for every program path and target.
pub proof fn lemma_install_keeps_others(settings: Map<Seq<char>, JsonView>, exe: Seq<char>, target: Target, event: Seq<char>, i: int)
    requires
        installed(settings, exe, target) is Ok,
        hooks_setting(settings) is Object,
        0 <= i < event_list(hooks_setting(settings)->Object_0, event).len(),
        !entry_is_ours(event_list(hooks_setting(settings)->Object_0, event)[i], file_name(exe)),
    ensures
        ({
            let t = installed(settings, exe, target)->Ok_0;
            &&& hooks_setting(t) is Object
            &&& event_list(hooks_setting(t)->Object_0, event).contains(
                event_list(hooks_setting(settings)->Object_0, event)[i])
        }),
{
    let name = file_name(exe);
    let base = command_base(exe, target);
    let t = installed(settings, exe, target)->Ok_0;
    let h0 = hooks_setting(settings)->Object_0;
    let a = event_list(h0, event);
    lemma_install_effect(settings, base, name);
    lemma_others_keeps(a, name, i);
    assert(hooks_setting(t) == t["hooks"@]);
    let h2 = t["hooks"@]->Object_0;
    if exists|idx: int| 0 <= idx < hook_events().len() && hook_events()[idx].0 == event {
        let idx = choose|idx: int| 0 <= idx < hook_events().len() && hook_events()[idx].0 == event;
        let e = entry_view(hook_command(base, hook_events()[idx].1));
        assert(h2[event] == JsonView::Array(others(a, name).push(e)));
        let j = choose|j: int| 0 <= j < others(a, name).len() && others(a, name)[j] == a[i];
        assert(others(a, name).push(e)[j] == a[i]);
    } else {
        assert(h0.contains_key(event));
        assert(strip_ours_spec(h0, name).contains_key(event));
        assert(h2.contains_key(event));
        assert(h2[event] == strip_ours_spec(h0, name)[event]);
    }
}

/// Uninstalling removes no entry that the indicator did not write: each one
/// stays in its event's list.
pub proof fn lemma_uninstall_keeps_others(settings: Map<Seq<char>, JsonView>, exe: Seq<char>, event: Seq<char>, i: int)
    requires
        hooks_setting(settings) is Object,
        0 <= i < event_list(hooks_setting(settings)->Object_0, event).len(),
        !entry_is_ours(event_list(hooks_setting(settings)->Object_0, event)[i], file_name(exe)),
    ensures
        ({
            let u = uninstall_spec(settings, file_name(exe));
            &&& hooks_setting(u) is Object
            &&& event_list(hooks_setting(u)->Object_0, event).contains(
                event_list(hooks_setting(settings)->Object_0, event)[i])
        }),
{
    let name = file_name(exe);
    let h0 = hooks_setting(settings)->Object_0;
    let a = event_list(h0, event);
    lemma_others_keeps(a, name, i);
    assert(settings.contains_key("hooks"@));
    let u = uninstall_spec(settings, name);
    assert(hooks_setting(u) == JsonView::Object(strip_ours_spec(h0, name)));
    assert(strip_ours_spec(h0, name).contains_key(event));
}

/// Whether no event's list in the `hooks` setting holds an entry of the
/// indicator.
pub open spec fn free_of_ours(settings: Map<Seq<char>, JsonView>, name: Seq<char>) -> bool {
    match hooks_setting(settings) {
        JsonView::Object(h) => forall|k: Seq<char>| #[trigger] h.contains_key(k) ==> match h[k] {
            JsonView::Array(a) => forall|i: int| 0 <= i < a.len() ==> !entry_is_ours(#[trigger] a[i], name),
            _ => true,
        },
        _ => true,
    }
}

/// After uninstalling, no event's list holds an entry of the indicator
/// (where `hooks` is an object; any other `hooks` is left untouched).
pub proof fn lemma_uninstall_leaves_none(settings: Map<Seq<char>, JsonView>, name: Seq<char>)
    requires
        hooks_setting(settings) is Object,
    ensures
        free_of_ours(uninstall_spec(settings, name), name),
{
    if let JsonView::Object(h0) = hooks_setting(settings) {
        let u = uninstall_spec(settings, name);
        let h = strip_ours_spec(h0, name);
        if settings.contains_key("hooks"@) {
            assert(hooks_setting(u) == JsonView::Object(h));
            assert forall|k: Seq<char>| #[trigger] h.contains_key(k) implies match h[k] {
                JsonView::Array(a) => forall|i: int| 0 <= i < a.len() ==> !entry_is_ours(#[trigger] a[i], name),
                _ => true,
            } by {
                if let JsonView::Array(a0) = h0[k] {
                    lemma_others_not_ours(a0, name);
                }
            }
        }
    }
}

} // verus!
