//! Command-line handling: picking the target out of the arguments and
//! classifying the command.
use vstd::prelude::*;
use vstd::string::*;
use crate::led::{Target, target_named};
use crate::text::str_eq;

verus! {

/// The characters of each argument.
pub open spec fn strings_view(v: Seq<String>) -> Seq<Seq<char>> {
    v.map_values(|s: String| s@)
}

/// Whether an argument is one of the words that select a target.
pub open spec fn is_target_option(a: Seq<char>) -> bool {
    a == "--backlight"@ || a == "--target"@ || a == "-t"@
}

/// The error given when `--target` ends the arguments.
pub open spec fn missing_value_message() -> Seq<char> {
    "--target requires a value: capslock|backlight"@
}

/// The error given for a target name that is not known.
pub open spec fn unknown_target_message(value: Seq<char>) -> Seq<char> {
    "Unknown target: "@ + value
}

/// Scans `rest` for target options, left to right, starting from `target`.
/// Returns the chosen target (or the error) and the arguments that remain:
/// every option is removed together with its value, everything else keeps its
/// order; at an error, the offending option and all that follows it remain.
pub open spec fn scan_target(rest: Seq<Seq<char>>, target: Target) -> (Result<Target, Seq<char>>, Seq<Seq<char>>)
    decreases rest.len(),
{
    if rest.len() == 0 {
        (Ok(target), rest)
    } else if rest[0] == "--backlight"@ {
        scan_target(rest.drop_first(), Target::Backlight)
    } else if rest[0] == "--target"@ || rest[0] == "-t"@ {
        if rest.len() < 2 {
            (Err(missing_value_message()), rest)
        } else {
            match target_named(rest[1]) {
                Some(t) => scan_target(rest.subrange(2, rest.len() as int), t),
                None => (Err(unknown_target_message(rest[1])), rest),
            }
        }
    } else {
        let sub = scan_target(rest.drop_first(), target);
        (sub.0, seq![rest[0]] + sub.1)
    }
}

/// Takes the target options (`--backlight`, `--target NAME`, `-t NAME`) out of
/// the arguments. The last one wins; without any, the target is the Caps Lock
/// LED.
pub fn parse_target(args: &mut Vec<String>) -> (r: Result<Target, String>)
    ensures
        ({
            let spec = scan_target(strings_view(old(args)@), Target::CapsLock);
            &&& strings_view(final(args)@) == spec.1
            &&& match r {
                Ok(t) => spec.0 == Ok::<Target, Seq<char>>(t),
                Err(e) => spec.0 == Err::<Target, Seq<char>>(e@),
            }
        }),
{
    let ghost orig = strings_view(args@);
    let mut target = Target::CapsLock;
    let mut i: usize = 0;
    proof {
        let sv = strings_view(args@);
        assert(sv.skip(0) =~= sv);
        assert(sv.take(0) + scan_target(sv, target).1 =~= scan_target(sv, target).1);
    }
    while i < args.len()
        invariant
            i <= args@.len(),
            orig == strings_view(old(args)@),
            ({
                let sv = strings_view(args@);
                let sub = scan_target(sv.skip(i as int), target);
                scan_target(orig, Target::CapsLock) == (sub.0, sv.take(i as int) + sub.1)
            }),
        decreases args@.len() - i,
    {
        let ghost sv = strings_view(args@);
        let ghost rest = sv.skip(i as int);
        assert(rest[0] == args@[i as int]@);
        if str_eq(args[i].as_str(), "--backlight") {
            args.remove(i);
            proof {
                let sv2 = strings_view(args@);
                assert(sv2.skip(i as int) =~= rest.drop_first());
                assert(sv2.take(i as int) =~= sv.take(i as int));
            }
            target = Target::Backlight;
        } else if str_eq(args[i].as_str(), "--target") || str_eq(args[i].as_str(), "-t") {
            if i + 1 >= args.len() {
                assert(sv.take(i as int) + rest =~= sv);
                assert(scan_target(rest, target) == (Err::<Target, Seq<char>>(missing_value_message()), rest));
                return Err("--target requires a value: capslock|backlight".to_owned());
            }
            assert(rest[1] == args@[i + 1]@);
            match Target::parse(args[i + 1].as_str()) {
                Some(t) => {
                    args.remove(i);
                    args.remove(i);
                    proof {
                        let sv2 = strings_view(args@);
                        assert(sv2.skip(i as int) =~= rest.subrange(2, rest.len() as int));
                        assert(sv2.take(i as int) =~= sv.take(i as int));
                    }
                    target = t;
                },
                None => {
                    let mut msg = "Unknown target: ".to_owned();
                    msg.append(args[i + 1].as_str());
                    assert(sv.take(i as int) + rest =~= sv);
                    assert(scan_target(rest, target) == (Err::<Target, Seq<char>>(unknown_target_message(rest[1])), rest));
                    return Err(msg);
                },
            }
        } else {
            proof {
                assert(sv.skip(i + 1) =~= rest.drop_first());
                assert(sv.take(i + 1) =~= sv.take(i as int) + seq![rest[0]]);
            }
            i = i + 1;
        }
    }
    proof {
        let sv = strings_view(args@);
        assert(sv.take(i as int) =~= sv);
    }
    Ok(target)
}

/// The program's commands.
#[derive(Clone, Copy, PartialEq, Eq, Structural, Debug)]
pub enum Command {
    /// Print the usage text.
    Help,
    /// Run as the blink daemon (started by `blink`).
    Daemon,
    /// Flash the light: the agent needs attention.
    Blink,
    /// Install the agent's hooks.
    InstallHooks,
    /// Remove the agent's hooks.
    UninstallHooks,
    /// Light on: the agent is working.
    On,
    /// Light off: the agent is idle.
    Off,
    /// Flip the light.
    Toggle,
    /// Print the light's state.
    Status,
    /// Anything else.
    Unknown,
}

/// The command that a command word names.
pub open spec fn command_named(w: Seq<char>) -> Command {
    if w == "help"@ || w == "-h"@ || w == "--help"@ {
        Command::Help
    } else if w == "_daemon"@ {
        Command::Daemon
    } else if w == "blink"@ {
        Command::Blink
    } else if w == "install-hooks"@ {
        Command::InstallHooks
    } else if w == "uninstall-hooks"@ {
        Command::UninstallHooks
    } else if w == "on"@ {
        Command::On
    } else if w == "off"@ {
        Command::Off
    } else if w == "toggle"@ {
        Command::Toggle
    } else if w == "status"@ {
        Command::Status
    } else {
        Command::Unknown
    }
}

/// The command named by the first argument (left once the target options
/// are taken out); with no argument, `help`.
pub fn parse_command(args: &Vec<String>) -> (r: Command)
    ensures
        r == command_named(if args@.len() > 0 { args@[0]@ } else { "help"@ }),
{
    if args.len() == 0 {
        return Command::Help;
    }
    let w = args[0].as_str();
    if str_eq(w, "help") || str_eq(w, "-h") || str_eq(w, "--help") {
        Command::Help
    } else if str_eq(w, "_daemon") {
        Command::Daemon
    } else if str_eq(w, "blink") {
        Command::Blink
    } else if str_eq(w, "install-hooks") {
        Command::InstallHooks
    } else if str_eq(w, "uninstall-hooks") {
        Command::UninstallHooks
    } else if str_eq(w, "on") {
        Command::On
    } else if str_eq(w, "off") {
        Command::Off
    } else if str_eq(w, "toggle") {
        Command::Toggle
    } else if str_eq(w, "status") {
        Command::Status
    } else {
        Command::Unknown
    }
}

/// The state a light command gives the light, from the light's current state
/// where it can be read: `on` lights it, `off` darkens it, `toggle` flips it
/// (an unreadable light counts as off). Other commands set nothing.
pub fn light_to_set(cmd: Command, current: Option<bool>) -> (r: Option<bool>)
    ensures
        r == match cmd {
            Command::On => Some(true),
            Command::Off => Some(false),
            Command::Toggle => Some(!(current == Some(true))),
            _ => None::<bool>,
        },
{
    match cmd {
        Command::On => Some(true),
        Command::Off => Some(false),
        Command::Toggle => {
            let cur = match current {
                Some(c) => c,
                None => false,
            };
            Some(!cur)
        },
        _ => None,
    }
}

/// What `status` prints for the light's state.
pub fn status_text(current: Option<bool>) -> (r: &'static str)
    ensures
        r@ == match current {
            Some(true) => "on"@,
            Some(false) => "off"@,
            None => "unknown"@,
        },
{
    match current {
        Some(true) => "on",
        Some(false) => "off",
        None => "unknown",
    }
}

/// The daemon's target from its command-line argument: the Caps Lock LED
/// where the argument is missing or names no target.
pub fn daemon_target(arg: Option<&str>) -> (r: Target)
    ensures
        r == match arg {
            Some(a) => match target_named(a@) {
                Some(t) => t,
                None => Target::CapsLock,
            },
            None => Target::CapsLock,
        },
{
    match arg {
        Some(a) => match Target::parse(a) {
            Some(t) => t,
            None => Target::CapsLock,
        },
        None => Target::CapsLock,
    }
}

/// Arguments that hold no target option select the default target and are
/// left as they are.
pub proof fn lemma_no_options_default(rest: Seq<Seq<char>>, target: Target)
    requires
        forall|j: int| 0 <= j < rest.len() ==> !is_target_option(#[trigger] rest[j]),
    ensures
        scan_target(rest, target) == (Ok::<Target, Seq<char>>(target), rest),
    decreases rest.len(),
{
    if rest.len() > 0 {
        assert(!is_target_option(rest[0]));
        let tail = rest.drop_first();
        assert forall|j: int| 0 <= j < tail.len() implies !is_target_option(#[trigger] tail[j]) by {
            assert(tail[j] == rest[j + 1]);
        }
        lemma_no_options_default(tail, target);
        assert(seq![rest[0]] + tail =~= rest);
    }
}

/// When the target options are well formed, none of them is left among the
/// remaining arguments.
pub proof fn lemma_options_all_taken(rest: Seq<Seq<char>>, target: Target)
    requires
        scan_target(rest, target).0 is Ok,
    ensures
        forall|j: int| 0 <= j < scan_target(rest, target).1.len()
            ==> !is_target_option(#[trigger] scan_target(rest, target).1[j]),
    decreases rest.len(),
{
    if rest.len() == 0 {
    } else if rest[0] == "--backlight"@ {
        lemma_options_all_taken(rest.drop_first(), Target::Backlight);
    } else if rest[0] == "--target"@ || rest[0] == "-t"@ {
        if rest.len() >= 2 {
            if let Some(t) = target_named(rest[1]) {
                lemma_options_all_taken(rest.subrange(2, rest.len() as int), t);
            }
        }
    } else {
        let sub = scan_target(rest.drop_first(), target);
        lemma_options_all_taken(rest.drop_first(), target);
        let all = seq![rest[0]] + sub.1;
        assert forall|j: int| 0 <= j < all.len() implies !is_target_option(#[trigger] all[j]) by {
            if j > 0 {
                assert(all[j] == sub.1[j - 1]);
            }
        }
    }
}

/// Scanning arguments in two parts, where the first part's options are well
/// formed, is scanning the first part and then the second from the target
/// that the first chose; what remains of each is kept, in order.
pub proof fn lemma_scan_concat(pre: Seq<Seq<char>>, tail: Seq<Seq<char>>, target: Target)
    requires
        scan_target(pre, target).0 is Ok,
    ensures
        ({
            let first = scan_target(pre, target);
            let second = scan_target(tail, first.0->Ok_0);
            scan_target(pre + tail, target) == (second.0, first.1 + second.1)
        }),
    decreases pre.len(),
{
    let all = pre + tail;
    if pre.len() == 0 {
        assert(all =~= tail);
        assert(pre + scan_target(tail, target).1 =~= scan_target(tail, target).1);
    } else {
        assert(all[0] == pre[0]);
        if pre[0] == "--backlight"@ {
            assert(all.drop_first() =~= pre.drop_first() + tail);
            lemma_scan_concat(pre.drop_first(), tail, Target::Backlight);
        } else if pre[0] == "--target"@ || pre[0] == "-t"@ {
            let t = target_named(pre[1])->Some_0;
            assert(all[1] == pre[1]);
            assert(all.subrange(2, all.len() as int) =~= pre.subrange(2, pre.len() as int) + tail);
            lemma_scan_concat(pre.subrange(2, pre.len() as int), tail, t);
        } else {
            assert(all.drop_first() =~= pre.drop_first() + tail);
            lemma_scan_concat(pre.drop_first(), tail, target);
            let first = scan_target(pre.drop_first(), target);
            let second = scan_target(tail, first.0->Ok_0);
            assert(seq![pre[0]] + (first.1 + second.1) =~= (seq![pre[0]] + first.1) + second.1);
        }
    }
}

/// `-t NAME` and `--target NAME` are the same option: whatever follows them
/// and whatever the target so far, they give the same target or error, and
/// with a known NAME they leave the same arguments.
pub proof fn lemma_short_option_is_target(name: Seq<char>, rest: Seq<Seq<char>>, target: Target)
    ensures
        scan_target(seq!["-t"@, name] + rest, target).0 == scan_target(seq!["--target"@, name] + rest, target).0,
        target_named(name) is Some ==>
            scan_target(seq!["-t"@, name] + rest, target) == scan_target(seq!["--target"@, name] + rest, target),
{
    reveal_strlit("-t");
    reveal_strlit("--target");
    reveal_strlit("--backlight");
    let a = seq!["-t"@, name] + rest;
    let b = seq!["--target"@, name] + rest;
    assert(a[0] == "-t"@ && b[0] == "--target"@);
    assert(a[0] != "--backlight"@) by {
        assert(a[0].len() != "--backlight"@.len());
    }
    assert(b[0] != "--backlight"@) by {
        assert(b[0][2] != "--backlight"@[2]);
    }
    assert(a[1] == name && b[1] == name);
    assert(a.subrange(2, a.len() as int) =~= rest);
    assert(b.subrange(2, b.len() as int) =~= rest);
}

/// The last target option wins: after arguments whose options are well
/// formed, `--target NAME` or `-t NAME` with a known NAME, followed only by
/// arguments that are no target options, selects the target that NAME names,
/// whatever came before, and takes the option and its value out.
pub proof fn lemma_last_target_option_wins(pre: Seq<Seq<char>>, option: Seq<char>, name: Seq<char>, rest: Seq<Seq<char>>, target: Target)
    requires
        scan_target(pre, target).0 is Ok,
        option == "--target"@ || option == "-t"@,
        target_named(name) is Some,
        forall|j: int| 0 <= j < rest.len() ==> !is_target_option(#[trigger] rest[j]),
    ensures
        scan_target(pre + seq![option, name] + rest, target)
            == (Ok::<Target, Seq<char>>(target_named(name)->Some_0), scan_target(pre, target).1 + rest),
{
    reveal_strlit("-t");
    reveal_strlit("--target");
    reveal_strlit("--backlight");
    let tail = seq![option, name] + rest;
    assert(pre + seq![option, name] + rest =~= pre + tail);
    lemma_scan_concat(pre, tail, target);
    let mid = scan_target(pre, target).0->Ok_0;
    assert(tail[0] == option && tail[1] == name);
    assert(tail[0] != "--backlight"@) by {
        if option == "-t"@ {
            assert(tail[0].len() != "--backlight"@.len());
        } else {
            assert(tail[0][2] != "--backlight"@[2]);
        }
    }
    assert(tail.subrange(2, tail.len() as int) =~= rest);
    lemma_no_options_default(rest, target_named(name)->Some_0);
}

/// `--backlight` selects the backlight in the same way, wherever it is the
/// last target option.
pub proof fn lemma_last_backlight_option_wins(pre: Seq<Seq<char>>, rest: Seq<Seq<char>>, target: Target)
    requires
        scan_target(pre, target).0 is Ok,
        forall|j: int| 0 <= j < rest.len() ==> !is_target_option(#[trigger] rest[j]),
    ensures
        scan_target(pre + seq!["--backlight"@] + rest, target)
            == (Ok::<Target, Seq<char>>(Target::Backlight), scan_target(pre, target).1 + rest),
{
    let tail = seq!["--backlight"@] + rest;
    assert(pre + seq!["--backlight"@] + rest =~= pre + tail);
    lemma_scan_concat(pre, tail, target);
    assert(tail.drop_first() =~= rest);
    lemma_no_options_default(rest, Target::Backlight);
}

} // verus!
