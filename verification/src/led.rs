//! Which light the indicator drives, and how a light driver is chosen.
use vstd::prelude::*;
use vstd::string::*;
use crate::text::{str_eq, str_contains, seq_contains, trim, trim_start, trim_end, trim_bounds};

verus! {

/// The light to drive.
#[derive(Clone, Copy, PartialEq, Eq, Structural, Debug)]
pub enum Target {
    /// The Caps Lock LED.
    CapsLock,
    /// The keyboard backlight (macOS laptops only).
    Backlight,
}

/// The name of a target on the command line.
pub open spec fn target_name(t: Target) -> Seq<char> {
    match t {
        Target::CapsLock => "capslock"@,
        Target::Backlight => "backlight"@,
    }
}

/// The target that a command-line name denotes, if any.
pub open spec fn target_named(s: Seq<char>) -> Option<Target> {
    if s == "capslock"@ {
        Some(Target::CapsLock)
    } else if s == "backlight"@ {
        Some(Target::Backlight)
    } else {
        None
    }
}

impl Target {
    /// The command-line name of this target.
    pub fn as_str(self) -> (r: &'static str)
        ensures
            r@ == target_name(self),
    {
        match self {
            Target::CapsLock => "capslock",
            Target::Backlight => "backlight",
        }
    }

    /// The target with the given command-line name.
    pub fn parse(s: &str) -> (r: Option<Target>)
        ensures
            r == target_named(s@),
    {
        if str_eq(s, "capslock") {
            Some(Target::CapsLock)
        } else if str_eq(s, "backlight") {
            Some(Target::Backlight)
        } else {
            None
        }
    }
}

/// Parsing the name of a target gives the target back, and the names of the
/// two targets differ.
pub proof fn lemma_target_name_round_trip(t: Target)
    ensures
        target_named(target_name(t)) == Some(t),
{
    reveal_strlit("capslock");
    reveal_strlit("backlight");
    assert("capslock"@ != "backlight"@) by {
        assert("capslock"@[0] != "backlight"@[0]);
    }
}

/// The platform the program runs on, as far as choosing a light driver
/// depends on it.
#[derive(Clone, Copy, PartialEq, Eq, Structural, Debug)]
pub enum Platform {
    MacOs,
    Other,
}

/// The kind of light driver to open.
#[derive(Clone, Copy, PartialEq, Eq, Structural, Debug)]
pub enum Driver {
    /// The platform's Caps Lock LED driver.
    CapsLockLed,
    /// The keyboard backlight driver (macOS).
    KeyboardBacklight,
}

/// The error given for the backlight target off macOS.
pub open spec fn backlight_unsupported_message() -> Seq<char> {
    "The backlight target is only supported on macOS"@
}

/// Chooses the driver for a target: the Caps Lock LED anywhere, the keyboard
/// backlight on macOS only.
pub fn backend(target: Target, platform: Platform) -> (r: Result<Driver, String>)
    ensures
        match target {
            Target::CapsLock => r == Ok::<Driver, String>(Driver::CapsLockLed),
            Target::Backlight => if platform == Platform::MacOs {
                r == Ok::<Driver, String>(Driver::KeyboardBacklight)
            } else {
                r matches Err(e) && e@ == backlight_unsupported_message()
            },
        },
{
    match target {
        Target::CapsLock => Ok(Driver::CapsLockLed),
        Target::Backlight => {
            if platform == Platform::MacOs {
                Ok(Driver::KeyboardBacklight)
            } else {
                Err("The backlight target is only supported on macOS".to_owned())
            }
        },
    }
}

/// Whether an LED's name under `/sys/class/leds` marks a Caps Lock LED.
pub fn is_capslock_led_name(name: &str) -> (r: bool)
    ensures
        r == seq_contains(name@, "capslock"@),
{
    str_contains(name, "capslock")
}

/// The state an LED brightness file shows: on unless its trimmed text is `0`.
pub fn led_file_state(contents: &str) -> (r: bool)
    ensures
        r == (trim(contents@) != "0"@),
{
    let (a, b) = trim_bounds(contents);
    proof {
        reveal_strlit("0");
    }
    if b - a == 1 && contents.get_char(a) == '0' {
        assert(contents@.subrange(a as int, b as int) =~= "0"@);
        false
    } else {
        let ghost t = contents@.subrange(a as int, b as int);
        if b - a == 1 {
            assert(t[0] != "0"@[0]);
        } else {
            assert(t.len() != "0"@.len());
        }
        assert(t != "0"@);
        true
    }
}

/// The text written to an LED brightness file for a state.
pub fn led_file_text(state: bool) -> (r: &'static str)
    ensures
        r@ == led_text(state),
{
    if state { "1" } else { "0" }
}

/// The text written to an LED brightness file for a state.
pub open spec fn led_text(state: bool) -> Seq<char> {
    if state { "1"@ } else { "0"@ }
}

/// An LED brightness file reads back the state last written to it.
pub proof fn lemma_led_file_reads_back(state: bool)
    ensures
        (trim(led_text(state)) != "0"@) == state,
{
    reveal_strlit("1");
    reveal_strlit("0");
    let t = led_text(state);
    assert(!crate::text::is_white_space(t[0]));
    assert(t.drop_last() =~= Seq::<char>::empty());
    assert(trim_start(t) == t);
    assert(trim_end(t) == t);
    if state {
        assert(t[0] != "0"@[0]);
    }
}

/// What setting the Linux LED comes to once the LED files were written.
#[derive(Clone, Copy, PartialEq, Eq, Structural, Debug)]
pub enum LedWriteOutcome {
    /// A file took the state: done.
    Written,
    /// No file took it, but `xset` can: set it through `xset`.
    TryXset,
    /// No file took it and there is no `xset`: fail.
    Failed,
}

/// The next step after writing the LED files: done where one of them was
/// written, the `xset` fallback where none was and X11 is there, a failure
/// otherwise.
pub fn after_led_writes(wrote: bool, use_xset: bool) -> (r: LedWriteOutcome)
    ensures
        r == if wrote {
            LedWriteOutcome::Written
        } else if use_xset {
            LedWriteOutcome::TryXset
        } else {
            LedWriteOutcome::Failed
        },
{
    if wrote {
        LedWriteOutcome::Written
    } else if use_xset {
        LedWriteOutcome::TryXset
    } else {
        LedWriteOutcome::Failed
    }
}

/// The `xset` argument that sets the Caps Lock LED to a state.
pub fn xset_led_arg(state: bool) -> (r: &'static str)
    ensures
        r@ == if state { "led"@ } else { "-led"@ },
{
    if state { "led" } else { "-led" }
}

/// Whether the Caps Lock key is toggled on, from its key state (the low bit).
pub fn caps_lock_toggled(key_state: i16) -> (r: bool)
    ensures
        r == (key_state % 2 != 0),
{
    let r = key_state & 1 != 0;
    assert((key_state & 1 != 0) == (key_state % 2 != 0)) by (bit_vector);
    r
}

/// Whether pressing Caps Lock is needed to reach `wanted`: whenever the
/// current state is not known to be `wanted`.
pub fn needs_toggle(current: Option<bool>, wanted: bool) -> (r: bool)
    ensures
        r == (current != Some(wanted)),
{
    match current {
        Some(c) => c != wanted,
        None => true,
    }
}

/// The name of the per-user file that holds the saved keyboard brightness.
pub open spec fn brightness_file_name_spec(user: Option<Seq<char>>) -> Seq<char> {
    "capslock-indicator-backlight-"@ + match user {
        Some(u) => u,
        None => "unknown"@,
    } + ".sav"@
}

/// The name of the file that keeps the brightness the user had before the
/// backlight went on (`unknown` where the user cannot be told).
pub fn brightness_file_name(user: Option<&str>) -> (r: String)
    ensures
        r@ == brightness_file_name_spec(match user {
            Some(u) => Some(u@),
            None => None,
        }),
{
    let mut name = "capslock-indicator-backlight-".to_owned();
    match user {
        Some(u) => name.append(u),
        None => name.append("unknown"),
    }
    name.append(".sav");
    name
}

} // verus!
