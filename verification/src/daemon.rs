//! The blink daemon: its pid file, its command line, and the decisions of
//! its blink loop.
use vstd::prelude::*;
use vstd::string::*;
use crate::led::{Target, target_name};
use crate::text::{trim, trim_bounds, parse_u32_spec, parse_u32_between, digit_char, decimal, lemma_decimal_parses};

verus! {

/// The name of the per-user file that holds the daemon's pid.
pub open spec fn pid_file_name_spec(user: Option<Seq<char>>) -> Seq<char> {
    "capslock-indicator-"@ + match user {
        Some(u) => u,
        None => "unknown"@,
    } + ".pid"@
}

/// The name of the daemon's pid file for `user` (`unknown` where the user
/// cannot be told).
pub fn pid_file_name(user: Option<&str>) -> (r: String)
    ensures
        r@ == pid_file_name_spec(match user {
            Some(u) => Some(u@),
            None => None,
        }),
{
    let mut name = "capslock-indicator-".to_owned();
    match user {
        Some(u) => name.append(u),
        None => name.append("unknown"),
    }
    name.append(".pid");
    name
}

/// The daemon's pid as the pid file holds it: the file's text, trimmed, as a
/// decimal `u32`.
pub fn parse_pid(contents: &str) -> (r: Option<u32>)
    ensures
        r == parse_u32_spec(trim(contents@)),
{
    let (a, b) = trim_bounds(contents);
    parse_u32_between(contents, a, b)
}

/// The text of one decimal digit.
fn digit_text(d: u32) -> (r: &'static str)
    requires
        d < 10,
    ensures
        r@ == seq![digit_char(d as int)],
{
    proof {
        reveal_strlit("0");
        reveal_strlit("1");
        reveal_strlit("2");
        reveal_strlit("3");
        reveal_strlit("4");
        reveal_strlit("5");
        reveal_strlit("6");
        reveal_strlit("7");
        reveal_strlit("8");
        reveal_strlit("9");
    }
    if d == 0 {
        "0"
    } else if d == 1 {
        "1"
    } else if d == 2 {
        "2"
    } else if d == 3 {
        "3"
    } else if d == 4 {
        "4"
    } else if d == 5 {
        "5"
    } else if d == 6 {
        "6"
    } else if d == 7 {
        "7"
    } else if d == 8 {
        "8"
    } else {
        "9"
    }
}

/// The text that the pid file holds for the daemon's pid: its decimal
/// digits.
pub fn pid_text(pid: u32) -> (r: String)
    ensures
        r@ == decimal(pid as nat),
    decreases pid,
{
    let d = digit_text(pid % 10);
    if pid < 10 {
        d.to_owned()
    } else {
        let mut s = pid_text(pid / 10);
        s.append(d);
        s
    }
}

/// What the pid file holds for a pid reads back as that pid.
pub proof fn lemma_pid_round_trip(pid: u32)
    ensures
        parse_u32_spec(trim(decimal(pid as nat))) == Some(pid),
{
    lemma_decimal_parses(pid);
}

/// The command-line arguments with which the program starts itself as the
/// blink daemon: `_daemon`, the interval, the target.
pub fn daemon_arguments(interval: &str, target: Target) -> (r: Vec<String>)
    ensures
        r@.len() == 3,
        r@[0]@ == "_daemon"@,
        r@[1]@ == interval@,
        r@[2]@ == target_name(target),
{
    let mut r: Vec<String> = Vec::new();
    r.push("_daemon".to_owned());
    r.push(interval.to_owned());
    r.push(target.as_str().to_owned());
    r
}

/// What the blink loop does after reading the idle time.
#[derive(Clone, Copy, PartialEq, Eq, Structural, Debug)]
pub enum BlinkAction {
    /// Keep blinking.
    Continue,
    /// The user touched an input device: turn the light off and exit.
    Stop,
}

/// The state of the blink loop between ticks.
pub struct Blinker {
    /// The state that the next tick gives the light.
    pub light: bool,
    /// The idle time read at the last reading that gave one.
    pub prev_idle: Option<u64>,
    /// Half the blink interval, in milliseconds.
    pub half_interval_ms: u64,
}

impl Blinker {
    /// How far the idle time must drop below the last reading to count as
    /// user input: half the interval in milliseconds, plus 50.
    pub open spec fn margin(self) -> int {
        self.half_interval_ms + 50
    }

    /// The margin is half the interval plus 50 ms, whatever the light's
    /// phase: a drop in the idle time stops the loop just as well after a
    /// dark tick as after a lit one.
    pub proof fn lemma_margin(self)
        ensures
            self.margin() == self.half_interval_ms + 50,
            self.margin() == (Blinker { light: !self.light, ..self }).margin(),
    {
    }

    /// The loop before its first tick: the light goes on first, and
    /// `first_idle` is the idle time read before the loop.
    pub fn new(half_interval_ms: u64, first_idle: Option<u64>) -> (r: Blinker)
        ensures
            r.light,
            r.prev_idle == first_idle,
            r.half_interval_ms == half_interval_ms,
    {
        Blinker { light: true, prev_idle: first_idle, half_interval_ms }
    }

    /// The state to give the light at this tick; the next tick gives the
    /// other state.
    pub fn tick(&mut self) -> (r: bool)
        ensures
            r == old(self).light,
            final(self).light == !old(self).light,
            final(self).prev_idle == old(self).prev_idle,
            final(self).half_interval_ms == old(self).half_interval_ms,
    {
        let r = self.light;
        self.light = !self.light;
        r
    }

    /// Takes an idle-time reading (`None` where the system gives none). A
    /// drop of more than the margin below the last reading means the user
    /// touched an input device, and the loop stops. Otherwise a reading
    /// becomes the last one, and no reading changes nothing.
    pub fn observe_idle(&mut self, reading: Option<u64>) -> (r: BlinkAction)
        requires
            reading matches Some(cur) ==> cur + old(self).half_interval_ms + 50 <= u64::MAX,
        ensures
            (r == BlinkAction::Stop) == (reading matches Some(cur)
                && old(self).prev_idle matches Some(prev)
                && cur + old(self).margin() < prev),
            (r == BlinkAction::Stop) == (reading matches Some(cur)
                && old(self).prev_idle matches Some(prev)
                && cur + old(self).half_interval_ms + 50 < prev),
            r == BlinkAction::Stop ==> *final(self) == *old(self),
            r == BlinkAction::Continue ==> final(self).prev_idle == match reading {
                Some(cur) => Some(cur),
                None => old(self).prev_idle,
            },
            final(self).light == old(self).light,
            final(self).half_interval_ms == old(self).half_interval_ms,
    {
        match reading {
            Some(cur) => {
                let margin = self.half_interval_ms + 50;
                let dropped = match self.prev_idle {
                    Some(prev) => cur + margin < prev,
                    None => false,
                };
                if dropped {
                    BlinkAction::Stop
                } else {
                    self.prev_idle = Some(cur);
                    BlinkAction::Continue
                }
            },
            None => BlinkAction::Continue,
        }
    }
}

/// The process to signal when stopping the daemon whose pid file holds
/// `pid`: none for 0 (which would signal the caller's own process group) or
/// for a value beyond `i32` (which would turn negative and signal other
/// processes).
pub fn signal_pid(pid: u32) -> (r: Option<i32>)
    ensures
        r == if 0 < pid <= i32::MAX {
            Some(pid as i32)
        } else {
            None::<i32>
        },
{
    if pid > 0 && pid <= 2147483647 {
        Some(pid as i32)
    } else {
        None
    }
}

/// The idle time in milliseconds from the HID system's idle time in
/// nanoseconds, where it was read and is not negative.
pub fn idle_millis_from_nanos(ok: bool, nanos: i64) -> (r: Option<u64>)
    ensures
        r == if ok && nanos >= 0 {
            Some((nanos / 1_000_000) as u64)
        } else {
            None::<u64>
        },
{
    if ok && nanos >= 0 {
        Some(nanos as u64 / 1_000_000)
    } else {
        None
    }
}

/// The idle time in milliseconds from the millisecond tick count now and at
/// the last input; the count wraps around.
pub fn idle_millis_from_ticks(now: u32, last_input: u32) -> (r: u64)
    ensures
        r == if now >= last_input {
            (now - last_input) as int
        } else {
            now - last_input + 0x1_0000_0000
        },
{
    now.wrapping_sub(last_input) as u64
}

} // verus!
