//! Drive a keyboard light (the Caps Lock LED or a keyboard backlight) as a
//! status light for a coding agent: the verified core of the tool.

pub mod led;
pub mod text;
pub mod cli;
pub mod json;
pub mod json_text;
pub mod hooks;
pub mod daemon;
