//! Decoders for the output of Android's device bridge and flash tools:
//! device enumeration lines, the length-framed device-tracking feed, and the
//! long text and dense binary log formats. Each decoder reads from a growing
//! byte buffer, takes only whole units from its front and asks for more
//! bytes otherwise.
use vstd::prelude::*;

pub mod battery;
pub mod cache;
pub mod cli;
pub mod devices;
pub mod init_shell;
pub mod logcat;
pub mod logcat_text;
pub mod round_trip;
pub mod strings;
pub mod timestamp;
pub mod widgets;
