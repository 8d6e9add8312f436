//! The commands of the program, as plain values.
use vstd::prelude::*;

verus! {

/// A subcommand.
#[derive(Debug, PartialEq, Eq)]
pub enum Command {
    /// Interactive list of devices.
    List,
    /// Clear the device cache.
    ClearCache,
    /// Product of the selected device.
    CurrentProduct,
    /// Print the shell integration function.
    InitShell { shell: String },
    /// Select a device for the current shell.
    Select,
    /// Battery level of the selected device.
    Battery,
    /// Live log of the selected device.
    Logcat,
}

/// The command line.
#[derive(Debug)]
pub struct Args {
    pub command: Command,
}

/// Whether `command` takes over the terminal.
pub open spec fn takes_terminal(command: Command) -> bool {
    command is List || command is Logcat
}

/// Whether the command runs in a full-screen terminal interface.
pub fn is_tui(args: &Args) -> (r: bool)
    ensures
        r == takes_terminal(args.command),
{
    match args.command {
        Command::List | Command::Logcat => true,
        _ => false,
    }
}

} // verus!
