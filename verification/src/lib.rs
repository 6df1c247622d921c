//! rshx: run one command on many hosts over ssh, with a bounded fanout and a
//! readable per-host report.

use vstd::prelude::*;

pub mod bytes;
pub mod cause;
pub mod cli;
pub mod duration;
pub mod heartbeat;
pub mod host;
pub mod interrupt;
pub mod privilege;
pub mod remote;
pub mod report;
pub mod run;
pub mod style;
pub mod text;

verus! {

/// Every Host was `ok`.
pub const EXIT_OK: u8 = 0;

/// A local error: the host file is missing or malformed.
pub const EXIT_LOCAL: u8 = 1;

/// At least one Host `failed`.
pub const EXIT_FAILED: u8 = 2;

/// At least one Host was `unreachable` (or `timeout`).
pub const EXIT_UNREACHABLE: u8 = 4;

/// The command line could not be understood. Not the argument parser's usual
/// `2`, which means "a Host failed".
pub const EXIT_USAGE: u8 = 5;

/// The run was interrupted.
pub const EXIT_INTERRUPTED: u8 = 99;

/// The exit code when no run was started: the command line asked for help or
/// for the version (`informational`), or could not be understood.
pub fn command_line_exit(informational: bool) -> (code: u8)
    ensures
        code == if informational { EXIT_OK } else { EXIT_USAGE },
{
    if informational {
        EXIT_OK
    } else {
        EXIT_USAGE
    }
}

} // verus!
