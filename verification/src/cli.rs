//! What the command line asks for.

use vstd::prelude::*;

use crate::duration::{does_overrun, human_duration, overruns, read_duration};
use crate::report::ColorWhen;

verus! {

/// What rshx was asked to do
#[derive(Debug)]
pub enum CliCommand {
    /// Run command or script on hosts
    Run(CliRunArgs),
    /// Check all hosts are available
    Ping,
    /// List the Hosts a run would select, without contacting any of them
    List,
}

/// How many commands run at once unless the command line says.
pub const DEFAULT_FANOUT: u32 = 32;

/// The options every subcommand takes.
#[derive(Debug)]
pub struct CliOptions {
    /// The host file listing the hosts to run on.
    pub host_file: Option<Vec<u8>>,
    /// How many commands run at once; a finish is replaced by a pending one.
    pub fanout: u32,
    /// Run only the Hosts these groups select.
    pub groups: Vec<String>,
    /// Hide each Host's stdout.
    pub quiet: bool,
    /// Show an `ok` Host's stderr; one that is not `ok` always shows stderr.
    pub stderr: bool,
    /// Run the command as root, with `sudo`, answering its password prompt
    /// from the terminal when a Host asks.
    pub privilege: bool,
    /// How long to wait for any one Host, in nanoseconds; without it there is
    /// no limit.
    pub timeout: Option<u128>,
    /// Write one JSON object per Host, one per line, instead of the plain
    /// report.
    pub json: bool,
    /// When to colour the report.
    pub color: ColorWhen,
}

/// What `run` is given: a script or a command, never both.
#[derive(Debug)]
pub struct CliRunArgs {
    /// Script file to run on every Host
    pub script: Option<Vec<u8>>,
    /// The command to run on every host, after `--`.
    pub command: Vec<String>,
    /// Start the command on every Host and return without waiting for it.
    pub detach: bool,
}

/// Run operations on many hosts over ssh.
#[derive(Debug)]
pub struct Cli {
    /// General options
    pub options: CliOptions,
    /// The operation asked for
    pub sub_command: CliCommand,
}

/// Reads `--timeout`'s value, such as `30s` or `5m`, as nanoseconds. `None` for
/// one whose whole seconds are the most a `u64` holds where what is smaller
/// comes to exactly one second more.
pub fn parse_timeout(text: &str) -> (r: Option<Result<u128, String>>)
    ensures
        overruns(text@) ==> r is None,
        !overruns(text@) ==> {
            &&& r is Some
            &&& match r->Some_0 {
                Ok(nanos) => human_duration(text@) == Ok::<u128, Seq<char>>(nanos),
                Err(why) => human_duration(text@) == Err::<u128, Seq<char>>(why@),
            }
        },
{
    if does_overrun(text) {
        return None;
    }
    Some(read_duration(text))
}

} // verus!
