//! Command-line options as plain data, and their normalization rule.

use vstd::prelude::*;

verus! {

/// The subcommand selected on the command line.
#[derive(Clone, Debug, PartialEq, Eq)]
pub enum Command {
    /// Capture the compiler invocation and persist it.
    Init {
        /// Redo the capture even when a persisted invocation already exists.
        force: bool,
    },
    /// Replay the persisted invocation on one source file.
    Run {
        /// Path of the source file handed to the compiler.
        rs_path: String,
        /// Extra arguments appended verbatim after the captured ones.
        last_args: Vec<String>,
    },
}

/// Global options together with the selected subcommand.
#[derive(Clone, Debug, PartialEq, Eq)]
pub struct Cli {
    /// Print internal diagnostics.
    pub debug: bool,
    /// Print progress messages.
    pub verbose: bool,
    /// The subcommand to perform.
    pub command: Command,
}

/// Normalize freshly parsed options: asking for debug output implies verbose
/// output; everything else is kept as given.
pub fn parse_cli(cli: Cli) -> (r: Cli)
    ensures
        r.debug == cli.debug,
        r.verbose == (cli.verbose || cli.debug),
        r.command == cli.command,
{
    let Cli { debug, verbose, command } = cli;
    Cli { debug, verbose: verbose || debug, command }
}

} // verus!
