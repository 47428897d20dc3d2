//! The command model of the command-line tool: which subcommand was asked
//! for, and with which profile path. Argument parsing itself is a caller's
//! concern; this is the plain shape it produces.

use vstd::prelude::*;

verus! {

/// The parsed command line: one subcommand.
pub struct ClickrArgs {
    pub mode: ClickrSubcommand,
}

/// The subcommands of the tool.
pub enum ClickrSubcommand {
    /// Check the given profile and report any issues.
    Check { profile: Option<String> },
    /// Check and activate the given profile.
    Load { profile: Option<String> },
    /// Report the status of the daemon.
    Status {},
    /// Visualize the current profile.
    Show { profile: Option<String> },
    /// Pause the remapping of all inputs.
    Pause {},
    /// Resume the remapping of all inputs.
    Resume {},
}

} // verus!
