//! The commands of the command-line front end.

use vstd::prelude::*;

verus! {

/// What `config` can set.
#[derive(Clone, Copy, Debug, PartialEq, Eq, Structural)]
pub enum ConfigCommand {
    /// The game's location.
    NoitaPath,
}

/// One command.
#[derive(Clone, Debug, PartialEq, Eq)]
pub enum Command {
    /// Add a mod profile.
    Add { profile: String },
    /// Remove a mod profile.
    Remove { profile: String },
    /// List the mod profiles.
    List,
    /// Switch to a mod profile.
    Switch { profile: String },
    /// Edit a mod profile, the active one where none is named.
    Edit { profile: Option<String> },
    /// Show or change the settings.
    Config { command: Option<ConfigCommand>, path: bool },
}

/// A parsed command line.
#[derive(Clone, Debug, PartialEq, Eq)]
pub struct NoitdCli {
    pub command: Command,
}

} // verus!
