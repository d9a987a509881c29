//! The slash commands: their registration data and their handlers.
//!
//! Each command module offers `register`, which describes the command for
//! the gateway, and `run`, a pure handler that turns the current board
//! (and the command's input, where it has one) into the response text.

pub mod uwuexport;
pub mod uwulead;
pub mod uwume;
pub mod uwumeeter;
pub mod uwureset;

use vstd::prelude::*;

verus! {

/// One option of a slash command, as handed to the gateway at
/// registration time.
pub struct OptionSpec {
    pub name: String,
    pub description: String,
    pub required: bool,
}

/// Declarative description of one slash command, as handed to the
/// gateway at registration time.
pub struct CommandSpec {
    pub name: String,
    pub description: String,
    pub options: Vec<OptionSpec>,
}

} // verus!
