//! The export command: the whole mapping as JSON text.
//!
//! The encoder is total, so no serialization-failure reply is needed:
//! every board has an encoding.

use vstd::prelude::*;
use vstd::string::StringExecFns;
use crate::codec::{encode_scores_text, json_of_scores};
use crate::commands::CommandSpec;
use crate::store::Leaderboard;

verus! {

/// Renders the full per-user mapping as JSON text.
pub fn run(b: &Leaderboard) -> (r: String)
    ensures
        r@ == json_of_scores(b.scores_seq()),
{
    let (_, entries) = b.snapshot();
    encode_scores_text(&entries)
}

/// Describes the export command for registration.
pub fn register() -> (c: CommandSpec)
    ensures
        c.name@ == "uwuexport"@,
        c.description@ == "Export the leaderbord to the chat."@,
        c.options@.len() == 0,
{
    CommandSpec {
        name: String::from_str("uwuexport"),
        description: String::from_str("Export the leaderbord to the chat."),
        options: Vec::new(),
    }
}

} // verus!
