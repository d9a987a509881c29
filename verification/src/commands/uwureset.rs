//! The reset command: replaces the whole board with a caller-supplied
//! JSON mapping.
//!
//! Only an administrator may run it.  The input is parsed before anything
//! is touched: on any failure the board stays exactly as it was, so a
//! snapshot taken after a failed reset equals the one from before,
//! byte for byte.  On
//! success the total is recomputed from the new mapping — a total supplied
//! by the caller would not be trusted — and the new total is confirmed.

use vstd::prelude::*;
use vstd::string::StringExecFns;
use crate::codec::{parse_scores_text, scores_of_json};
use crate::commands::{CommandSpec, OptionSpec};
use crate::digits::{dec_of, u64_to_string};
use crate::store::{sum_counts, try_sum_entries, Leaderboard};

verus! {

pub open spec fn denied_text() -> Seq<char> {
    "You must be an admin to run this command."@
}

pub open spec fn missing_option_text() -> Seq<char> {
    "The leaderboard must be a string in the command's argument. Nothing changed."@
}

pub open spec fn parse_error_text() -> Seq<char> {
    "Error parsing the leaderboard. Nothing changed."@
}

pub open spec fn overflow_text() -> Seq<char> {
    "The new counts sum beyond the counter's range. Nothing changed."@
}

pub open spec fn success_text(total: u64) -> Seq<char> {
    "New Uwu meeter: "@ + dec_of(total as nat)
}

/// Handles the reset command.  Returns the reply text and whether the
/// board changed (so the caller knows to persist it).
pub fn run(b: &mut Leaderboard, option: Option<&str>, invoker_is_admin: bool) -> (r: (
    String,
    bool,
))
    requires
        old(b).wf(),
    ensures
        final(b).wf(),
        !r.1 ==> *final(b) == *old(b),
        (match (invoker_is_admin, option) {
            (false, _) => !r.1 && r.0@ == denied_text(),
            (true, None) => !r.1 && r.0@ == missing_option_text(),
            (true, Some(s)) => (match scores_of_json(s@) {
                None => !r.1 && r.0@ == parse_error_text(),
                Some(es) => if sum_counts(es) > u64::MAX {
                    !r.1 && r.0@ == overflow_text()
                } else {
                    r.1 && final(b).scores_seq() == es && final(b).spec_total() as nat
                        == sum_counts(es) && r.0@ == success_text(final(b).spec_total())
                },
            }),
        }),
{
    if !invoker_is_admin {
        return (String::from_str("You must be an admin to run this command."), false);
    }
    match option {
        None => (
            String::from_str(
                "The leaderboard must be a string in the command's argument. Nothing changed.",
            ),
            false,
        ),
        Some(text) => match parse_scores_text(text) {
            None => (String::from_str("Error parsing the leaderboard. Nothing changed."), false),
            Some(entries) => match try_sum_entries(&entries) {
                None => (
                    String::from_str(
                        "The new counts sum beyond the counter's range. Nothing changed.",
                    ),
                    false,
                ),
                Some(_) => {
                    b.replace_all(entries);
                    let mut out = String::from_str("New Uwu meeter: ");
                    let total_text = u64_to_string(b.total());
                    out.append(total_text.as_str());
                    (out, true)
                },
            },
        },
    }
}

/// Describes the reset command for registration: one required string
/// option carrying the new mapping.
pub fn register() -> (c: CommandSpec)
    ensures
        c.name@ == "uwureset"@,
        c.description@ == "Reset the current ladder with the given leaderbord (JSON)"@,
        c.options@.len() == 1,
        c.options@[0].name@ == "newleaderboard"@,
        c.options@[0].description@
            == "A JSON file. Must be in this structure: {\"1234\":4, \"5678\":2}"@,
        c.options@[0].required == true,
{
    let mut options: Vec<OptionSpec> = Vec::new();
    options.push(
        OptionSpec {
            name: String::from_str("newleaderboard"),
            description: String::from_str(
                "A JSON file. Must be in this structure: {\"1234\":4, \"5678\":2}",
            ),
            required: true,
        },
    );
    CommandSpec {
        name: String::from_str("uwureset"),
        description: String::from_str("Reset the current ladder with the given leaderbord (JSON)"),
        options,
    }
}

} // verus!
