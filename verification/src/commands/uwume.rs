//! The personal-score command: the invoking user's own count.

use vstd::prelude::*;
use crate::commands::uwulead::{entry_line, push_entry_line};
use crate::commands::CommandSpec;
use crate::store::{count_of, Leaderboard};
use vstd::string::StringExecFns;

verus! {

/// Renders the invoking user's count, zero when never counted.
pub fn run(b: &Leaderboard, user: u64) -> (r: String)
    ensures
        r@ == entry_line((user, count_of(b.scores_seq(), user))),
{
    let count = b.get(user);
    let mut out = String::new();
    push_entry_line(&mut out, (user, count));
    proof {
        assert(out@ =~= entry_line((user, count)));
    }
    out
}

/// Describes the personal-score command for registration.
pub fn register() -> (c: CommandSpec)
    ensures
        c.name@ == "uwume"@,
        c.description@ == "Display your UwU count"@,
        c.options@.len() == 0,
{
    CommandSpec {
        name: String::from_str("uwume"),
        description: String::from_str("Display your UwU count"),
        options: Vec::new(),
    }
}

} // verus!
