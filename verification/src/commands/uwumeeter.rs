//! The meter command: the aggregate total as text.

use vstd::prelude::*;
use vstd::string::StringExecFns;
use crate::commands::CommandSpec;
use crate::digits::{dec_of, u64_to_string};
use crate::store::Leaderboard;

verus! {

/// The meter response for a given total.
pub open spec fn meter_text(total: u64) -> Seq<char> {
    "UwU meter: "@ + dec_of(total as nat)
}

/// Renders the meter response from the current board.
pub fn run(b: &Leaderboard) -> (r: String)
    ensures
        r@ == meter_text(b.spec_total()),
{
    let mut out = String::from_str("UwU meter: ");
    let total_text = u64_to_string(b.total());
    out.append(total_text.as_str());
    out
}

/// Describes the meter command for registration.
pub fn register() -> (c: CommandSpec)
    ensures
        c.name@ == "uwumeeter"@,
        c.description@ == "Display the total of UwU"@,
        c.options@.len() == 0,
{
    CommandSpec {
        name: String::from_str("uwumeeter"),
        description: String::from_str("Display the total of UwU"),
        options: Vec::new(),
    }
}

} // verus!
