//! The leaderboard command: the ten best-ranked users, one line each.

use vstd::prelude::*;
use vstd::string::StringExecFns;
use crate::commands::CommandSpec;
use crate::digits::{dec_of, u64_to_string};
use crate::store::{top_view, Leaderboard};

verus! {

/// One leaderboard line: a mention of the user and the user's count.
pub open spec fn entry_line(e: (u64, u64)) -> Seq<char> {
    "<@"@ + dec_of(e.0 as nat) + ">: "@ + dec_of(e.1 as nat) + "\n"@
}

/// The lines for a sequence of entries, in order.
pub open spec fn lines_of(s: Seq<(u64, u64)>) -> Seq<char>
    decreases s.len(),
{
    if s.len() == 0 {
        Seq::empty()
    } else {
        entry_line(s[0]) + lines_of(s.drop_first())
    }
}

/// The full leaderboard response: a header, then the ten best entries.
pub open spec fn lead_text(board: Seq<(u64, u64)>) -> Seq<char> {
    "UwU Leaderboard:\n"@ + lines_of(top_view(board, 10))
}

/// Appends one leaderboard line for `e`.
pub fn push_entry_line(out: &mut String, e: (u64, u64))
    ensures
        final(out)@ == old(out)@ + entry_line(e),
{
    out.append("<@");
    let user_text = u64_to_string(e.0);
    out.append(user_text.as_str());
    out.append(">: ");
    let count_text = u64_to_string(e.1);
    out.append(count_text.as_str());
    out.append("\n");
    proof {
        assert(out@ =~= old(out)@ + entry_line(e));
    }
}

fn push_lines(out: &mut String, entries: &Vec<(u64, u64)>, from: usize)
    requires
        from <= entries@.len(),
    ensures
        final(out)@ == old(out)@ + lines_of(entries@.subrange(from as int, entries@.len() as int)),
    decreases entries@.len() - from,
{
    let n = entries.len();
    let ghost tail = entries@.subrange(from as int, n as int);
    if from < n {
        push_entry_line(out, entries[from]);
        push_lines(out, entries, from + 1);
        proof {
            assert(tail[0] == entries@[from as int]);
            assert(tail.drop_first() =~= entries@.subrange(from + 1, n as int));
            assert(out@ =~= old(out)@ + lines_of(tail));
        }
    } else {
        proof {
            assert(tail.len() == 0);
            assert(out@ =~= old(out)@ + lines_of(tail));
        }
    }
}

/// Renders the leaderboard response from the current board.
pub fn run(b: &Leaderboard) -> (r: String)
    ensures
        r@ == lead_text(b.scores_seq()),
{
    let top = b.top_n(10);
    let mut out = String::from_str("UwU Leaderboard:\n");
    push_lines(&mut out, &top, 0);
    proof {
        assert(top@.subrange(0, top@.len() as int) =~= top@);
        assert(out@ =~= lead_text(b.scores_seq()));
    }
    out
}

/// Describes the leaderboard command for registration.
pub fn register() -> (c: CommandSpec)
    ensures
        c.name@ == "uwulead"@,
        c.description@ == "Display the UwU leaderboard"@,
        c.options@.len() == 0,
{
    CommandSpec {
        name: String::from_str("uwulead"),
        description: String::from_str("Display the UwU leaderboard"),
        options: Vec::new(),
    }
}

} // verus!
