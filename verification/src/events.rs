//! Event ingestion: from one inbound gateway event to the bot's response.
//!
//! The gateway hands events in as plain values; `handle_event` decides
//! everything — keyword counting, command dispatch, what to reply and
//! what to persist — and the caller only performs the I/O it is told to.
//! One owner holds the board and feeds it events one at a time, so every
//! operation on the scoreboard is serialized and no caller can observe a
//! half-applied mutation.
//! A message from an automated account, or one without the keyword,
//! changes nothing.  An unrecognized command is answered, not treated as
//! unreachable.

use vstd::prelude::*;
use vstd::string::{StrSliceExecFns, StringExecFns};
use crate::codec::{chars_of, json_of_scores, json_of_snapshot, save_snapshot, scores_of_json};
use crate::commands::{uwuexport, uwulead, uwume, uwumeeter, uwureset};
use crate::digits::dec_of;
use crate::store::{bumped, count_of, lookup, sum_counts, Leaderboard};

verus! {

/// An inbound gateway event, reduced to plain values.
pub enum GatewayEvent {
    /// A chat message: who wrote it, whether the author is an automated
    /// account, and the text.
    Message { author: u64, author_is_bot: bool, content: String },
    /// A slash-command invocation: the command's name, the invoking user,
    /// whether that user is an administrator, and the first string option
    /// if one was supplied.
    Command { name: String, invoker: u64, invoker_is_admin: bool, option: Option<String> },
}

/// The two texts to persist after a mutation: the total under the count
/// key and the wrapped mapping under the leaderboard key.
pub struct SnapshotText {
    pub count_text: String,
    pub board_text: String,
}

/// What the bot must do for one event: reply with some text, persist the
/// new snapshot, both, or nothing.
pub struct Outcome {
    pub reply: Option<String>,
    pub save: Option<SnapshotText>,
}

/// The keyword stands at position `i` of `s`, in either letter case.
pub open spec fn keyword_at(s: Seq<char>, i: int) -> bool {
    &&& 0 <= i
    &&& i + 3 <= s.len()
    &&& (s[i] == 'u' || s[i] == 'U')
    &&& (s[i + 1] == 'w' || s[i + 1] == 'W')
    &&& (s[i + 2] == 'u' || s[i + 2] == 'U')
}

/// Case-insensitive substring test for the keyword.
pub open spec fn has_keyword(s: Seq<char>) -> bool {
    exists|i: int| keyword_at(s, i)
}

/// Decides whether a message text contains the keyword.
pub fn contains_keyword(s: &str) -> (r: bool)
    ensures
        r == has_keyword(s@),
{
    let v = chars_of(s);
    let n = v.len();
    if n < 3 {
        proof {
            assert forall|j: int| !keyword_at(s@, j) by {}
        }
        return false;
    }
    let mut i: usize = 0;
    while i <= n - 3
        invariant
            3 <= n,
            n == s@.len(),
            v@ == s@,
            0 <= i <= n - 2,
            forall|j: int| 0 <= j < i ==> !keyword_at(s@, j),
        decreases n - i,
    {
        let c0 = v[i];
        let c1 = v[i + 1];
        let c2 = v[i + 2];
        if (c0 == 'u' || c0 == 'U') && (c1 == 'w' || c1 == 'W') && (c2 == 'u' || c2 == 'U') {
            proof {
                assert(keyword_at(s@, i as int));
            }
            return true;
        }
        i += 1;
    }
    proof {
        assert forall|j: int| !keyword_at(s@, j) by {
            if 0 <= j && j + 3 <= s@.len() {
                assert(j < i);
            }
        }
    }
    false
}

/// Decides whether two strings hold the same characters.
fn str_eq(a: &str, b: &str) -> (r: bool)
    ensures
        r == (a@ == b@),
{
    let an = a.unicode_len();
    let bn = b.unicode_len();
    if an != bn {
        return false;
    }
    let mut i: usize = 0;
    while i < an
        invariant
            0 <= i <= an,
            an == a@.len(),
            an == b@.len(),
            forall|j: int| 0 <= j < i ==> a@[j] == b@[j],
        decreases an - i,
    {
        let ca = a.get_char(i);
        let cb = b.get_char(i);
        if ca != cb {
            return false;
        }
        i += 1;
    }
    proof {
        assert(a@ =~= b@);
    }
    true
}

/// The reply to a command name the bot does not know.
pub open spec fn unsupported_text() -> Seq<char> {
    "Unsupported command."@
}

/// Routes one gateway event.
///
/// A message from a human that contains the keyword increments the
/// author's count by one and asks for a save; any other message does
/// nothing.  A command is answered with its handler's text; only a
/// successful reset changes the board, and only then is a save asked for.
pub fn handle_event(b: &mut Leaderboard, ev: &GatewayEvent) -> (r: Outcome)
    requires
        old(b).wf(),
        ev matches GatewayEvent::Message { .. } ==> old(b).spec_total() < u64::MAX,
    ensures
        final(b).wf(),
        (match ev {
            GatewayEvent::Message { author, author_is_bot, content } => {
                if !*author_is_bot && has_keyword(content@) {
                    &&& final(b).scores_seq() == bumped(old(b).scores_seq(), *author, 1)
                    &&& final(b).spec_total() == old(b).spec_total() + 1
                    &&& lookup(final(b).scores_seq(), *author) == Some(
                        (count_of(old(b).scores_seq(), *author) + 1) as u64,
                    )
                    &&& (forall|w: u64|
                        w != *author ==> #[trigger] lookup(final(b).scores_seq(), w) == lookup(
                            old(b).scores_seq(),
                            w,
                        ))
                    &&& r.reply is None
                    &&& (r.save matches Some(st) && st.count_text@ == dec_of(
                        final(b).spec_total() as nat,
                    ) && st.board_text@ == json_of_snapshot(final(b).scores_seq()))
                } else {
                    *final(b) == *old(b) && r.reply is None && r.save is None
                }
            },
            GatewayEvent::Command { name, invoker, invoker_is_admin, option } => {
                if name@ == "uwumeeter"@ {
                    &&& *final(b) == *old(b)
                    &&& r.save is None
                    &&& (r.reply matches Some(t) && t@ == uwumeeter::meter_text(
                        old(b).spec_total(),
                    ))
                } else if name@ == "uwulead"@ {
                    &&& *final(b) == *old(b)
                    &&& r.save is None
                    &&& (r.reply matches Some(t) && t@ == uwulead::lead_text(
                        old(b).scores_seq(),
                    ))
                } else if name@ == "uwume"@ {
                    &&& *final(b) == *old(b)
                    &&& r.save is None
                    &&& (r.reply matches Some(t) && t@ == uwulead::entry_line(
                        (*invoker, count_of(old(b).scores_seq(), *invoker)),
                    ))
                } else if name@ == "uwuexport"@ {
                    &&& *final(b) == *old(b)
                    &&& r.save is None
                    &&& (r.reply matches Some(t) && t@ == json_of_scores(old(b).scores_seq()))
                } else if name@ == "uwureset"@ {
                    (match (*invoker_is_admin, option) {
                        (false, _) => *final(b) == *old(b) && r.save is None && (r.reply
                            matches Some(t) && t@ == uwureset::denied_text()),
                        (true, None) => *final(b) == *old(b) && r.save is None && (r.reply
                            matches Some(t) && t@ == uwureset::missing_option_text()),
                        (true, Some(s)) => (match scores_of_json(s@) {
                            None => *final(b) == *old(b) && r.save is None && (r.reply
                                matches Some(t) && t@ == uwureset::parse_error_text()),
                            Some(es) => if sum_counts(es) > u64::MAX {
                                *final(b) == *old(b) && r.save is None && (r.reply matches Some(t)
                                    && t@ == uwureset::overflow_text())
                            } else {
                                &&& final(b).scores_seq() == es
                                &&& final(b).spec_total() as nat == sum_counts(es)
                                &&& (r.reply matches Some(t) && t@ == uwureset::success_text(
                                    final(b).spec_total(),
                                ))
                                &&& (r.save matches Some(st) && st.count_text@ == dec_of(
                                    final(b).spec_total() as nat,
                                ) && st.board_text@ == json_of_snapshot(final(b).scores_seq()))
                            },
                        }),
                    })
                } else {
                    &&& *final(b) == *old(b)
                    &&& r.save is None
                    &&& (r.reply matches Some(t) && t@ == unsupported_text())
                }
            },
        }),
{
    match ev {
        GatewayEvent::Message { author, author_is_bot, content } => {
            if !*author_is_bot && contains_keyword(content.as_str()) {
                b.update_score(*author, 1);
                let (count_text, board_text) = save_snapshot(b);
                Outcome { reply: None, save: Some(SnapshotText { count_text, board_text }) }
            } else {
                Outcome { reply: None, save: None }
            }
        },
        GatewayEvent::Command { name, invoker, invoker_is_admin, option } => {
            if str_eq(name.as_str(), "uwumeeter") {
                Outcome { reply: Some(uwumeeter::run(b)), save: None }
            } else if str_eq(name.as_str(), "uwulead") {
                Outcome { reply: Some(uwulead::run(b)), save: None }
            } else if str_eq(name.as_str(), "uwume") {
                Outcome { reply: Some(uwume::run(b, *invoker)), save: None }
            } else if str_eq(name.as_str(), "uwuexport") {
                Outcome { reply: Some(uwuexport::run(b)), save: None }
            } else if str_eq(name.as_str(), "uwureset") {
                let opt_text: Option<&str> = match option {
                    Some(s) => Some(s.as_str()),
                    None => None,
                };
                let (reply, changed) = uwureset::run(b, opt_text, *invoker_is_admin);
                if changed {
                    let (count_text, board_text) = save_snapshot(b);
                    Outcome {
                        reply: Some(reply),
                        save: Some(SnapshotText { count_text, board_text }),
                    }
                } else {
                    Outcome { reply: Some(reply), save: None }
                }
            } else {
                Outcome { reply: Some(String::from_str("Unsupported command.")), save: None }
            }
        },
    }
}

} // verus!
