//! The persisted snapshot format and the reset-command input format.
//!
//! A score mapping is written as a flat JSON object whose keys are the
//! users' decimal identifiers and whose values are their counts, for
//! example `{"1234":4,"5678":2}`.  The persisted snapshot wraps that
//! object as `{"scores":{...}}`.  The encoder always produces this
//! canonical text; the parser also accepts whitespace between tokens,
//! rejects anything else, and rejects duplicate users and numbers that do
//! not fit in 64 bits.  `lemma_scores_round_trip` and
//! `lemma_snapshot_round_trip` show that parsing an encoded board gives
//! back exactly the board.

use vstd::prelude::*;
use vstd::string::StringExecFns;
use crate::digits::{dec_of, digit_val, digits_val, is_digit, lemma_dec_of, u64_to_string};
use crate::store::{sum_counts, try_sum_entries, unique_keys, Leaderboard};

verus! {

/// Canonical text of one entry: `"user":count`.
pub open spec fn json_of_entry(e: (u64, u64)) -> Seq<char> {
    seq!['"'] + dec_of(e.0 as nat) + seq!['"', ':'] + dec_of(e.1 as nat)
}

/// Canonical text of the entry list, comma separated.
pub open spec fn json_of_entries(s: Seq<(u64, u64)>) -> Seq<char>
    decreases s.len(),
{
    if s.len() == 0 {
        Seq::empty()
    } else if s.len() == 1 {
        json_of_entry(s[0])
    } else {
        json_of_entry(s[0]) + seq![','] + json_of_entries(s.drop_first())
    }
}

/// Canonical text of a score mapping: `{"u":c,...}`.
pub open spec fn json_of_scores(s: Seq<(u64, u64)>) -> Seq<char> {
    seq!['{'] + json_of_entries(s) + seq!['}']
}

/// Canonical text of the persisted snapshot: `{"scores":{...}}`.
pub open spec fn json_of_snapshot(s: Seq<(u64, u64)>) -> Seq<char> {
    "{\"scores\":"@ + json_of_scores(s) + seq!['}']
}

fn push_str_text(out: &mut String, piece: &str)
    ensures
        final(out)@ == old(out)@ + piece@,
{
    out.append(piece);
}

fn push_entry_text(out: &mut String, e: (u64, u64))
    ensures
        final(out)@ == old(out)@ + json_of_entry(e),
{
    let quote = "\"";
    let quote_colon = "\":";
    proof {
        reveal_strlit("\"");
        reveal_strlit("\":");
    }
    push_str_text(out, quote);
    let key_text = u64_to_string(e.0);
    push_str_text(out, key_text.as_str());
    push_str_text(out, quote_colon);
    let count_text = u64_to_string(e.1);
    push_str_text(out, count_text.as_str());
    proof {
        assert(quote@ =~= seq!['"']);
        assert(quote_colon@ =~= seq!['"', ':']);
        assert(out@ =~= old(out)@ + json_of_entry(e));
    }
}

fn push_entries_text(out: &mut String, entries: &Vec<(u64, u64)>, from: usize)
    requires
        from <= entries@.len(),
    ensures
        final(out)@ == old(out)@ + json_of_entries(
            entries@.subrange(from as int, entries@.len() as int),
        ),
    decreases entries@.len() - from,
{
    let n = entries.len();
    let ghost tail = entries@.subrange(from as int, n as int);
    if from == n {
        proof {
            assert(tail.len() == 0);
            assert(out@ =~= old(out)@ + json_of_entries(tail));
        }
    } else if from == n - 1 {
        push_entry_text(out, entries[from]);
        proof {
            assert(tail.len() == 1);
            assert(tail[0] == entries@[from as int]);
            assert(out@ =~= old(out)@ + json_of_entries(tail));
        }
    } else {
        push_entry_text(out, entries[from]);
        let comma = ",";
        proof {
            reveal_strlit(",");
        }
        push_str_text(out, comma);
        push_entries_text(out, entries, from + 1);
        proof {
            assert(comma@ =~= seq![',']);
            assert(tail[0] == entries@[from as int]);
            assert(tail.drop_first() =~= entries@.subrange(from + 1, n as int));
            assert(out@ =~= old(out)@ + json_of_entries(tail));
        }
    }
}

/// Renders `entries` as the canonical score-mapping text.
pub fn encode_scores_text(entries: &Vec<(u64, u64)>) -> (r: String)
    ensures
        r@ == json_of_scores(entries@),
{
    let mut out = String::new();
    let open_brace = "{";
    let close_brace = "}";
    proof {
        reveal_strlit("{");
        reveal_strlit("}");
    }
    push_str_text(&mut out, open_brace);
    push_entries_text(&mut out, entries, 0);
    push_str_text(&mut out, close_brace);
    proof {
        assert(open_brace@ =~= seq!['{']);
        assert(close_brace@ =~= seq!['}']);
        assert(entries@.subrange(0, entries@.len() as int) =~= entries@);
        assert(out@ =~= json_of_scores(entries@));
    }
    out
}

/// Renders `entries` as the canonical persisted-snapshot text.
pub fn encode_snapshot_text(entries: &Vec<(u64, u64)>) -> (r: String)
    ensures
        r@ == json_of_snapshot(entries@),
{
    let mut out = String::new();
    let head = "{\"scores\":";
    let close_brace = "}";
    proof {
        reveal_strlit("{\"scores\":");
        reveal_strlit("}");
    }
    push_str_text(&mut out, head);
    let body = encode_scores_text(entries);
    push_str_text(&mut out, body.as_str());
    push_str_text(&mut out, close_brace);
    proof {
        assert(close_brace@ =~= seq!['}']);
        assert(out@ =~= json_of_snapshot(entries@));
    }
    out
}

/// Whitespace the parser tolerates between tokens.
pub open spec fn is_ws(c: char) -> bool {
    c == ' ' || c == '\t' || c == '\n' || c == '\r'
}

/// First position at or after `i` that does not hold whitespace.
pub open spec fn skip_ws(s: Seq<char>, i: int) -> int
    decreases s.len() - i,
    when 0 <= i <= s.len()
{
    if i < s.len() && is_ws(s[i]) {
        skip_ws(s, i + 1)
    } else {
        i
    }
}

pub proof fn lemma_skip_ws_bounds(s: Seq<char>, i: int)
    requires
        0 <= i <= s.len(),
    ensures
        i <= skip_ws(s, i) <= s.len(),
    decreases s.len() - i,
{
    if i < s.len() && is_ws(s[i]) {
        lemma_skip_ws_bounds(s, i + 1);
    }
}

/// End of the digit run that starts at `i`.
pub open spec fn digit_run_end(s: Seq<char>, i: int) -> int
    decreases s.len() - i,
    when 0 <= i <= s.len()
{
    if i < s.len() && is_digit(s[i]) {
        digit_run_end(s, i + 1)
    } else {
        i
    }
}

pub proof fn lemma_digit_run_bounds(s: Seq<char>, i: int)
    requires
        0 <= i <= s.len(),
    ensures
        i <= digit_run_end(s, i) <= s.len(),
    decreases s.len() - i,
{
    if i < s.len() && is_digit(s[i]) {
        lemma_digit_run_bounds(s, i + 1);
    }
}

/// A run of known digits bounded by a non-digit ends exactly at the bound.
pub proof fn lemma_digit_run_exact(s: Seq<char>, i: int, j: int)
    requires
        0 <= i <= j <= s.len(),
        forall|x: int| i <= x < j ==> is_digit(#[trigger] s[x]),
        j == s.len() || !is_digit(s[j]),
    ensures
        digit_run_end(s, i) == j,
    decreases j - i,
{
    if i < j {
        lemma_digit_run_exact(s, i + 1, j);
    }
}

/// A decimal number at `i`: the whole digit run, which must be non-empty
/// and fit in 64 bits.
pub open spec fn parse_number(s: Seq<char>, i: int) -> Option<(u64, int)> {
    let j = digit_run_end(s, i);
    if j == i {
        None
    } else {
        let v = digits_val(s.subrange(i, j));
        if v > u64::MAX {
            None
        } else {
            Some((v as u64, j))
        }
    }
}

pub proof fn lemma_parse_number_bounds(s: Seq<char>, i: int)
    requires
        0 <= i <= s.len(),
        parse_number(s, i) is Some,
    ensures
        i < parse_number(s, i).unwrap().1 <= s.len(),
{
    lemma_digit_run_bounds(s, i);
}

/// A quoted user identifier at `i`: `"` digits `"`.
pub open spec fn parse_key(s: Seq<char>, i: int) -> Option<(u64, int)> {
    if i < s.len() && s[i] == '"' {
        let j = digit_run_end(s, i + 1);
        if j > i + 1 && j < s.len() && s[j] == '"' {
            let v = digits_val(s.subrange(i + 1, j));
            if v > u64::MAX {
                None
            } else {
                Some((v as u64, j + 1))
            }
        } else {
            None
        }
    } else {
        None
    }
}

pub proof fn lemma_parse_key_bounds(s: Seq<char>, i: int)
    requires
        0 <= i <= s.len(),
        parse_key(s, i) is Some,
    ensures
        i < parse_key(s, i).unwrap().1 <= s.len(),
{
    lemma_digit_run_bounds(s, i + 1);
}

/// One `"user" : count` pair starting at `i`.
pub open spec fn parse_entry(s: Seq<char>, i: int) -> Option<((u64, u64), int)> {
    match parse_key(s, i) {
        None => None,
        Some((k, j)) => {
            let j2 = skip_ws(s, j);
            if j2 < s.len() && s[j2] == ':' {
                let j3 = skip_ws(s, j2 + 1);
                match parse_number(s, j3) {
                    None => None,
                    Some((v, j4)) => Some(((k, v), j4)),
                }
            } else {
                None
            }
        },
    }
}

pub proof fn lemma_parse_entry_bounds(s: Seq<char>, i: int)
    requires
        0 <= i <= s.len(),
        parse_entry(s, i) is Some,
    ensures
        i < parse_entry(s, i).unwrap().1 <= s.len(),
{
    lemma_parse_key_bounds(s, i);
    let j = parse_key(s, i).unwrap().1;
    lemma_skip_ws_bounds(s, j);
    let j2 = skip_ws(s, j);
    lemma_skip_ws_bounds(s, j2 + 1);
    let j3 = skip_ws(s, j2 + 1);
    lemma_parse_number_bounds(s, j3);
}

/// A non-empty, comma-separated entry list starting at `i`.  Ends right
/// after the last count, before any trailing whitespace.
pub open spec fn parse_entries(s: Seq<char>, i: int) -> Option<(Seq<(u64, u64)>, int)>
    decreases s.len() - i,
    when 0 <= i <= s.len()
    via parse_entries_decreases
{
    match parse_entry(s, i) {
        None => None,
        Some((e, j)) => {
            let j2 = skip_ws(s, j);
            if j2 < s.len() && s[j2] == ',' {
                match parse_entries(s, skip_ws(s, j2 + 1)) {
                    None => None,
                    Some((rest, j3)) => Some((seq![e] + rest, j3)),
                }
            } else {
                Some((seq![e], j))
            }
        },
    }
}

#[via_fn]
proof fn parse_entries_decreases(s: Seq<char>, i: int) {
    if parse_entry(s, i) is Some {
        lemma_parse_entry_bounds(s, i);
        let j = parse_entry(s, i).unwrap().1;
        lemma_skip_ws_bounds(s, j);
        let j2 = skip_ws(s, j);
        if j2 < s.len() && s[j2] == ',' {
            lemma_skip_ws_bounds(s, j2 + 1);
        }
    }
}

pub proof fn lemma_parse_entries_bounds(s: Seq<char>, i: int)
    requires
        0 <= i <= s.len(),
        parse_entries(s, i) is Some,
    ensures
        i < parse_entries(s, i).unwrap().1 <= s.len(),
    decreases s.len() - i,
{
    lemma_parse_entry_bounds(s, i);
    let j = parse_entry(s, i).unwrap().1;
    lemma_skip_ws_bounds(s, j);
    let j2 = skip_ws(s, j);
    if j2 < s.len() && s[j2] == ',' {
        lemma_skip_ws_bounds(s, j2 + 1);
        if parse_entries(s, skip_ws(s, j2 + 1)) is Some {
            lemma_parse_entries_bounds(s, skip_ws(s, j2 + 1));
        }
    }
}

/// A score object `{ ... }` starting at `i`; yields the entries and the
/// position right after the closing brace.
pub open spec fn parse_obj(s: Seq<char>, i: int) -> Option<(Seq<(u64, u64)>, int)> {
    if i < s.len() && s[i] == '{' {
        let i1 = skip_ws(s, i + 1);
        if i1 < s.len() && s[i1] == '}' {
            Some((Seq::empty(), i1 + 1))
        } else {
            match parse_entries(s, i1) {
                None => None,
                Some((es, j)) => {
                    let j2 = skip_ws(s, j);
                    if j2 < s.len() && s[j2] == '}' {
                        Some((es, j2 + 1))
                    } else {
                        None
                    }
                },
            }
        }
    } else {
        None
    }
}

/// The reset-command input: one score object and nothing else, with
/// distinct users.
pub open spec fn scores_of_json(s: Seq<char>) -> Option<Seq<(u64, u64)>> {
    let i0 = skip_ws(s, 0);
    match parse_obj(s, i0) {
        None => None,
        Some((es, j)) => {
            if skip_ws(s, j) == s.len() && unique_keys(es) {
                Some(es)
            } else {
                None
            }
        },
    }
}

/// The persisted snapshot: `{"scores": <object>}` and nothing else, with
/// distinct users.
pub open spec fn snapshot_of_json(s: Seq<char>) -> Option<Seq<(u64, u64)>> {
    let i0 = skip_ws(s, 0);
    if i0 < s.len() && s[i0] == '{' {
        let i1 = skip_ws(s, i0 + 1);
        if i1 + 8 <= s.len() && s.subrange(i1, i1 + 8) == "\"scores\""@ {
            let i2 = skip_ws(s, i1 + 8);
            if i2 < s.len() && s[i2] == ':' {
                let i3 = skip_ws(s, i2 + 1);
                match parse_obj(s, i3) {
                    None => None,
                    Some((es, j)) => {
                        let j2 = skip_ws(s, j);
                        if j2 < s.len() && s[j2] == '}' && skip_ws(s, j2 + 1) == s.len()
                            && unique_keys(es) {
                            Some(es)
                        } else {
                            None
                        }
                    },
                }
            } else {
                None
            }
        } else {
            None
        }
    } else {
        None
    }
}

pub proof fn lemma_digit_run_digits(s: Seq<char>, i: int)
    requires
        0 <= i <= s.len(),
    ensures
        forall|x: int| i <= x < digit_run_end(s, i) ==> is_digit(#[trigger] s[x]),
    decreases s.len() - i,
{
    if i < s.len() && is_digit(s[i]) {
        lemma_digit_run_digits(s, i + 1);
        lemma_digit_run_bounds(s, i + 1);
    }
}

/// Reading more digits never shrinks the value.
pub proof fn lemma_digits_val_grows(s: Seq<char>, i: int, k: int, j: int)
    requires
        0 <= i <= k <= j <= s.len(),
    ensures
        digits_val(s.subrange(i, j)) >= digits_val(s.subrange(i, k)),
    decreases j - k,
{
    if k < j {
        assert(s.subrange(i, j).drop_last() =~= s.subrange(i, j - 1));
        lemma_digits_val_grows(s, i, k, j - 1);
    }
}

pub(crate) fn chars_of(s: &str) -> (v: Vec<char>)
    ensures
        v@ == s@,
{
    let n = s.unicode_len();
    let mut v: Vec<char> = Vec::new();
    let mut i: usize = 0;
    while i < n
        invariant
            0 <= i <= n,
            n == s@.len(),
            v@ == s@.take(i as int),
        decreases n - i,
    {
        v.push(s.get_char(i));
        proof {
            assert(v@ =~= s@.take(i + 1));
        }
        i += 1;
    }
    proof {
        assert(s@.take(n as int) =~= s@);
    }
    v
}

fn is_ws_char(c: char) -> (r: bool)
    ensures
        r == is_ws(c),
{
    c == ' ' || c == '\t' || c == '\n' || c == '\r'
}

fn is_digit_char(c: char) -> (r: bool)
    ensures
        r == is_digit(c),
{
    let u = c as u32;
    48 <= u && u <= 57
}

fn digit_value(c: char) -> (d: u64)
    requires
        is_digit(c),
    ensures
        d as nat == digit_val(c),
        d < 10,
{
    let u = c as u32;
    (u - 48) as u64
}

fn skip_ws_e(v: &Vec<char>, i: usize) -> (r: usize)
    requires
        i <= v@.len(),
    ensures
        r as int == skip_ws(v@, i as int),
        i <= r <= v@.len(),
    decreases v@.len() - i,
{
    if i < v.len() {
        let c = v[i];
        if is_ws_char(c) {
            return skip_ws_e(v, i + 1);
        }
    }
    i
}

fn digit_run_e(v: &Vec<char>, i: usize) -> (r: usize)
    requires
        i <= v@.len(),
    ensures
        r as int == digit_run_end(v@, i as int),
        i <= r <= v@.len(),
    decreases v@.len() - i,
{
    if i < v.len() {
        let c = v[i];
        if is_digit_char(c) {
            return digit_run_e(v, i + 1);
        }
    }
    i
}

fn parse_number_e(v: &Vec<char>, i: usize) -> (r: Option<(u64, usize)>)
    requires
        i <= v@.len(),
    ensures
        match r {
            Some((x, j)) => parse_number(v@, i as int) == Some((x, j as int)) && i < j <= v@.len(),
            None => parse_number(v@, i as int) is None,
        },
{
    let j = digit_run_e(v, i);
    if j == i {
        return None;
    }
    proof {
        lemma_digit_run_digits(v@, i as int);
    }
    let mut acc: u64 = 0;
    let mut k = i;
    while k < j
        invariant
            i <= k <= j <= v@.len(),
            j as int == digit_run_end(v@, i as int),
            forall|x: int| i <= x < j ==> is_digit(#[trigger] v@[x]),
            acc as nat == digits_val(v@.subrange(i as int, k as int)),
        decreases j - k,
    {
        let d = digit_value(v[k]);
        proof {
            assert(v@.subrange(i as int, k + 1).drop_last() =~= v@.subrange(i as int, k as int));
            assert(v@.subrange(i as int, k + 1).last() == v@[k as int]);
        }
        let next = match acc.checked_mul(10) {
            Some(m) => m.checked_add(d),
            None => None,
        };
        match next {
            Some(a2) => {
                acc = a2;
            },
            None => {
                proof {
                    assert(digits_val(v@.subrange(i as int, k + 1)) > u64::MAX);
                    lemma_digits_val_grows(v@, i as int, k + 1, j as int);
                }
                return None;
            },
        }
        k += 1;
    }
    Some((acc, j))
}

fn parse_key_e(v: &Vec<char>, i: usize) -> (r: Option<(u64, usize)>)
    requires
        i <= v@.len(),
    ensures
        match r {
            Some((x, j)) => parse_key(v@, i as int) == Some((x, j as int)) && i < j <= v@.len(),
            None => parse_key(v@, i as int) is None,
        },
{
    if i < v.len() {
        let c = v[i];
        if c == '"' {
            proof {
                lemma_digit_run_bounds(v@, i + 1);
            }
            return match parse_number_e(v, i + 1) {
                None => None,
                Some((val, j)) => {
                    if j < v.len() {
                        let q = v[j];
                        if q == '"' {
                            Some((val, j + 1))
                        } else {
                            None
                        }
                    } else {
                        None
                    }
                },
            };
        }
    }
    None
}

fn parse_entry_e(v: &Vec<char>, i: usize) -> (r: Option<((u64, u64), usize)>)
    requires
        i <= v@.len(),
    ensures
        match r {
            Some((e, j)) => parse_entry(v@, i as int) == Some((e, j as int)) && i < j <= v@.len(),
            None => parse_entry(v@, i as int) is None,
        },
{
    match parse_key_e(v, i) {
        None => None,
        Some((k, j)) => {
            let j2 = skip_ws_e(v, j);
            if j2 < v.len() {
                let c = v[j2];
                if c == ':' {
                    let j3 = skip_ws_e(v, j2 + 1);
                    match parse_number_e(v, j3) {
                        None => None,
                        Some((val, j4)) => Some(((k, val), j4)),
                    }
                } else {
                    None
                }
            } else {
                None
            }
        },
    }
}

fn parse_entries_e(v: &Vec<char>, i: usize) -> (r: Option<(Vec<(u64, u64)>, usize)>)
    requires
        i <= v@.len(),
    ensures
        match r {
            Some((es, j)) => parse_entries(v@, i as int) == Some((es@, j as int)) && i < j
                <= v@.len(),
            None => parse_entries(v@, i as int) is None,
        },
    decreases v@.len() - i,
{
    match parse_entry_e(v, i) {
        None => None,
        Some((e, j)) => {
            let j2 = skip_ws_e(v, j);
            if j2 < v.len() && { let c = v[j2]; c == ',' } {
                let next = skip_ws_e(v, j2 + 1);
                match parse_entries_e(v, next) {
                    None => None,
                    Some((rest, j3)) => {
                        let ghost rest0 = rest@;
                        let mut rest = rest;
                        rest.insert(0, e);
                        proof {
                            assert(rest@ =~= seq![e] + rest0);
                        }
                        Some((rest, j3))
                    },
                }
            } else {
                let mut es: Vec<(u64, u64)> = Vec::new();
                es.push(e);
                proof {
                    assert(es@ =~= seq![e]);
                }
                Some((es, j))
            }
        },
    }
}

fn parse_obj_e(v: &Vec<char>, i: usize) -> (r: Option<(Vec<(u64, u64)>, usize)>)
    requires
        i <= v@.len(),
    ensures
        match r {
            Some((es, j)) => parse_obj(v@, i as int) == Some((es@, j as int)) && i < j
                <= v@.len(),
            None => parse_obj(v@, i as int) is None,
        },
{
    if i < v.len() {
        let c = v[i];
        if c == '{' {
            let i1 = skip_ws_e(v, i + 1);
            if i1 < v.len() && { let b = v[i1]; b == '}' } {
                let es: Vec<(u64, u64)> = Vec::new();
                proof {
                    assert(es@ =~= Seq::<(u64, u64)>::empty());
                }
                return Some((es, i1 + 1));
            }
            return match parse_entries_e(v, i1) {
                None => None,
                Some((es, j)) => {
                    let j2 = skip_ws_e(v, j);
                    if j2 < v.len() && { let b = v[j2]; b == '}' } {
                        Some((es, j2 + 1))
                    } else {
                        None
                    }
                },
            };
        }
    }
    None
}

fn unique_keys_e(entries: &Vec<(u64, u64)>) -> (r: bool)
    ensures
        r == unique_keys(entries@),
{
    let n = entries.len();
    let mut i: usize = 0;
    while i < n
        invariant
            0 <= i <= n,
            n == entries@.len(),
            forall|p: int, q: int|
                0 <= p < q < n && p < i ==> (#[trigger] entries@[p]).0 != (
                #[trigger] entries@[q]).0,
        decreases n - i,
    {
        let key = entries[i].0;
        let mut j = i + 1;
        while j < n
            invariant
                0 <= i < j <= n,
                n == entries@.len(),
                key == entries@[i as int].0,
                forall|q: int| i < q < j ==> (#[trigger] entries@[q]).0 != key,
            decreases n - j,
        {
            if entries[j].0 == key {
                return false;
            }
            j += 1;
        }
        i += 1;
    }
    true
}

/// Parses reset-command input: a score mapping with distinct users, or
/// nothing when the text is not such a mapping.
pub fn parse_scores_text(s: &str) -> (r: Option<Vec<(u64, u64)>>)
    ensures
        match r {
            Some(es) => scores_of_json(s@) == Some(es@),
            None => scores_of_json(s@) is None,
        },
{
    let v = chars_of(s);
    let i0 = skip_ws_e(&v, 0);
    match parse_obj_e(&v, i0) {
        None => None,
        Some((es, j)) => {
            let fin = skip_ws_e(&v, j);
            if fin == v.len() && unique_keys_e(&es) {
                Some(es)
            } else {
                None
            }
        },
    }
}

fn match_scores_key(v: &Vec<char>, i: usize) -> (r: bool)
    requires
        i <= v@.len(),
    ensures
        r == (i + 8 <= v@.len() && v@.subrange(i as int, i as int + 8) == "\"scores\""@),
{
    proof {
        reveal_strlit("\"scores\"");
    }
    if v.len() - i < 8 {
        return false;
    }
    let ok = {
        let c0 = v[i];
        let c1 = v[i + 1];
        let c2 = v[i + 2];
        let c3 = v[i + 3];
        let c4 = v[i + 4];
        let c5 = v[i + 5];
        let c6 = v[i + 6];
        let c7 = v[i + 7];
        c0 == '"' && c1 == 's' && c2 == 'c' && c3 == 'o' && c4 == 'r' && c5 == 'e' && c6 == 's'
            && c7 == '"'
    };
    proof {
        let sub = v@.subrange(i as int, i as int + 8);
        if ok {
            assert(sub =~= "\"scores\""@);
        } else {
            assert(sub != "\"scores\""@) by {
                if sub == "\"scores\""@ {
                    assert(sub[0] == '"' && sub[1] == 's' && sub[2] == 'c' && sub[3] == 'o'
                        && sub[4] == 'r' && sub[5] == 'e' && sub[6] == 's' && sub[7] == '"');
                }
            }
        }
    }
    ok
}

/// Parses persisted-snapshot text: `{"scores": <mapping>}` with distinct
/// users, or nothing when the text is not such a snapshot.
pub fn parse_snapshot_text(s: &str) -> (r: Option<Vec<(u64, u64)>>)
    ensures
        match r {
            Some(es) => snapshot_of_json(s@) == Some(es@),
            None => snapshot_of_json(s@) is None,
        },
{
    let v = chars_of(s);
    let i0 = skip_ws_e(&v, 0);
    if i0 < v.len() && { let c = v[i0]; c == '{' } {
        let i1 = skip_ws_e(&v, i0 + 1);
        if match_scores_key(&v, i1) {
            let i2 = skip_ws_e(&v, i1 + 8);
            if i2 < v.len() && { let c = v[i2]; c == ':' } {
                let i3 = skip_ws_e(&v, i2 + 1);
                match parse_obj_e(&v, i3) {
                    None => None,
                    Some((es, j)) => {
                        let j2 = skip_ws_e(&v, j);
                        if j2 < v.len() && { let c = v[j2]; c == '}' } {
                            let fin = skip_ws_e(&v, j2 + 1);
                            if fin == v.len() && unique_keys_e(&es) {
                                Some(es)
                            } else {
                                None
                            }
                        } else {
                            None
                        }
                    },
                }
            } else {
                None
            }
        } else {
            None
        }
    } else {
        None
    }
}

proof fn lemma_number_round(s: Seq<char>, i: int, n: u64)
    requires
        0 <= i,
        i + dec_of(n as nat).len() <= s.len(),
        s.subrange(i, i + dec_of(n as nat).len()) == dec_of(n as nat),
        i + dec_of(n as nat).len() == s.len() || !is_digit(s[i + dec_of(n as nat).len()]),
    ensures
        parse_number(s, i) == Some((n, i + dec_of(n as nat).len())),
{
    let d = dec_of(n as nat);
    let j = i + d.len();
    lemma_dec_of(n as nat);
    assert forall|x: int| i <= x < j implies is_digit(#[trigger] s[x]) by {
        assert(s[x] == s.subrange(i, j)[x - i]);
        assert(d[x - i] == s[x]);
    }
    lemma_digit_run_exact(s, i, j);
    assert(digits_val(s.subrange(i, j)) == n);
}

proof fn lemma_key_round(s: Seq<char>, i: int, k: u64)
    requires
        0 <= i < s.len(),
        s[i] == '"',
        i + 1 + dec_of(k as nat).len() < s.len(),
        s.subrange(i + 1, i + 1 + dec_of(k as nat).len()) == dec_of(k as nat),
        s[i + 1 + dec_of(k as nat).len()] == '"',
    ensures
        parse_key(s, i) == Some((k, i + dec_of(k as nat).len() + 2)),
{
    let d = dec_of(k as nat);
    let j = i + 1 + d.len();
    lemma_dec_of(k as nat);
    assert(!is_digit(s[j]));
    lemma_number_round(s, i + 1, k);
    assert(digit_run_end(s, i + 1) == j);
    assert(j > i + 1);
    assert(digits_val(s.subrange(i + 1, j)) == k);
}

proof fn lemma_entry_first(e: (u64, u64))
    ensures
        json_of_entry(e).len() == dec_of(e.0 as nat).len() + dec_of(e.1 as nat).len() + 3,
        json_of_entry(e)[0] == '"',
{
    lemma_dec_of(e.0 as nat);
    lemma_dec_of(e.1 as nat);
}

proof fn lemma_entry_round(s: Seq<char>, i: int, e: (u64, u64))
    requires
        0 <= i,
        i + json_of_entry(e).len() <= s.len(),
        s.subrange(i, i + json_of_entry(e).len()) == json_of_entry(e),
        i + json_of_entry(e).len() == s.len() || !is_digit(s[i + json_of_entry(e).len()]),
    ensures
        parse_entry(s, i) == Some((e, i + json_of_entry(e).len())),
{
    let dk = dec_of(e.0 as nat);
    let dv = dec_of(e.1 as nat);
    let kl = dk.len() as int;
    let vl = dv.len() as int;
    let jo = json_of_entry(e);
    let el = jo.len() as int;
    lemma_entry_first(e);
    assert(el == kl + vl + 3);
    let fin = i + el;
    assert forall|x: int| 0 <= x < el implies s[i + x] == jo[x] by {
        assert(s.subrange(i, fin)[x] == s[i + x]);
    }
    assert(s[i] == '"');
    assert(s.subrange(i + 1, i + 1 + kl) =~= dk) by {
        assert forall|x: int| 0 <= x < kl implies s.subrange(i + 1, i + 1 + kl)[x] == dk[x] by {
            assert(s[i + 1 + x] == jo[1 + x]);
            assert(jo[1 + x] == dk[x]);
        }
    }
    assert(s[i + 1 + kl] == jo[1 + kl]);
    assert(jo[1 + kl] == '"');
    assert(s[i + 2 + kl] == jo[2 + kl]);
    assert(jo[2 + kl] == ':');
    assert(s.subrange(i + 3 + kl, fin) =~= dv) by {
        assert forall|x: int| 0 <= x < vl implies s.subrange(i + 3 + kl, fin)[x] == dv[x] by {
            assert(s[i + 3 + kl + x] == jo[3 + kl + x]);
            assert(jo[3 + kl + x] == dv[x]);
        }
    }
    lemma_key_round(s, i, e.0);
    assert(parse_key(s, i) == Some((e.0, i + kl + 2)));
    let j = i + kl + 2;
    assert(!is_ws(s[j]));
    assert(skip_ws(s, j) == j);
    assert(s[j] == ':');
    lemma_dec_of(e.1 as nat);
    assert(s[j + 1] == dv[0]);
    assert(is_digit(dv[0]));
    assert(!is_ws(s[j + 1]));
    assert(skip_ws(s, j + 1) == j + 1);
    lemma_number_round(s, j + 1, e.1);
    assert(parse_number(s, j + 1) == Some((e.1, fin)));
}

proof fn lemma_entries_round(s: Seq<char>, i: int, v: Seq<(u64, u64)>)
    requires
        v.len() >= 1,
        0 <= i,
        i + json_of_entries(v).len() < s.len(),
        s.subrange(i, i + json_of_entries(v).len()) == json_of_entries(v),
        s[i + json_of_entries(v).len()] == '}',
    ensures
        parse_entries(s, i) == Some((v, i + json_of_entries(v).len())),
    decreases v.len(),
{
    let jo = json_of_entries(v);
    let el = jo.len() as int;
    let fin = i + el;
    assert forall|x: int| 0 <= x < el implies s[i + x] == jo[x] by {
        assert(s.subrange(i, fin)[x] == s[i + x]);
    }
    if v.len() == 1 {
        assert(jo == json_of_entry(v[0]));
        lemma_entry_round(s, i, v[0]);
        assert(skip_ws(s, fin) == fin);
        assert(parse_entries(s, i) == Some((seq![v[0]], fin)));
        assert(seq![v[0]] =~= v);
    } else {
        let e0 = json_of_entry(v[0]);
        let l0 = e0.len() as int;
        let rest = v.drop_first();
        let jr = json_of_entries(rest);
        lemma_entry_first(v[0]);
        assert(jo == e0 + seq![','] + jr);
        assert(s.subrange(i, i + l0) =~= e0) by {
            assert forall|x: int| 0 <= x < l0 implies s.subrange(i, i + l0)[x] == e0[x] by {
                assert(s[i + x] == jo[x]);
                assert(jo[x] == e0[x]);
            }
        }
        assert(s[i + l0] == jo[l0]);
        assert(jo[l0] == ',');
        lemma_entry_round(s, i, v[0]);
        let j1 = i + l0;
        assert(parse_entry(s, i) == Some((v[0], j1)));
        assert(!is_ws(s[j1]));
        assert(skip_ws(s, j1) == j1);
        assert(s.subrange(j1 + 1, fin) =~= jr) by {
            assert forall|x: int| 0 <= x < jr.len() implies s.subrange(j1 + 1, fin)[x]
                == jr[x] by {
                assert(s[i + (l0 + 1 + x)] == jo[l0 + 1 + x]);
                assert(jo[l0 + 1 + x] == jr[x]);
            }
        }
        assert(rest.len() >= 1);
        assert(jr[0] == json_of_entry(rest[0])[0]);
        lemma_entry_first(rest[0]);
        assert(s[j1 + 1] == jr[0]);
        assert(jr[0] == '"');
        assert(!is_ws(s[j1 + 1]));
        assert(skip_ws(s, j1 + 1) == j1 + 1);
        lemma_entries_round(s, j1 + 1, rest);
        assert(parse_entries(s, j1 + 1) == Some((rest, fin)));
        assert(seq![v[0]] + rest =~= v);
    }
}

proof fn lemma_obj_round(s: Seq<char>, i: int, v: Seq<(u64, u64)>)
    requires
        0 <= i,
        i + json_of_scores(v).len() <= s.len(),
        s.subrange(i, i + json_of_scores(v).len()) == json_of_scores(v),
    ensures
        parse_obj(s, i) == Some((v, i + json_of_scores(v).len())),
{
    let jo = json_of_scores(v);
    let je = json_of_entries(v);
    let ol = jo.len() as int;
    let fin = i + ol;
    assert(ol == je.len() + 2);
    assert forall|x: int| 0 <= x < ol implies s[i + x] == jo[x] by {
        assert(s.subrange(i, fin)[x] == s[i + x]);
    }
    assert(s[i] == jo[0]);
    assert(jo[0] == '{');
    assert(s[fin - 1] == jo[ol - 1]);
    assert(jo[ol - 1] == '}');
    if v.len() == 0 {
        assert(je.len() == 0);
        assert(s[i + 1] == '}');
        assert(skip_ws(s, i + 1) == i + 1);
    } else {
        assert(je[0] == json_of_entry(v[0])[0]);
        lemma_entry_first(v[0]);
        assert(s[i + 1] == jo[1]);
        assert(jo[1] == je[0]);
        assert(je[0] == '"');
        assert(!is_ws(s[i + 1]));
        assert(skip_ws(s, i + 1) == i + 1);
        assert(s.subrange(i + 1, i + 1 + je.len()) =~= je) by {
            assert forall|x: int| 0 <= x < je.len() implies s.subrange(i + 1, i + 1 + je.len())[x]
                == je[x] by {
                assert(s[i + (1 + x)] == jo[1 + x]);
                assert(jo[1 + x] == je[x]);
            }
        }
        assert(s[i + 1 + je.len()] == '}');
        lemma_entries_round(s, i + 1, v);
        let j = i + 1 + je.len();
        assert(parse_entries(s, i + 1) == Some((v, j)));
        assert(skip_ws(s, j) == j);
    }
}

/// Law: a reset input the encoder produced parses back to exactly the
/// same entries, in the same order.
pub proof fn lemma_scores_round_trip(v: Seq<(u64, u64)>)
    requires
        unique_keys(v),
    ensures
        scores_of_json(json_of_scores(v)) == Some(v),
{
    let s = json_of_scores(v);
    assert(s[0] == '{');
    assert(!is_ws(s[0]));
    assert(skip_ws(s, 0) == 0);
    assert(s.subrange(0, s.len() as int) =~= s);
    lemma_obj_round(s, 0, v);
    assert(skip_ws(s, s.len() as int) == s.len());
}

/// Law: a persisted snapshot the encoder produced parses back to exactly
/// the same entries, in the same order.
pub proof fn lemma_snapshot_round_trip(v: Seq<(u64, u64)>)
    requires
        unique_keys(v),
    ensures
        snapshot_of_json(json_of_snapshot(v)) == Some(v),
{
    let s = json_of_snapshot(v);
    let head = "{\"scores\":"@;
    let body = json_of_scores(v);
    reveal_strlit("{\"scores\":");
    reveal_strlit("\"scores\"");
    assert(head.len() == 10);
    assert(s.len() == body.len() + 11);
    assert forall|x: int| 0 <= x < 10 implies s[x] == head[x] by {}
    assert(s[0] == '{');
    assert(skip_ws(s, 0) == 0);
    assert(s[1] == '"');
    assert(!is_ws(s[1]));
    assert(skip_ws(s, 1) == 1);
    assert(s.subrange(1, 9) =~= "\"scores\""@);
    assert(s[9] == ':');
    assert(skip_ws(s, 9) == 9);
    assert(s[10] == body[0]);
    assert(body[0] == '{');
    assert(skip_ws(s, 10) == 10);
    assert(s.subrange(10, 10 + body.len() as int) =~= body) by {
        assert forall|x: int| 0 <= x < body.len() implies s.subrange(10, 10 + body.len() as int)[x]
            == body[x] by {
            assert(s[10 + x] == (head + body + seq!['}'])[10 + x]);
        }
    }
    lemma_obj_round(s, 10, v);
    let j = 10 + body.len() as int;
    assert(parse_obj(s, 10) == Some((v, j)));
    assert(s[j] == '}');
    assert(skip_ws(s, j) == j);
    assert(skip_ws(s, j + 1) == s.len());
}

/// Why stored snapshot text could not be loaded.
#[derive(Clone, Copy, Debug, PartialEq, Eq, Structural)]
pub enum SnapshotError {
    /// The text is not a well-formed snapshot.
    Malformed,
    /// The mapping is well-formed but its counts sum beyond 64 bits.
    TotalOverflow,
}

/// Serializes the board for persistence: the total's decimal text for the
/// fast-read count key, and the wrapped mapping for the leaderboard key.
pub fn save_snapshot(b: &Leaderboard) -> (r: (String, String))
    ensures
        r.0@ == dec_of(b.spec_total() as nat),
        r.1@ == json_of_snapshot(b.scores_seq()),
{
    let (total, entries) = b.snapshot();
    (u64_to_string(total), encode_snapshot_text(&entries))
}

/// Rebuilds a board from stored snapshot text.  Missing data is not an
/// error: it starts an empty board.  The total is recomputed from the
/// mapping, never trusted from storage.
pub fn load_snapshot(stored: Option<&str>) -> (r: Result<Leaderboard, SnapshotError>)
    ensures
        (match r {
            Ok(b) => b.wf() && (match stored {
                None => b.scores_seq().len() == 0 && b.spec_total() == 0,
                Some(s) => snapshot_of_json(s@) == Some(b.scores_seq()) && b.spec_total() as nat
                    == sum_counts(b.scores_seq()),
            }),
            Err(SnapshotError::Malformed) => stored matches Some(s) && snapshot_of_json(s@)
                is None,
            Err(SnapshotError::TotalOverflow) => stored matches Some(s) && (match snapshot_of_json(
                s@,
            ) {
                Some(es) => sum_counts(es) > u64::MAX,
                None => false,
            }),
        }),
{
    match stored {
        None => Ok(Leaderboard::new()),
        Some(s) => match parse_snapshot_text(s) {
            None => Err(SnapshotError::Malformed),
            Some(entries) => match try_sum_entries(&entries) {
                None => Err(SnapshotError::TotalOverflow),
                Some(_) => {
                    let mut b = Leaderboard::new();
                    b.replace_all(entries);
                    Ok(b)
                },
            },
        },
    }
}

/// Law: loading what was saved reproduces the board exactly — the same
/// entries in the same order, whose sum is again the board's total.
pub proof fn lemma_save_load_round_trip(b: Leaderboard)
    requires
        b.wf(),
    ensures
        snapshot_of_json(json_of_snapshot(b.scores_seq())) == Some(b.scores_seq()),
        sum_counts(b.scores_seq()) == b.spec_total() as nat,
{
    lemma_snapshot_round_trip(b.scores_seq());
}

} // verus!
