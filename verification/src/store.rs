//! The in-memory scoreboard: a per-user tally and a running total.
//!
//! `Leaderboard` owns a sequence of `(user, count)` entries with pairwise
//! distinct users, and a `total` that always equals the sum of the counts.
//! Mutation happens through `update_score` (one user) and `replace_all`
//! (bulk install); `get`, `top_n` and `snapshot` read without aliasing the
//! live state.

use vstd::prelude::*;
use vstd::relations::sorted_by;
use crate::ranking::{rank_order, sort_entries};

verus! {

/// Sum of all counts in an entry sequence.
pub open spec fn sum_counts(s: Seq<(u64, u64)>) -> nat
    decreases s.len(),
{
    if s.len() == 0 {
        0
    } else {
        sum_counts(s.drop_last()) + s.last().1 as nat
    }
}

/// No user appears twice.
pub open spec fn unique_keys(s: Seq<(u64, u64)>) -> bool {
    forall|i: int, j: int| 0 <= i < j < s.len() ==> (#[trigger] s[i]).0 != (#[trigger] s[j]).0
}

/// The count recorded for `user`, if any (first match).
pub open spec fn lookup(s: Seq<(u64, u64)>, user: u64) -> Option<u64>
    decreases s.len(),
{
    if s.len() == 0 {
        None
    } else if s[0].0 == user {
        Some(s[0].1)
    } else {
        lookup(s.drop_first(), user)
    }
}

/// The count for `user`, zero when absent.
pub open spec fn count_of(s: Seq<(u64, u64)>, user: u64) -> u64 {
    match lookup(s, user) {
        Some(c) => c,
        None => 0,
    }
}

/// The board after adding `amount` to `user`: the user's entry is bumped
/// in place, or appended at zero base when absent; all other entries keep
/// their place and value.
pub open spec fn bumped(s: Seq<(u64, u64)>, user: u64, amount: u64) -> Seq<(u64, u64)> {
    if lookup(s, user) is Some {
        s.map_values(
            |e: (u64, u64)|
                if e.0 == user {
                    (user, (e.1 + amount) as u64)
                } else {
                    e
                },
        )
    } else {
        s.push((user, amount))
    }
}

/// The first `n` entries of the ranked ordering of `s`.
pub open spec fn top_view(s: Seq<(u64, u64)>, n: int) -> Seq<(u64, u64)> {
    let sorted = s.sort_by(rank_order());
    sorted.take(if n <= sorted.len() {
        n
    } else {
        sorted.len() as int
    })
}

pub proof fn lemma_sum_update(s: Seq<(u64, u64)>, i: int, e: (u64, u64))
    requires
        0 <= i < s.len(),
    ensures
        sum_counts(s.update(i, e)) == sum_counts(s) - s[i].1 + e.1,
    decreases s.len(),
{
    let t = s.update(i, e);
    if i == s.len() - 1 {
        assert(t.drop_last() =~= s.drop_last());
    } else {
        assert(t.drop_last() =~= s.drop_last().update(i, e));
        lemma_sum_update(s.drop_last(), i, e);
    }
}

pub proof fn lemma_entry_le_sum(s: Seq<(u64, u64)>, i: int)
    requires
        0 <= i < s.len(),
    ensures
        s[i].1 <= sum_counts(s),
    decreases s.len(),
{
    if i == s.len() - 1 {
    } else {
        lemma_entry_le_sum(s.drop_last(), i);
    }
}

pub proof fn lemma_sum_prefix_le(s: Seq<(u64, u64)>, i: int)
    requires
        0 <= i <= s.len(),
    ensures
        sum_counts(s.take(i)) <= sum_counts(s),
    decreases s.len() - i,
{
    if i == s.len() {
        assert(s.take(i) =~= s);
    } else {
        assert(s.take(i + 1).drop_last() =~= s.take(i));
        assert(s.take(i + 1).last() == s[i]);
        lemma_sum_prefix_le(s, i + 1);
    }
}

pub proof fn lemma_lookup_first(s: Seq<(u64, u64)>, i: int)
    requires
        0 <= i < s.len(),
        forall|j: int| 0 <= j < i ==> (#[trigger] s[j]).0 != s[i].0,
    ensures
        lookup(s, s[i].0) == Some(s[i].1),
    decreases s.len(),
{
    if i > 0 {
        lemma_lookup_first(s.drop_first(), i - 1);
    }
}

pub proof fn lemma_lookup_absent(s: Seq<(u64, u64)>, user: u64)
    requires
        forall|j: int| 0 <= j < s.len() ==> (#[trigger] s[j]).0 != user,
    ensures
        lookup(s, user) == None::<u64>,
    decreases s.len(),
{
    if s.len() > 0 {
        lemma_lookup_absent(s.drop_first(), user);
    }
}

pub proof fn lemma_lookup_update_other(s: Seq<(u64, u64)>, i: int, e: (u64, u64), w: u64)
    requires
        0 <= i < s.len(),
        s[i].0 == e.0,
        e.0 != w,
    ensures
        lookup(s.update(i, e), w) == lookup(s, w),
    decreases s.len(),
{
    let t = s.update(i, e);
    if s[0].0 == w {
    } else {
        if i == 0 {
            assert(t.drop_first() =~= s.drop_first());
        } else {
            assert(t.drop_first() =~= s.drop_first().update(i - 1, e));
            lemma_lookup_update_other(s.drop_first(), i - 1, e, w);
        }
    }
}

pub proof fn lemma_lookup_push_other(s: Seq<(u64, u64)>, e: (u64, u64), w: u64)
    requires
        e.0 != w,
    ensures
        lookup(s.push(e), w) == lookup(s, w),
    decreases s.len(),
{
    if s.len() == 0 {
        assert(s.push(e)[0] == e);
        assert(s.push(e).drop_first() =~= s);
    } else {
        assert(s.push(e)[0] == s[0]);
        assert(s.push(e).drop_first() =~= s.drop_first().push(e));
        lemma_lookup_push_other(s.drop_first(), e, w);
    }
}

/// The scoreboard: per-user counts plus the redundant running total.
pub struct Leaderboard {
    scores: Vec<(u64, u64)>,
    total: u64,
}

impl Leaderboard {
    /// The entries, in their stored order.
    pub closed spec fn scores_seq(self) -> Seq<(u64, u64)> {
        self.scores@
    }

    /// The running total.
    pub closed spec fn spec_total(self) -> u64 {
        self.total
    }

    /// Well-formed: users are distinct and the total is the sum of counts.
    pub open spec fn wf(self) -> bool {
        unique_keys(self.scores_seq()) && self.spec_total() as nat == sum_counts(
            self.scores_seq(),
        )
    }

    /// An empty scoreboard.
    pub fn new() -> (b: Self)
        ensures
            b.wf(),
            b.scores_seq().len() == 0,
            b.spec_total() == 0,
    {
        Leaderboard { scores: Vec::new(), total: 0 }
    }

    /// The running total of all counts.
    pub fn total(&self) -> (t: u64)
        ensures
            t == self.spec_total(),
    {
        self.total
    }

    /// The number of users on the board.
    pub fn len(&self) -> (n: usize)
        ensures
            n == self.scores_seq().len(),
    {
        self.scores.len()
    }

    /// The count for `user`, zero when the user was never counted.
    pub fn get(&self, user: u64) -> (c: u64)
        ensures
            c == count_of(self.scores_seq(), user),
    {
        let n = self.scores.len();
        let mut i: usize = 0;
        while i < n
            invariant
                0 <= i <= n,
                n == self.scores_seq().len(),
                forall|j: int| 0 <= j < i ==> (#[trigger] self.scores_seq()[j]).0 != user,
            decreases n - i,
        {
            let e = self.scores[i];
            if e.0 == user {
                proof {
                    lemma_lookup_first(self.scores_seq(), i as int);
                }
                return e.1;
            }
            i += 1;
        }
        proof {
            lemma_lookup_absent(self.scores_seq(), user);
        }
        0
    }

    /// Adds `amount` to `user`'s count (creating the entry at zero when
    /// absent) and to the total.  Negative amounts are unrepresentable;
    /// a zero amount is allowed and changes no count's meaning.
    pub fn update_score(&mut self, user: u64, amount: u64)
        requires
            old(self).wf(),
            old(self).spec_total() + amount <= u64::MAX,
        ensures
            final(self).wf(),
            final(self).scores_seq() == bumped(old(self).scores_seq(), user, amount),
            final(self).spec_total() == old(self).spec_total() + amount,
            lookup(final(self).scores_seq(), user) == Some(
                (count_of(old(self).scores_seq(), user) + amount) as u64,
            ),
            forall|w: u64|
                w != user ==> #[trigger] lookup(final(self).scores_seq(), w) == lookup(
                    old(self).scores_seq(),
                    w,
                ),
            final(self).scores_seq().len() == old(self).scores_seq().len() + (
            if lookup(old(self).scores_seq(), user) is Some {
                0int
            } else {
                1int
            }),
    {
        let n = self.scores.len();
        let mut i: usize = 0;
        while i < n
            invariant
                0 <= i <= n,
                *self == *old(self),
                old(self).wf(),
                old(self).spec_total() + amount <= u64::MAX,
                n == self.scores_seq().len(),
                forall|j: int| 0 <= j < i ==> (#[trigger] self.scores_seq()[j]).0 != user,
            decreases n - i,
        {
            let e = self.scores[i];
            if e.0 == user {
                proof {
                    lemma_lookup_first(self.scores_seq(), i as int);
                    lemma_entry_le_sum(self.scores_seq(), i as int);
                }
                let ghost orig = self.scores_seq();
                self.scores[i] = (user, e.1 + amount);
                self.total = self.total + amount;
                proof {
                    lemma_sum_update(orig, i as int, (user, (e.1 + amount) as u64));
                    lemma_lookup_first(self.scores_seq(), i as int);
                    assert forall|w: u64| w != user implies #[trigger] lookup(
                        self.scores_seq(),
                        w,
                    ) == lookup(orig, w) by {
                        lemma_lookup_update_other(
                            orig,
                            i as int,
                            (user, (e.1 + amount) as u64),
                            w,
                        );
                    }
                    assert(unique_keys(self.scores_seq())) by {
                        assert forall|p: int, q: int|
                            0 <= p < q < self.scores_seq().len() implies (#[trigger] self
                            .scores_seq()[p]).0 != (#[trigger] self.scores_seq()[q]).0 by {
                            assert(orig[p].0 != orig[q].0);
                        }
                    }
                    assert(self.scores_seq() =~= bumped(orig, user, amount)) by {
                        assert forall|k: int| 0 <= k < orig.len() implies self.scores_seq()[k]
                            == bumped(orig, user, amount)[k] by {
                            if k < i as int {
                                assert(orig[k].0 != orig[i as int].0);
                            } else if k > i as int {
                                assert(orig[i as int].0 != orig[k].0);
                            }
                        }
                    }
                }
                return ;
            }
            i += 1;
        }
        proof {
            lemma_lookup_absent(self.scores_seq(), user);
        }
        let ghost orig = self.scores_seq();
        self.scores.push((user, amount));
        self.total = self.total + amount;
        proof {
            assert(self.scores_seq().drop_last() =~= orig);
            lemma_lookup_first(self.scores_seq(), orig.len() as int);
            assert forall|w: u64| w != user implies #[trigger] lookup(self.scores_seq(), w)
                == lookup(orig, w) by {
                lemma_lookup_push_other(orig, (user, amount), w);
            }
        }
    }

    /// Discards the whole board and installs `entries`, with the total
    /// recomputed as their sum.  A snapshot taken right after shows
    /// exactly the new mapping and its sum, whatever the prior state was.
    pub fn replace_all(&mut self, entries: Vec<(u64, u64)>)
        requires
            unique_keys(entries@),
            sum_counts(entries@) <= u64::MAX,
        ensures
            final(self).wf(),
            final(self).scores_seq() == entries@,
            final(self).spec_total() as nat == sum_counts(entries@),
    {
        let total = sum_entries(&entries);
        self.scores = entries;
        self.total = total;
    }

    /// An independent copy of the state: the total and every entry.
    pub fn snapshot(&self) -> (r: (u64, Vec<(u64, u64)>))
        ensures
            r.0 == self.spec_total(),
            r.1@ == self.scores_seq(),
    {
        (self.total, copy_entries(&self.scores))
    }

    /// The `n` best-ranked entries (all of them when fewer exist), counts
    /// descending, ties broken by ascending user identifier.
    pub fn top_n(&self, n: usize) -> (r: Vec<(u64, u64)>)
        ensures
            r@ == top_view(self.scores_seq(), n as int),
    {
        let mut sorted = sort_entries(copy_entries(&self.scores));
        sorted.truncate(n);
        sorted
    }
}

/// Law: on every well-formed board the running total equals the sum of the
/// per-user counts.
pub proof fn lemma_total_is_sum(b: Leaderboard)
    requires
        b.wf(),
    ensures
        b.spec_total() as nat == sum_counts(b.scores_seq()),
{
}

/// Law: the leaderboard view is ranked.  It never exceeds `n` entries or
/// the number of users, it is sorted by descending count with ties by
/// ascending user, and every entry it shows is an entry of the board.
pub proof fn lemma_top_ranked(s: Seq<(u64, u64)>, n: int)
    requires
        0 <= n,
    ensures
        top_view(s, n).len() == if n <= s.len() {
            n
        } else {
            s.len() as int
        },
        sorted_by(top_view(s, n), rank_order()),
        forall|k: int| 0 <= k < top_view(s, n).len() ==> s.contains(#[trigger] top_view(s, n)[k]),
{
    broadcast use vstd::seq_lib::group_to_multiset_ensures;

    crate::ranking::lemma_sort_ranked_is_sort_by(s);
    let sorted = s.sort_by(rank_order());
    let t = top_view(s, n);
    assert forall|k: int| 0 <= k < t.len() implies s.contains(#[trigger] t[k]) by {
        assert(t[k] == sorted[k]);
        assert(sorted.contains(sorted[k]));
        assert(sorted.to_multiset().contains(sorted[k]));
        assert(s.to_multiset().contains(sorted[k]));
    }
    assert forall|i: int, j: int| 0 <= i < j < t.len() implies #[trigger] rank_order()(
        t[i],
        t[j],
    ) by {
        assert(rank_order()(sorted[i], sorted[j]));
    }
}

/// Sums the counts of `entries`; the caller knows the sum fits.
fn sum_entries(entries: &Vec<(u64, u64)>) -> (t: u64)
    requires
        sum_counts(entries@) <= u64::MAX,
    ensures
        t as nat == sum_counts(entries@),
{
    let n = entries.len();
    let mut acc: u64 = 0;
    let mut i: usize = 0;
    while i < n
        invariant
            0 <= i <= n,
            n == entries@.len(),
            sum_counts(entries@) <= u64::MAX,
            acc as nat == sum_counts(entries@.take(i as int)),
        decreases n - i,
    {
        proof {
            assert(entries@.take(i + 1).drop_last() =~= entries@.take(i as int));
            assert(entries@.take(i + 1).last() == entries@[i as int]);
            lemma_sum_prefix_le(entries@, i + 1);
        }
        acc = acc + entries[i].1;
        i += 1;
    }
    proof {
        assert(entries@.take(n as int) =~= entries@);
    }
    acc
}

/// Sums the counts of `entries`, or reports that the sum does not fit.
pub fn try_sum_entries(entries: &Vec<(u64, u64)>) -> (r: Option<u64>)
    ensures
        match r {
            Some(t) => t as nat == sum_counts(entries@),
            None => sum_counts(entries@) > u64::MAX,
        },
{
    let n = entries.len();
    let mut acc: u64 = 0;
    let mut i: usize = 0;
    while i < n
        invariant
            0 <= i <= n,
            n == entries@.len(),
            acc as nat == sum_counts(entries@.take(i as int)),
        decreases n - i,
    {
        proof {
            assert(entries@.take(i + 1).drop_last() =~= entries@.take(i as int));
            assert(entries@.take(i + 1).last() == entries@[i as int]);
        }
        let c = entries[i].1;
        if acc > u64::MAX - c {
            proof {
                lemma_sum_prefix_le(entries@, i + 1);
            }
            return None;
        }
        acc = acc + c;
        i += 1;
    }
    proof {
        assert(entries@.take(n as int) =~= entries@);
    }
    Some(acc)
}

/// An element-for-element copy of an entry vector.
pub fn copy_entries(entries: &Vec<(u64, u64)>) -> (r: Vec<(u64, u64)>)
    ensures
        r@ == entries@,
{
    let n = entries.len();
    let mut r: Vec<(u64, u64)> = Vec::new();
    let mut i: usize = 0;
    while i < n
        invariant
            0 <= i <= n,
            n == entries@.len(),
            r@ == entries@.take(i as int),
        decreases n - i,
    {
        r.push(entries[i]);
        proof {
            assert(r@ =~= entries@.take(i + 1));
        }
        i += 1;
    }
    proof {
        assert(entries@.take(n as int) =~= entries@);
    }
    r
}

} // verus!
