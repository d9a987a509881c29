//! Ordering of leaderboard entries.
//!
//! An entry is a `(user, count)` pair.  `rank_le` puts higher counts first
//! and breaks ties by ascending user identifier, so the ranking is a total
//! order and the sorted output is unique: equal counts always appear in the
//! same order.  `sort_entries` produces exactly `Seq::sort_by(rank_order())`
//! of its input.

use vstd::prelude::*;
use vstd::relations::{sorted_by, total_ordering};
use vstd::seq_lib::group_to_multiset_ensures;
use vstd::seq_lib::{lemma_multiset_commutative, lemma_sorted_unique};

verus! {

/// `a` ranks no worse than `b`: a strictly higher count, or the same count
/// and a user identifier that is not larger.
pub open spec fn rank_le(a: (u64, u64), b: (u64, u64)) -> bool {
    a.1 > b.1 || (a.1 == b.1 && a.0 <= b.0)
}

/// `rank_le` as a relation value, for `Seq::sort_by`.
pub open spec fn rank_order() -> spec_fn((u64, u64), (u64, u64)) -> bool {
    |a: (u64, u64), b: (u64, u64)| rank_le(a, b)
}

/// The ranking is a total order, so a sorted permutation is unique.
pub proof fn lemma_rank_total_ordering()
    ensures
        total_ordering(rank_order()),
{
    let r = rank_order();
    assert forall|x: (u64, u64), y: (u64, u64)| #[trigger] r(x, y) && #[trigger] r(y, x) implies x
        == y by {
        assert(rank_le(x, y) && rank_le(y, x));
    }
    assert forall|x: (u64, u64), y: (u64, u64)| #[trigger] r(x, y) || #[trigger] r(y, x) by {
        assert(rank_le(x, y) || rank_le(y, x));
    }
}

/// `e` placed at its position in an already ranked sequence.
pub open spec fn insert_ranked(e: (u64, u64), s: Seq<(u64, u64)>) -> Seq<(u64, u64)>
    decreases s.len(),
{
    if s.len() == 0 {
        seq![e]
    } else if rank_le(e, s[0]) {
        seq![e] + s
    } else {
        seq![s[0]] + insert_ranked(e, s.drop_first())
    }
}

/// Insertion sort of a sequence of entries, as a specification.
pub open spec fn sort_ranked(s: Seq<(u64, u64)>) -> Seq<(u64, u64)>
    decreases s.len(),
{
    if s.len() == 0 {
        s
    } else {
        insert_ranked(s[0], sort_ranked(s.drop_first()))
    }
}

proof fn lemma_insert_ranked(e: (u64, u64), s: Seq<(u64, u64)>)
    requires
        sorted_by(s, rank_order()),
    ensures
        sorted_by(insert_ranked(e, s), rank_order()),
        insert_ranked(e, s).to_multiset() == s.to_multiset().insert(e),
        insert_ranked(e, s).len() == s.len() + 1,
    decreases s.len(),
{
    broadcast use group_to_multiset_ensures;
    broadcast use vstd::multiset::group_multiset_axioms;

    let r = rank_order();
    if s.len() == 0 {
        assert(seq![e] =~= Seq::<(u64, u64)>::empty().push(e));
        assert(seq![e].to_multiset() =~= s.to_multiset().insert(e));
    } else if rank_le(e, s[0]) {
        let out = seq![e] + s;
        lemma_multiset_commutative(seq![e], s);
        assert(seq![e] =~= Seq::<(u64, u64)>::empty().push(e));
        assert(out.to_multiset() =~= s.to_multiset().insert(e));
        assert forall|i: int, j: int| 0 <= i < j < out.len() implies #[trigger] r(
            out[i],
            out[j],
        ) by {
            if i == 0 {
                if j == 1 {
                    assert(rank_le(e, s[0]));
                } else {
                    assert(r(s[0], s[j - 1]));
                    assert(rank_le(e, s[j - 1]));
                }
            } else {
                assert(r(s[i - 1], s[j - 1]));
            }
        }
    } else {
        let rest = s.drop_first();
        assert(sorted_by(rest, r)) by {
            assert forall|i: int, j: int| 0 <= i < j < rest.len() implies #[trigger] r(
                rest[i],
                rest[j],
            ) by {
                assert(r(s[i + 1], s[j + 1]));
            }
        }
        lemma_insert_ranked(e, rest);
        let sub = insert_ranked(e, rest);
        let out = seq![s[0]] + sub;
        lemma_multiset_commutative(seq![s[0]], sub);
        lemma_multiset_commutative(seq![s[0]], rest);
        assert(seq![s[0]] =~= Seq::<(u64, u64)>::empty().push(s[0]));
        assert(s =~= seq![s[0]] + rest);
        assert(out.to_multiset() =~= s.to_multiset().insert(e));
        // Everything in `sub` is an old element of `rest` or is `e`, and the
        // head ranks no worse than any of them.
        assert forall|k: int| 0 <= k < sub.len() implies #[trigger] r(s[0], sub[k]) by {
            assert(sub.to_multiset().contains(sub[k]));
            if sub[k] == e {
                assert(rank_le(s[0], e) || rank_le(e, s[0])) by {
                    lemma_rank_total_ordering();
                }
            } else {
                assert(rest.to_multiset().contains(sub[k]));
                assert(rest.contains(sub[k]));
                let i = choose|i: int| 0 <= i < rest.len() && rest[i] == sub[k];
                assert(r(s[0], s[i + 1]));
            }
        }
        assert forall|i: int, j: int| 0 <= i < j < out.len() implies #[trigger] r(
            out[i],
            out[j],
        ) by {
            if i > 0 {
                assert(r(sub[i - 1], sub[j - 1]));
            }
        }
    }
}

proof fn lemma_sort_ranked(s: Seq<(u64, u64)>)
    ensures
        sorted_by(sort_ranked(s), rank_order()),
        sort_ranked(s).to_multiset() == s.to_multiset(),
    decreases s.len(),
{
    broadcast use group_to_multiset_ensures;
    broadcast use vstd::multiset::group_multiset_axioms;

    if s.len() == 0 {
    } else {
        let rest = s.drop_first();
        lemma_sort_ranked(rest);
        lemma_insert_ranked(s[0], sort_ranked(rest));
        lemma_multiset_commutative(seq![s[0]], rest);
        assert(seq![s[0]] =~= Seq::<(u64, u64)>::empty().push(s[0]));
        assert(s =~= seq![s[0]] + rest);
        assert(sort_ranked(s).to_multiset() =~= s.to_multiset());
    }
}

/// The insertion sort above and `Seq::sort_by` agree: both are the unique
/// ranked permutation.
pub proof fn lemma_sort_ranked_is_sort_by(s: Seq<(u64, u64)>)
    ensures
        sort_ranked(s) == s.sort_by(rank_order()),
        sorted_by(s.sort_by(rank_order()), rank_order()),
        s.sort_by(rank_order()).to_multiset() == s.to_multiset(),
        s.sort_by(rank_order()).len() == s.len(),
{
    broadcast use group_to_multiset_ensures;

    lemma_rank_total_ordering();
    lemma_sort_ranked(s);
    s.lemma_sort_by_ensures(rank_order());
    lemma_sorted_unique(sort_ranked(s), s.sort_by(rank_order()), rank_order());
    assert(s.sort_by(rank_order()).to_multiset().len() == s.to_multiset().len());
}

/// Decides `rank_le` on two entries.
pub fn rank_le_exec(a: (u64, u64), b: (u64, u64)) -> (r: bool)
    ensures
        r == rank_le(a, b),
{
    a.1 > b.1 || (a.1 == b.1 && a.0 <= b.0)
}

fn insert_entry(e: (u64, u64), v: Vec<(u64, u64)>) -> (r: Vec<(u64, u64)>)
    ensures
        r@ == insert_ranked(e, v@),
    decreases v@.len(),
{
    let mut v = v;
    if v.len() == 0 {
        v.push(e);
        proof {
            assert(v@ =~= insert_ranked(e, Seq::<(u64, u64)>::empty()));
        }
        v
    } else if rank_le_exec(e, v[0]) {
        let ghost orig = v@;
        v.insert(0, e);
        proof {
            assert(v@ =~= seq![e] + orig);
        }
        v
    } else {
        let ghost orig = v@;
        let head = v.remove(0);
        proof {
            assert(v@ =~= orig.drop_first());
        }
        let mut r = insert_entry(e, v);
        r.insert(0, head);
        proof {
            assert(r@ =~= seq![head] + insert_ranked(e, orig.drop_first()));
        }
        r
    }
}

/// Sorts the entries by rank: count descending, ties by ascending user.
/// The result is exactly `Seq::sort_by(rank_order())` of the input.
pub fn sort_entries(v: Vec<(u64, u64)>) -> (r: Vec<(u64, u64)>)
    ensures
        r@ == v@.sort_by(rank_order()),
    decreases v@.len(),
{
    proof {
        lemma_sort_ranked_is_sort_by(v@);
    }
    let mut v = v;
    if v.len() == 0 {
        v
    } else {
        let ghost orig = v@;
        let head = v.remove(0);
        proof {
            assert(v@ =~= orig.drop_first());
        }
        let sorted_rest = sort_entries(v);
        proof {
            lemma_sort_ranked_is_sort_by(orig.drop_first());
        }
        let r = insert_entry(head, sorted_rest);
        proof {
            assert(r@ == insert_ranked(orig[0], sort_ranked(orig.drop_first())));
            assert(r@ == sort_ranked(orig));
        }
        r
    }
}

} // verus!
