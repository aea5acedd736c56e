//! Ordering and selection of synthesized opportunities.
//!
//! Opportunities are ranked by descending implied rate. The sort is a
//! stable insertion sort, written as a specification that the executable
//! code in [`crate::logic`] mirrors exactly; stability makes ranking an
//! already-ranked list the identity, which is proved here.

use crate::logic::Opportunity;
use crate::models::logic_models::TradingCurrencyType;
use crate::rational::{lemma_rat_ge_trans, rat_ge};
use vstd::prelude::*;

verus! {

/// Descending comparison: `a` ranks at least as high as `b`.
pub open spec fn opp_ge(a: Opportunity, b: Opportunity) -> bool {
    rat_ge(a.implied_rate@, b.implied_rate@)
}

/// Every element ranks at least as high as every later one.
pub open spec fn sorted_desc(s: Seq<Opportunity>) -> bool {
    forall|i: int, j: int| 0 <= i < j < s.len() ==> opp_ge(#[trigger] s[i], #[trigger] s[j])
}

/// All implied rates have positive denominators, which makes the ranking
/// order total and transitive; the synthesis stage only ever produces
/// such opportunities.
pub open spec fn all_wf(s: Seq<Opportunity>) -> bool {
    forall|i: int| 0 <= i < s.len() ==> (#[trigger] s[i]).implied_rate.wf()
}

/// Insertion of one element into a descending list: it lands after every
/// element that ranks at least as high, so inserting after equals keeps
/// the sort stable.
pub open spec fn insert_desc(s: Seq<Opportunity>, x: Opportunity) -> Seq<Opportunity>
    decreases s.len(),
{
    if s.len() == 0 {
        seq![x]
    } else if opp_ge(s.last(), x) {
        s.push(x)
    } else {
        insert_desc(s.drop_last(), x).push(s.last())
    }
}

/// Stable insertion sort by descending implied rate.
pub open spec fn sort_desc(s: Seq<Opportunity>) -> Seq<Opportunity>
    decreases s.len(),
{
    if s.len() == 0 {
        s
    } else {
        insert_desc(sort_desc(s.drop_last()), s.last())
    }
}

/// The subsequence of opportunities departing from `hub`, in order.
pub open spec fn filter_hub(s: Seq<Opportunity>, hub: TradingCurrencyType) -> Seq<Opportunity>
    decreases s.len(),
{
    if s.len() == 0 {
        Seq::empty()
    } else {
        let rest = filter_hub(s.drop_last(), hub);
        if s.last().hub_one == hub {
            rest.push(s.last())
        } else {
            rest
        }
    }
}

/// What ranking returns: the opportunities departing from `hub`, sorted
/// by descending implied rate, truncated to the first `n`.
pub open spec fn rank_spec(s: Seq<Opportunity>, hub: TradingCurrencyType, n: int) -> Seq<
    Opportunity,
> {
    let f = filter_hub(sort_desc(s), hub);
    if n >= f.len() {
        f
    } else {
        f.take(n)
    }
}

/// How many times one opportunity occurs in a sequence.
pub open spec fn count_of(s: Seq<Opportunity>, x: Opportunity) -> int
    decreases s.len(),
{
    if s.len() == 0 {
        0
    } else {
        count_of(s.drop_last(), x) + if s.last() == x {
            1int
        } else {
            0int
        }
    }
}

/// An element that occurs nowhere in a sequence has count zero.
pub proof fn lemma_count_zero(s: Seq<Opportunity>, e: Opportunity)
    requires
        forall|k: int| 0 <= k < s.len() ==> (#[trigger] s[k]) != e,
    ensures
        count_of(s, e) == 0,
    decreases s.len(),
{
    if s.len() > 0 {
        assert(forall|k: int| 0 <= k < s.drop_last().len() ==> (#[trigger] s.drop_last()[k])
            == s[k]);
        lemma_count_zero(s.drop_last(), e);
        assert(s[s.len() - 1] == s.last());
    }
}

/// An element present at some position occurs at least once.
pub proof fn lemma_count_at_least_one(s: Seq<Opportunity>, e: Opportunity, i: int)
    requires
        0 <= i < s.len(),
        s[i] == e,
    ensures
        count_of(s, e) >= 1,
    decreases s.len(),
{
    if i == s.len() - 1 {
        assert(count_of(s.drop_last(), e) >= 0) by {
            lemma_count_nonneg(s.drop_last(), e);
        }
    } else {
        assert(s.drop_last()[i] == s[i]);
        lemma_count_at_least_one(s.drop_last(), e, i);
    }
}

/// Occurrence counts are never negative.
pub proof fn lemma_count_nonneg(s: Seq<Opportunity>, e: Opportunity)
    ensures
        count_of(s, e) >= 0,
    decreases s.len(),
{
    if s.len() > 0 {
        lemma_count_nonneg(s.drop_last(), e);
    }
}

/// An element present at two distinct positions occurs at least twice.
pub proof fn lemma_count_at_least_two(s: Seq<Opportunity>, e: Opportunity, i: int, j: int)
    requires
        0 <= i < j < s.len(),
        s[i] == e,
        s[j] == e,
    ensures
        count_of(s, e) >= 2,
    decreases s.len(),
{
    if j == s.len() - 1 {
        assert(s.drop_last()[i] == s[i]);
        lemma_count_at_least_one(s.drop_last(), e, i);
    } else {
        assert(s.drop_last()[i] == s[i]);
        assert(s.drop_last()[j] == s[j]);
        lemma_count_at_least_two(s.drop_last(), e, i, j);
    }
}

/// In a sequence of pairwise-distinct elements nothing occurs twice.
pub proof fn lemma_count_of_distinct(s: Seq<Opportunity>, e: Opportunity)
    requires
        forall|i: int, j: int| 0 <= i < j < s.len() ==> (#[trigger] s[i]) != (#[trigger] s[j]),
    ensures
        count_of(s, e) <= 1,
    decreases s.len(),
{
    if s.len() > 0 {
        assert(forall|k: int| 0 <= k < s.drop_last().len() ==> (#[trigger] s.drop_last()[k])
            == s[k]);
        lemma_count_of_distinct(s.drop_last(), e);
        if s.last() == e {
            assert(forall|k: int|
                0 <= k < s.drop_last().len() ==> (#[trigger] s.drop_last()[k]) != e);
            lemma_count_zero(s.drop_last(), e);
        }
    }
}

/// A positive count names a position.
pub proof fn lemma_count_pos_exists(s: Seq<Opportunity>, e: Opportunity)
    requires
        count_of(s, e) >= 1,
    ensures
        exists|i: int| 0 <= i < s.len() && (#[trigger] s[i]) == e,
    decreases s.len(),
{
    if s.len() > 0 {
        if s.last() == e {
            assert(s[s.len() - 1] == e);
        } else {
            lemma_count_pos_exists(s.drop_last(), e);
            let i = choose|i: int| 0 <= i < s.drop_last().len() && (#[trigger] s.drop_last()[i])
                == e;
            assert(s[i] == e);
        }
    }
}

/// Insertion adds exactly one occurrence of the inserted element.
pub proof fn lemma_insert_desc_count(s: Seq<Opportunity>, x: Opportunity, e: Opportunity)
    ensures
        count_of(insert_desc(s, x), e) == count_of(s, e) + if x == e {
            1int
        } else {
            0int
        },
    decreases s.len(),
{
    if s.len() == 0 {
        assert((seq![x]).drop_last() =~= Seq::<Opportunity>::empty());
        assert(count_of(Seq::<Opportunity>::empty(), e) == 0);
        assert((seq![x]).last() == x);
    } else if opp_ge(s.last(), x) {
        assert(s.push(x).drop_last() =~= s);
        assert(s.push(x).last() == x);
    } else {
        lemma_insert_desc_count(s.drop_last(), x, e);
        let t = insert_desc(s.drop_last(), x);
        assert(t.push(s.last()).drop_last() =~= t);
        assert(t.push(s.last()).last() == s.last());
    }
}

/// Sorting preserves the number of occurrences of every element.
pub proof fn lemma_sort_desc_count(s: Seq<Opportunity>, e: Opportunity)
    ensures
        count_of(sort_desc(s), e) == count_of(s, e),
    decreases s.len(),
{
    if s.len() > 0 {
        lemma_sort_desc_count(s.drop_last(), e);
        lemma_insert_desc_count(sort_desc(s.drop_last()), s.last(), e);
    }
}

/// Every element of an insertion result is the inserted element or one of
/// the original ones, and the length grows by one.
pub proof fn lemma_insert_desc_elems(s: Seq<Opportunity>, x: Opportunity)
    ensures
        insert_desc(s, x).len() == s.len() + 1,
        forall|p: int|
            0 <= p < insert_desc(s, x).len() ==> (#[trigger] insert_desc(s, x)[p]) == x
                || s.contains(insert_desc(s, x)[p]),
    decreases s.len(),
{
    if s.len() == 0 {
    } else if opp_ge(s.last(), x) {
    } else {
        lemma_insert_desc_elems(s.drop_last(), x);
        assert forall|p: int|
            0 <= p < insert_desc(s, x).len() implies (#[trigger] insert_desc(s, x)[p]) == x
            || s.contains(insert_desc(s, x)[p]) by {
            let t = insert_desc(s.drop_last(), x);
            if p < t.len() {
                assert(insert_desc(s, x)[p] == t[p]);
                if t[p] != x {
                    let k = choose|k: int| 0 <= k < s.drop_last().len() && s.drop_last()[k] == t[p];
                    assert(s[k] == t[p]);
                }
            } else {
                assert(insert_desc(s, x)[p] == s.last());
                assert(s[s.len() - 1] == s.last());
            }
        }
    }
}

/// Insertion into a descending list keeps it descending.
pub proof fn lemma_insert_desc_sorted(s: Seq<Opportunity>, x: Opportunity)
    requires
        sorted_desc(s),
        all_wf(s),
        x.implied_rate.wf(),
    ensures
        sorted_desc(insert_desc(s, x)),
        all_wf(insert_desc(s, x)),
    decreases s.len(),
{
    lemma_insert_desc_elems(s, x);
    if s.len() == 0 {
    } else if opp_ge(s.last(), x) {
        assert forall|i: int, j: int|
            0 <= i < j < insert_desc(s, x).len() implies opp_ge(
            #[trigger] insert_desc(s, x)[i],
            #[trigger] insert_desc(s, x)[j],
        ) by {
            if j == s.len() {
                if i < s.len() - 1 {
                    lemma_rat_ge_trans(s[i].implied_rate@, s.last().implied_rate@, x.implied_rate@);
                }
            }
        }
    } else {
        let t = insert_desc(s.drop_last(), x);
        lemma_insert_desc_sorted(s.drop_last(), x);
        lemma_insert_desc_elems(s.drop_last(), x);
        assert forall|i: int, j: int|
            0 <= i < j < insert_desc(s, x).len() implies opp_ge(
            #[trigger] insert_desc(s, x)[i],
            #[trigger] insert_desc(s, x)[j],
        ) by {
            if j == t.len() {
                // the appended former last element ranks below x (by
                // totality) and below every original element
                assert(insert_desc(s, x)[j] == s.last());
                assert(insert_desc(s, x)[i] == t[i]);
                if t[i] == x {
                    assert(rat_ge(x.implied_rate@, s.last().implied_rate@) || rat_ge(
                        s.last().implied_rate@,
                        x.implied_rate@,
                    ));
                } else {
                    let k = choose|k: int|
                        0 <= k < s.drop_last().len() && s.drop_last()[k] == t[i];
                    assert(s[k] == t[i]);
                    assert(opp_ge(s[k], s[s.len() - 1]));
                }
            }
        }
    }
}

/// An insertion sort result is descending and well-formed, with the same
/// length as its input.
pub proof fn lemma_sort_desc_sorted(s: Seq<Opportunity>)
    requires
        all_wf(s),
    ensures
        sorted_desc(sort_desc(s)),
        all_wf(sort_desc(s)),
        sort_desc(s).len() == s.len(),
        forall|p: int|
            0 <= p < sort_desc(s).len() ==> s.contains(#[trigger] sort_desc(s)[p]),
    decreases s.len(),
{
    if s.len() > 0 {
        assert(all_wf(s.drop_last())) by {
            assert(forall|i: int|
                0 <= i < s.drop_last().len() ==> (#[trigger] s.drop_last()[i]) == s[i]);
        }
        lemma_sort_desc_sorted(s.drop_last());
        assert(s.last().implied_rate.wf()) by {
            assert(s[s.len() - 1] == s.last());
        }
        lemma_insert_desc_sorted(sort_desc(s.drop_last()), s.last());
        lemma_insert_desc_elems(sort_desc(s.drop_last()), s.last());
        assert forall|p: int|
            0 <= p < sort_desc(s).len() implies s.contains(#[trigger] sort_desc(s)[p]) by {
            if sort_desc(s)[p] == s.last() {
                assert(s[s.len() - 1] == s.last());
            } else {
                let q = choose|q: int|
                    0 <= q < sort_desc(s.drop_last()).len() && sort_desc(s.drop_last())[q]
                        == sort_desc(s)[p];
                let k = choose|k: int|
                    0 <= k < s.drop_last().len() && s.drop_last()[k] == sort_desc(s)[p];
                assert(s[k] == sort_desc(s)[p]);
            }
        }
    }
}

/// Inserting at the position that the executable search finds is exactly
/// the specified stable insertion.
pub proof fn lemma_insert_desc_at(s: Seq<Opportunity>, x: Opportunity, pos: int)
    requires
        0 <= pos <= s.len(),
        forall|k: int| 0 <= k < pos ==> opp_ge(#[trigger] s[k], x),
        forall|k: int| pos <= k < s.len() ==> !opp_ge(#[trigger] s[k], x),
    ensures
        insert_desc(s, x) =~= s.insert(pos, x),
    decreases s.len(),
{
    if s.len() == 0 {
    } else if pos == s.len() {
        assert(opp_ge(s[s.len() - 1], x));
    } else {
        assert(!opp_ge(s[s.len() - 1], x));
        assert(forall|k: int| 0 <= k < s.drop_last().len() ==> (#[trigger] s.drop_last()[k])
            == s[k]);
        lemma_insert_desc_at(s.drop_last(), x, pos);
    }
}

/// Sorting an already-descending list returns it unchanged.
pub proof fn lemma_sort_desc_of_sorted(s: Seq<Opportunity>)
    requires
        sorted_desc(s),
    ensures
        sort_desc(s) == s,
    decreases s.len(),
{
    if s.len() > 0 {
        assert(forall|k: int| 0 <= k < s.drop_last().len() ==> (#[trigger] s.drop_last()[k])
            == s[k]);
        lemma_sort_desc_of_sorted(s.drop_last());
        if s.len() >= 2 {
            assert(opp_ge(s[s.len() - 2], s[s.len() - 1]));
            assert(sort_desc(s) == s.drop_last().push(s.last()));
        }
        assert(sort_desc(s) =~= s);
    }
}

/// The hub filter yields elements of its input, all departing from the
/// given hub, and keeps a descending list descending.
pub proof fn lemma_filter_hub_props(s: Seq<Opportunity>, hub: TradingCurrencyType)
    ensures
        forall|p: int|
            0 <= p < filter_hub(s, hub).len() ==> s.contains(#[trigger] filter_hub(s, hub)[p])
                && filter_hub(s, hub)[p].hub_one == hub,
        sorted_desc(s) ==> sorted_desc(filter_hub(s, hub)),
        filter_hub(s, hub).len() <= s.len(),
    decreases s.len(),
{
    if s.len() > 0 {
        lemma_filter_hub_props(s.drop_last(), hub);
        let f = filter_hub(s, hub);
        let rest = filter_hub(s.drop_last(), hub);
        assert forall|p: int|
            0 <= p < f.len() implies s.contains(#[trigger] f[p]) && f[p].hub_one == hub by {
            if p < rest.len() {
                assert(f[p] == rest[p]);
                let k = choose|k: int| 0 <= k < s.drop_last().len() && s.drop_last()[k] == rest[p];
                assert(s[k] == rest[p]);
            } else {
                assert(f[p] == s.last());
                assert(s[s.len() - 1] == s.last());
            }
        }
        if sorted_desc(s) {
            assert(sorted_desc(s.drop_last())) by {
                assert(forall|k: int|
                    0 <= k < s.drop_last().len() ==> (#[trigger] s.drop_last()[k]) == s[k]);
            }
            if s.last().hub_one == hub {
                assert forall|i: int, j: int| 0 <= i < j < f.len() implies opp_ge(
                    #[trigger] f[i],
                    #[trigger] f[j],
                ) by {
                    if j == f.len() - 1 {
                        let k = choose|k: int|
                            0 <= k < s.drop_last().len() && s.drop_last()[k] == rest[i];
                        assert(s[k] == f[i]);
                        assert(opp_ge(s[k], s[s.len() - 1]));
                    }
                }
            }
        }
    }
}

/// Filtering a list whose every element already departs from the hub
/// returns it unchanged.
pub proof fn lemma_filter_hub_all_match(s: Seq<Opportunity>, hub: TradingCurrencyType)
    requires
        forall|p: int| 0 <= p < s.len() ==> (#[trigger] s[p]).hub_one == hub,
    ensures
        filter_hub(s, hub) == s,
    decreases s.len(),
{
    if s.len() > 0 {
        assert(forall|k: int| 0 <= k < s.drop_last().len() ==> (#[trigger] s.drop_last()[k])
            == s[k]);
        lemma_filter_hub_all_match(s.drop_last(), hub);
        assert(s[s.len() - 1].hub_one == hub);
        assert(filter_hub(s, hub) =~= s);
    }
}

/// Ranking is idempotent: ranking an already-ranked, already-truncated
/// list again, for the same hub and the same size, returns it unchanged.
pub proof fn lemma_rank_idempotent(s: Seq<Opportunity>, hub: TradingCurrencyType, n: int)
    requires
        all_wf(s),
        n >= 0,
    ensures
        rank_spec(rank_spec(s, hub, n), hub, n) == rank_spec(s, hub, n),
{
    lemma_sort_desc_sorted(s);
    lemma_filter_hub_props(sort_desc(s), hub);
    let f = filter_hub(sort_desc(s), hub);
    let r = rank_spec(s, hub, n);
    assert(sorted_desc(r) && r.len() <= n || n >= f.len()) by {
        if n < f.len() {
            assert(forall|k: int| 0 <= k < r.len() ==> (#[trigger] r[k]) == f[k]);
        }
    }
    assert(sorted_desc(r)) by {
        if n < f.len() {
            assert(forall|k: int| 0 <= k < r.len() ==> (#[trigger] r[k]) == f[k]);
        }
    }
    assert(forall|p: int| 0 <= p < r.len() ==> (#[trigger] r[p]).hub_one == hub) by {
        if n < f.len() {
            assert(forall|k: int| 0 <= k < r.len() ==> (#[trigger] r[k]) == f[k]);
        }
    }
    lemma_sort_desc_of_sorted(r);
    lemma_filter_hub_all_match(r, hub);
    assert(r.len() <= n || r == f);
    if r.len() > n {
        assert(r == f && n >= f.len());
        assert(false);
    }
    assert(rank_spec(r, hub, n) == r);
}

} // verus!
