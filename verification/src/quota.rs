//! How many games each day of a round gets: an equal share, and the games
//! left over one per day to the days nearest the middle of the round.

use vstd::arithmetic::div_mod::lemma_fundamental_div_mod;
use vstd::arithmetic::div_mod::lemma_mod_pos_bound;
use vstd::prelude::*;

verus! {

/// Index of the day in the middle of a round of `days` days.
pub open spec fn midpoint_index(days: int) -> int {
    days / 2
}

/// How far day `i` is from the middle day.
pub open spec fn midpoint_distance(i: int, days: int) -> int {
    if i <= midpoint_index(days) {
        midpoint_index(days) - i
    } else {
        i - midpoint_index(days)
    }
}

/// Position of day `i` when the days are put in order of their distance from
/// the middle day, nearest first, and the earlier first of two days equally
/// far: the middle day has rank 0, the day before it 1, the day after it 2.
pub open spec fn midpoint_rank(i: int, days: int) -> int {
    let m = midpoint_index(days);
    if i == m {
        0
    } else if i < m {
        2 * (m - i) - 1
    } else {
        2 * (i - m)
    }
}

/// Number of games on day `i` when `pairs` games are spread over `days` days.
pub open spec fn day_quota(i: int, pairs: int, days: int) -> int {
    pairs / days + if midpoint_rank(i, days) < pairs % days {
        1int
    } else {
        0int
    }
}

/// Number of games on the days before day `i`.
pub open spec fn quota_before(i: int, pairs: int, days: int) -> int
    decreases i,
{
    if i <= 0 {
        0
    } else {
        quota_before(i - 1, pairs, days) + day_quota(i - 1, pairs, days)
    }
}

/// Whether pair `k`, counting the pairs in the order in which they are
/// assigned, plays on day `i`: the days are filled in calendar order, each up
/// to its quota.
pub open spec fn pair_is_on_day(k: int, i: int, pairs: int, days: int) -> bool {
    &&& 0 <= i < days
    &&& quota_before(i, pairs, days) <= k < quota_before(i + 1, pairs, days)
}

/// Number of days before day `i` that get one game more than the equal share
/// when `extra` games are left over.
pub open spec fn extras_before(i: int, days: int, extra: int) -> int {
    let first = midpoint_index(days) - extra / 2;
    if i <= first {
        0
    } else if i >= first + extra {
        extra
    } else {
        i - first
    }
}

/// The rank orders the days by distance from the middle day, and the earlier
/// day first where two are equally far; it numbers them from 0 without gaps.
pub proof fn lemma_rank_orders_days(i: int, j: int, days: int)
    requires
        0 <= i < days,
        0 <= j < days,
    ensures
        0 <= midpoint_rank(i, days) < days,
        midpoint_rank(i, days) == midpoint_rank(j, days) <==> i == j,
        midpoint_rank(i, days) < midpoint_rank(j, days) <==> (midpoint_distance(i, days)
            < midpoint_distance(j, days) || (midpoint_distance(i, days) == midpoint_distance(
            j,
            days,
        ) && i < j)),
{
}

/// The days that get an extra game are the `extra` days from
/// `days / 2 - extra / 2` on.
pub proof fn lemma_extra_days(i: int, days: int, extra: int)
    requires
        0 <= i < days,
        0 <= extra < days,
    ensures
        midpoint_rank(i, days) < extra <==> midpoint_index(days) - extra / 2 <= i
            < midpoint_index(days) - extra / 2 + extra,
        0 <= midpoint_index(days) - extra / 2,
        midpoint_index(days) - extra / 2 + extra <= days,
{
}

/// The games before day `i`: `i` equal shares and the extra games of the days
/// before `i`.
pub proof fn lemma_quota_before(i: int, pairs: int, days: int)
    requires
        0 <= i <= days,
        0 <= pairs,
        1 <= days,
    ensures
        quota_before(i, pairs, days) == (pairs / days) * i + extras_before(
            i,
            days,
            pairs % days,
        ),
    decreases i,
{
    let share = pairs / days;
    let extra = pairs % days;
    lemma_mod_pos_bound(pairs, days);
    if i > 0 {
        lemma_quota_before(i - 1, pairs, days);
        lemma_extra_days(i - 1, days, extra);
        assert(share * i == share * (i - 1) + share) by (nonlinear_arith);
        assert(extras_before(i, days, extra) == extras_before(i - 1, days, extra) + if midpoint_rank(
            i - 1,
            days,
        ) < extra {
            1int
        } else {
            0int
        });
    } else {
        assert(share * i == 0) by (nonlinear_arith)
            requires
                i == 0,
        ;
    }
}

/// The quotas of all days add up to the number of pairs.
pub proof fn lemma_quotas_sum_to_pairs(pairs: int, days: int)
    requires
        0 <= pairs,
        1 <= days,
    ensures
        quota_before(days, pairs, days) == pairs,
{
    lemma_quota_before(days, pairs, days);
    lemma_mod_pos_bound(pairs, days);
    lemma_fundamental_div_mod(pairs, days);
    let share = pairs / days;
    assert(share * days == days * share) by (nonlinear_arith);
}

/// No day gets a negative number of games, and none more than all of them.
pub proof fn lemma_quota_bounds(i: int, pairs: int, days: int)
    requires
        0 <= i < days,
        0 <= pairs,
    ensures
        0 <= day_quota(i, pairs, days) <= pairs,
        0 <= quota_before(i, pairs, days),
        quota_before(i + 1, pairs, days) <= pairs,
{
    lemma_mod_pos_bound(pairs, days);
    lemma_fundamental_div_mod(pairs, days);
    lemma_quota_before(i, pairs, days);
    lemma_quota_before(i + 1, pairs, days);
    let share = pairs / days;
    assert(0 <= share) by (nonlinear_arith)
        requires
            pairs == days * share + pairs % days,
            0 <= pairs,
            0 <= pairs % days < days,
    ;
    assert(share * (i + 1) <= share * days) by (nonlinear_arith)
        requires
            0 <= share,
            i + 1 <= days,
    ;
    assert(0 <= share * i) by (nonlinear_arith)
        requires
            0 <= share,
            0 <= i,
    ;
    assert(share * days == days * share) by (nonlinear_arith);
    assert(share <= share * days) by (nonlinear_arith)
        requires
            0 <= share,
            1 <= days,
    ;
}

/// The numbers of games on any two days of a round differ by at most one.
pub proof fn lemma_day_balance(i: int, j: int, pairs: int, days: int)
    ensures
        -1 <= day_quota(i, pairs, days) - day_quota(j, pairs, days) <= 1,
{
}

/// A pair plays on one day only.
pub proof fn lemma_pair_day_unique(k: int, i: int, j: int, pairs: int, days: int)
    requires
        0 <= pairs,
        pair_is_on_day(k, i, pairs, days),
        pair_is_on_day(k, j, pairs, days),
    ensures
        i == j,
{
    if i < j {
        lemma_quota_before_monotone(i + 1, j, pairs, days);
    } else if j < i {
        lemma_quota_before_monotone(j + 1, i, pairs, days);
    }
}

/// Later days have at least as many games before them.
pub proof fn lemma_quota_before_monotone(i: int, j: int, pairs: int, days: int)
    requires
        0 <= i <= j <= days,
        0 <= pairs,
    ensures
        quota_before(i, pairs, days) <= quota_before(j, pairs, days),
    decreases j - i,
{
    if i < j {
        lemma_quota_before_monotone(i, j - 1, pairs, days);
        lemma_quota_bounds(j - 1, pairs, days);
    }
}

/// The number of games on day `i`.
pub fn quota_of_day(i: usize, pairs: usize, days: usize) -> (q: usize)
    requires
        i < days,
    ensures
        q == day_quota(i as int, pairs as int, days as int),
{
    let share: usize = pairs / days;
    let extra: usize = pairs % days;
    let m: usize = days / 2;
    // day `i` has a rank below `extra` when it is one of the `extra` days
    // from `m - extra / 2` on
    let first: usize = m - extra / 2;
    proof {
        lemma_extra_days(i as int, days as int, extra as int);
    }
    if first <= i && i - first < extra {
        proof {
            lemma_quota_bounds(i as int, pairs as int, days as int);
        }
        share + 1
    } else {
        share
    }
}

} // verus!
