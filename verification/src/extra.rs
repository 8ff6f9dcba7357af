//! One more game for a round that already has its games: a repair for rounds
//! with an odd number of teams.

use crate::allocator::all_stored;
use crate::allocator::roster_ids;
use crate::allocator::team_ids;
use crate::allocator::window_days;
use crate::date::Date;
use crate::game::Game;
use crate::quota::midpoint_index;
use crate::random::pick_pair;
use crate::team::Team;
use rand::thread_rng;
use vstd::prelude::*;

verus! {

/// Whether one of the games is between the two teams, whichever is at home.
pub open spec fn pair_is_scheduled(games: Seq<Game>, a: i32, b: i32) -> bool {
    exists|k: int| 0 <= k < games.len() && (#[trigger] games[k]).is_between(a, b)
}

/// The test that a pair of teams passes when none of the games is between
/// the two.
pub open spec fn unscheduled(games: Seq<Game>) -> spec_fn((i32, i32)) -> bool {
    |p: (i32, i32)| !pair_is_scheduled(games, p.0, p.1)
}

/// The pairs of the team at position `i` with each team after it in the
/// roster.
pub open spec fn row_pairs(roster: Seq<i32>, i: int) -> Seq<(i32, i32)> {
    Seq::new((roster.len() - i - 1) as nat, |d: int| (roster[i], roster[i + 1 + d]))
}

/// The pairs of the first `n` teams of the roster with each team after them.
pub open spec fn all_pairs_upto(roster: Seq<i32>, n: int) -> Seq<(i32, i32)>
    decreases n,
{
    if n <= 0 {
        Seq::empty()
    } else {
        all_pairs_upto(roster, n - 1) + row_pairs(roster, n - 1)
    }
}

/// Every pair of two places of the roster, the earlier place first: the
/// pairs of the first team, then those of the second, and so on.
pub open spec fn all_pairs(roster: Seq<i32>) -> Seq<(i32, i32)> {
    all_pairs_upto(roster, roster.len() as int)
}

/// The pairs of the roster that no game is between yet.
pub open spec fn open_pairs(roster: Seq<i32>, games: Seq<Game>) -> Seq<(i32, i32)> {
    all_pairs(roster).filter(unscheduled(games))
}

/// Whether `p` is a pair of two places of the roster that no game is between
/// yet.
pub open spec fn is_open_pair(roster: Seq<i32>, games: Seq<Game>, p: (i32, i32)) -> bool {
    &&& exists|i: int, j: int|
        0 <= i < j < roster.len() && p == (#[trigger] roster[i], #[trigger] roster[j])
    &&& !pair_is_scheduled(games, p.0, p.1)
}

/// Whether every pair of two places of the roster already has a game.
pub open spec fn all_pairs_scheduled(roster: Seq<i32>, games: Seq<Game>) -> bool {
    forall|i: int, j: int|
        0 <= i < j < roster.len() ==> pair_is_scheduled(
            games,
            #[trigger] roster[i],
            #[trigger] roster[j],
        )
}

/// The day nearest the middle of the round: the day that the allocator
/// serves first with a game left over.
pub open spec fn midpoint_day(start: Date, end: Date) -> int {
    start@ + midpoint_index(window_days(start, end))
}

/// The pairs listed up to place `n` are the pairs of two places of which the
/// earlier is before `n`.
proof fn lemma_all_pairs_upto_contains(roster: Seq<i32>, n: int, p: (i32, i32))
    requires
        0 <= n <= roster.len(),
    ensures
        all_pairs_upto(roster, n).contains(p) <==> exists|i: int, j: int|
            0 <= i < n && i < j < roster.len() && p == (#[trigger] roster[i], #[trigger] roster[j]),
    decreases n,
{
    if n > 0 {
        lemma_all_pairs_upto_contains(roster, n - 1, p);
        let before = all_pairs_upto(roster, n - 1);
        let row = row_pairs(roster, n - 1);
        let all = all_pairs_upto(roster, n);
        if all.contains(p) {
            let x = choose|x: int| 0 <= x < all.len() && all[x] == p;
            if x < before.len() {
                assert(before[x] == p);
                assert(before.contains(p));
            } else {
                let d = x - before.len();
                assert(row[d] == p);
                assert(p == (roster[n - 1], roster[n + d]));
            }
        }
        if exists|i: int, j: int|
            0 <= i < n && i < j < roster.len() && p == (#[trigger] roster[i], #[trigger] roster[j]) {
            let (i, j) = choose|i: int, j: int|
                0 <= i < n && i < j < roster.len() && p == (
                    #[trigger] roster[i],
                    #[trigger] roster[j],
                );
            if i < n - 1 {
                assert(before.contains(p));
                let x = choose|x: int| 0 <= x < before.len() && before[x] == p;
                assert(all[x] == p);
            } else {
                assert(row[j - n] == p);
                assert(all[before.len() + (j - n)] == p);
            }
        }
    }
}

/// The open pairs are the pairs of two places of the roster that no game is
/// between yet, and there is none exactly when every pair has its game.
pub proof fn lemma_open_pairs(roster: Seq<i32>, games: Seq<Game>)
    ensures
        forall|p: (i32, i32)| #[trigger]
            open_pairs(roster, games).contains(p) <==> is_open_pair(roster, games, p),
        open_pairs(roster, games).len() == 0 <==> all_pairs_scheduled(roster, games),
{
    let all = all_pairs(roster);
    let open = open_pairs(roster, games);
    let test = unscheduled(games);
    assert forall|p: (i32, i32)| #[trigger] open.contains(p) <==> is_open_pair(
        roster,
        games,
        p,
    ) by {
        lemma_all_pairs_upto_contains(roster, roster.len() as int, p);
        if open.contains(p) {
            all.lemma_filter_contains_rev(test, p);
            let x = choose|x: int| 0 <= x < open.len() && open[x] == p;
            all.lemma_filter_pred(test, x);
        }
        if is_open_pair(roster, games, p) {
            let x = choose|x: int| 0 <= x < all.len() && all[x] == p;
            all.lemma_filter_contains(test, x);
        }
    }
    if open.len() == 0 {
        assert forall|i: int, j: int| 0 <= i < j < roster.len() implies pair_is_scheduled(
            games,
            #[trigger] roster[i],
            #[trigger] roster[j],
        ) by {
            let p = (roster[i], roster[j]);
            if !pair_is_scheduled(games, p.0, p.1) {
                assert(is_open_pair(roster, games, p));
                assert(open.contains(p));
            }
        }
    } else {
        let p = open[0];
        assert(open.contains(p));
        assert(is_open_pair(roster, games, p));
    }
}

/// Whether one of the games is between the two teams.
pub fn is_scheduled(games: &Vec<Game>, a: i32, b: i32) -> (found: bool)
    ensures
        found == pair_is_scheduled(games@, a, b),
{
    let mut k: usize = 0;
    while k < games.len()
        invariant
            k <= games.len(),
            forall|x: int| 0 <= x < k ==> !(#[trigger] games[x]).is_between(a, b),
        decreases games.len() - k,
    {
        let g = &games[k];
        if (g.home_team_id == a && g.away_team_id == b) || (g.home_team_id == b && g.away_team_id
            == a) {
            return true;
        }
        k = k + 1;
    }
    false
}

/// Lists the pairs of the roster that no game is between yet.
pub fn list_open_pairs(roster: &Vec<i32>, games: &Vec<Game>) -> (pairs: Vec<(i32, i32)>)
    ensures
        pairs@ == open_pairs(roster@, games@),
{
    let ghost test = unscheduled(games@);
    let mut pairs: Vec<(i32, i32)> = Vec::new();
    let mut i: usize = 0;
    proof {
        reveal(Seq::filter);
        assert(all_pairs_upto(roster@, 0).filter(test) =~= Seq::empty());
    }
    while i < roster.len()
        invariant
            i <= roster.len(),
            test == unscheduled(games@),
            pairs@ == all_pairs_upto(roster@, i as int).filter(test),
        decreases roster.len() - i,
    {
        let ghost row = row_pairs(roster@, i as int);
        let ghost before = all_pairs_upto(roster@, i as int).filter(test);
        let mut j: usize = i + 1;
        proof {
            reveal(Seq::filter);
            assert(row.take(0).filter(test) =~= Seq::empty());
            assert(before + row.take(0).filter(test) =~= before);
        }
        while j < roster.len()
            invariant
                i < j <= roster.len(),
                test == unscheduled(games@),
                row == row_pairs(roster@, i as int),
                before == all_pairs_upto(roster@, i as int).filter(test),
                pairs@ == before + row.take(j - i - 1).filter(test),
            decreases roster.len() - j,
        {
            let a: i32 = roster[i];
            let b: i32 = roster[j];
            let scheduled = is_scheduled(games, a, b);
            proof {
                reveal(Seq::filter);
                let longer = row.take(j - i);
                assert(longer.drop_last() =~= row.take(j - i - 1));
                assert(longer.last() == (a, b));
                assert(test((a, b)) == !scheduled);
            }
            if !scheduled {
                pairs.push((a, b));
                assert(pairs@ =~= before + row.take(j - i).filter(test));
            }
            j = j + 1;
        }
        proof {
            assert(row.take(roster.len() - i - 1) =~= row);
            Seq::filter_distributes_over_add(all_pairs_upto(roster@, i as int), row, test);
        }
        i = i + 1;
    }
    pairs
}

/// The extra game for the pair that was picked, on the day nearest the middle
/// of the round; none where no pair could be picked.
pub fn extra_game(round_id: i32, picked: Option<(i32, i32)>, start: Date, end: Date) -> (game:
    Option<Game>)
    requires
        start@ <= end@,
    ensures
        match picked {
            Some(p) => game matches Some(g) && g.game_id is None && g.round_id == Some(round_id)
                && g.home_team_id == p.0 && g.away_team_id == p.1 && g.game_date@ == midpoint_day(
                start,
                end,
            ) && g.home_team_score is None && g.away_team_score is None,
            None => game is None,
        },
{
    match picked {
        Some(p) => {
            let first: i32 = start.day_number();
            let last: i32 = end.day_number();
            let days: i64 = last as i64 - first as i64 + 1;
            let day: Date = start.plus_days((days / 2) as i32).unwrap();
            Some(
                Game {
                    game_id: None,
                    round_id: Some(round_id),
                    home_team_id: p.0,
                    away_team_id: p.1,
                    game_date: day,
                    home_team_score: None,
                    away_team_score: None,
                },
            )
        },
        None => None,
    }
}

/// Finds one more game for the round: a pair of teams of the roster that no
/// existing game is between, picked at random among all such pairs, on the
/// day nearest the middle of the round.  Where every pair already has its
/// game there is none.  The existing games are not touched.  The two teams
/// are different teams where the roster lists no team twice.
pub fn add_extra_game(
    round_id: i32,
    teams: &Vec<Team>,
    start: Date,
    end: Date,
    existing_games: &Vec<Game>,
) -> (game: Option<Game>)
    requires
        all_stored(teams@),
        start@ <= end@,
    ensures
        match game {
            Some(g) => {
                &&& is_open_pair(
                    roster_ids(teams@),
                    existing_games@,
                    (g.home_team_id, g.away_team_id),
                )
                &&& !pair_is_scheduled(existing_games@, g.home_team_id, g.away_team_id)
                &&& roster_ids(teams@).no_duplicates() ==> g.home_team_id != g.away_team_id
                &&& g.game_date@ == midpoint_day(start, end)
                &&& g.game_id is None
                &&& g.round_id == Some(round_id)
                &&& g.home_team_score is None
                &&& g.away_team_score is None
            },
            None => all_pairs_scheduled(roster_ids(teams@), existing_games@),
        },
{
    let roster = team_ids(teams);
    let candidates = list_open_pairs(&roster, existing_games);
    let mut rng = thread_rng();
    let picked = pick_pair(&candidates, &mut rng);
    proof {
        lemma_open_pairs(roster@, existing_games@);
    }
    extra_game(round_id, picked, start, end)
}

} // verus!
