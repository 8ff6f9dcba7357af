//! The fixture allocator: from a roster and the days of a round to the
//! round's games.

use crate::date::is_day_number;
use crate::date::Date;
use crate::game::Game;
use crate::quota::day_quota;
use crate::quota::lemma_pair_day_unique;
use crate::quota::lemma_quota_bounds;
use crate::quota::lemma_quotas_sum_to_pairs;
use crate::quota::pair_is_on_day;
use crate::quota::quota_before;
use crate::quota::quota_of_day;
use crate::random::shuffle;
use crate::team::Team;
use rand::thread_rng;
use vstd::prelude::*;

verus! {

/// Whether every team of the roster has been stored, and so has an identity.
pub open spec fn all_stored(teams: Seq<Team>) -> bool {
    forall|i: int| 0 <= i < teams.len() ==> (#[trigger] teams[i]).id is Some
}

/// The identities of the roster's teams, in the roster's order.
pub open spec fn roster_ids(teams: Seq<Team>) -> Seq<i32> {
    Seq::new(teams.len(), |i: int| teams[i].id.unwrap())
}

/// Number of days from `start` to `end`, both counted.
pub open spec fn window_days(start: Date, end: Date) -> int {
    end@ - start@ + 1
}

/// Whether `g` is the fixture of pair `k` of `order`: the two teams at
/// positions `2k` and `2k + 1` of `order`, the first of them at home, on the
/// day that the quotas give to the pair, not stored and not played.
pub open spec fn is_fixture_of_pair(g: Game, k: int, order: Seq<i32>, start: Date, end: Date) -> bool {
    &&& g.game_id is None
    &&& g.home_team_id == order[2 * k]
    &&& g.away_team_id == order[2 * k + 1]
    &&& g.home_team_score is None
    &&& g.away_team_score is None
    &&& pair_is_on_day(
        k,
        g.game_date@ - start@,
        (order.len() / 2) as int,
        window_days(start, end),
    )
}

/// Whether `g` is the game of pair `k` of `order` in the round: the fixture
/// of the pair, as a game of the round.
pub open spec fn is_game_of_pair(
    g: Game,
    k: int,
    round_id: i32,
    order: Seq<i32>,
    start: Date,
    end: Date,
) -> bool {
    g.round_id == Some(round_id) && is_fixture_of_pair(g, k, order, start, end)
}

/// Whether `games` is the schedule of the teams taken in the given order:
/// one game for each pair of neighbours in `order` (a last team without a
/// neighbour plays no game), in the order of the pairs.
pub open spec fn is_schedule(
    games: Seq<Game>,
    round_id: i32,
    order: Seq<i32>,
    start: Date,
    end: Date,
) -> bool {
    &&& games.len() == order.len() / 2
    &&& forall|k: int|
        0 <= k < games.len() ==> is_game_of_pair(#[trigger] games[k], k, round_id, order, start, end)
}

/// Whether `games` is a schedule of the roster taken in some order.
pub open spec fn is_allocation(
    games: Seq<Game>,
    round_id: i32,
    roster: Seq<i32>,
    start: Date,
    end: Date,
) -> bool {
    exists|order: Seq<i32>|
        order.to_multiset() == roster.to_multiset() && #[trigger] is_schedule(
            games,
            round_id,
            order,
            start,
            end,
        )
}

/// The teams of the games, two for each game: home, then away.
pub open spec fn game_slots(games: Seq<Game>) -> Seq<i32> {
    Seq::new(
        2 * games.len(),
        |j: int|
            if j % 2 == 0 {
                games[j / 2].home_team_id
            } else {
                games[j / 2].away_team_id
            },
    )
}

/// Number of games played on the day with the given day number.
pub open spec fn games_on_day(games: Seq<Game>, day: int) -> nat
    decreases games.len(),
{
    if games.len() == 0 {
        0
    } else {
        games_on_day(games.drop_last(), day) + if games.last().game_date@ == day {
            1nat
        } else {
            0nat
        }
    }
}

/// The schedule of the teams taken in the given order.
pub fn allocate_in_order(round_id: i32, order: &Vec<i32>, start: Date, end: Date) -> (games: Vec<
    Game,
>)
    requires
        start@ <= end@,
    ensures
        is_schedule(games@, round_id, order@, start, end),
{
    let first: i32 = start.day_number();
    let last: i32 = end.day_number();
    let days: usize = (last as i64 - first as i64 + 1) as usize;
    let pairs: usize = order.len() / 2;
    let mut games: Vec<Game> = Vec::new();
    let mut i: usize = 0;
    while i < days
        invariant
            i <= days,
            days == window_days(start, end),
            first == start@,
            last == end@,
            is_day_number(first as int),
            is_day_number(last as int),
            pairs == order.len() / 2,
            games.len() == quota_before(i as int, pairs as int, days as int),
            forall|k: int|
                0 <= k < games.len() ==> is_game_of_pair(
                    #[trigger] games[k],
                    k,
                    round_id,
                    order@,
                    start,
                    end,
                ),
        decreases days - i,
    {
        let quota: usize = quota_of_day(i, pairs, days);
        proof {
            lemma_quota_bounds(i as int, pairs as int, days as int);
        }
        let day: Date = start.plus_days(i as i32).unwrap();
        let mut placed: usize = 0;
        while placed < quota
            invariant
                placed <= quota,
                i < days,
                days == window_days(start, end),
                pairs == order.len() / 2,
                quota == day_quota(i as int, pairs as int, days as int),
                quota_before(i as int + 1, pairs as int, days as int) <= pairs,
                day@ == start@ + i,
                games.len() == quota_before(i as int, pairs as int, days as int) + placed,
                forall|k: int|
                    0 <= k < games.len() ==> is_game_of_pair(
                        #[trigger] games[k],
                        k,
                        round_id,
                        order@,
                        start,
                        end,
                    ),
            decreases quota - placed,
        {
            let k: usize = games.len();
            let game = Game {
                game_id: None,
                round_id: Some(round_id),
                home_team_id: order[2 * k],
                away_team_id: order[2 * k + 1],
                game_date: day,
                home_team_score: None,
                away_team_score: None,
            };
            games.push(game);
            placed = placed + 1;
        }
        i = i + 1;
    }
    proof {
        lemma_quotas_sum_to_pairs(pairs as int, days as int);
    }
    games
}

/// Number of games among the first `n` that are played on day `i` of the
/// round: those of the day's quota that the first `n` pairs reach.
proof fn lemma_day_count_of_prefix(
    games: Seq<Game>,
    round_id: i32,
    order: Seq<i32>,
    start: Date,
    end: Date,
    i: int,
    n: int,
)
    requires
        is_schedule(games, round_id, order, start, end),
        start@ <= end@,
        0 <= i < window_days(start, end),
        0 <= n <= games.len(),
    ensures
        games_on_day(games.take(n), start@ + i) == {
            let pairs = (order.len() / 2) as int;
            let days = window_days(start, end);
            let before = quota_before(i, pairs, days);
            if n <= before {
                0
            } else if n >= before + day_quota(i, pairs, days) {
                day_quota(i, pairs, days)
            } else {
                n - before
            }
        },
    decreases n,
{
    let pairs = (order.len() / 2) as int;
    let days = window_days(start, end);
    lemma_quota_bounds(i, pairs, days);
    if n > 0 {
        lemma_day_count_of_prefix(games, round_id, order, start, end, i, n - 1);
        assert(games.take(n).drop_last() =~= games.take(n - 1));
        let g = games[n - 1];
        assert(games.take(n).last() == g);
        assert(is_game_of_pair(g, n - 1, round_id, order, start, end));
        let d = g.game_date@ - start@;
        if quota_before(i, pairs, days) <= n - 1 < quota_before(i + 1, pairs, days) {
            lemma_pair_day_unique(n - 1, d, i, pairs, days);
        }
    } else {
        assert(games.take(0).len() == 0);
    }
}

/// In a schedule, the number of games on each day of the round is that
/// day's quota.
pub proof fn lemma_schedule_day_counts(
    games: Seq<Game>,
    round_id: i32,
    order: Seq<i32>,
    start: Date,
    end: Date,
    i: int,
)
    requires
        is_schedule(games, round_id, order, start, end),
        start@ <= end@,
        0 <= i < window_days(start, end),
    ensures
        games_on_day(games, start@ + i) == day_quota(
            i,
            (order.len() / 2) as int,
            window_days(start, end),
        ),
{
    lemma_day_count_of_prefix(games, round_id, order, start, end, i, games.len() as int);
    lemma_quota_bounds(i, (order.len() / 2) as int, window_days(start, end));
    assert(games.take(games.len() as int) =~= games);
}

/// In a schedule, the numbers of games on any two days of the round differ
/// by at most one.
pub proof fn lemma_schedule_is_balanced(
    games: Seq<Game>,
    round_id: i32,
    order: Seq<i32>,
    start: Date,
    end: Date,
    i: int,
    j: int,
)
    requires
        is_schedule(games, round_id, order, start, end),
        start@ <= end@,
        0 <= i < window_days(start, end),
        0 <= j < window_days(start, end),
    ensures
        -1 <= games_on_day(games, start@ + i) - games_on_day(games, start@ + j) <= 1,
{
    lemma_schedule_day_counts(games, round_id, order, start, end, i);
    lemma_schedule_day_counts(games, round_id, order, start, end, j);
}

/// A schedule has one game for every two teams, every game on a day of the
/// round, and no team in more games than it has places in the order: at most
/// one where no team is listed twice.
pub proof fn lemma_schedule_covers(
    games: Seq<Game>,
    round_id: i32,
    order: Seq<i32>,
    start: Date,
    end: Date,
)
    requires
        is_schedule(games, round_id, order, start, end),
        start@ <= end@,
    ensures
        games.len() == order.len() / 2,
        forall|k: int|
            0 <= k < games.len() ==> start@ <= (#[trigger] games[k]).game_date@ <= end@,
        game_slots(games) == order.take(2 * games.len() as int),
        game_slots(games).to_multiset().subset_of(order.to_multiset()),
        order.no_duplicates() ==> game_slots(games).no_duplicates(),
{
    let slots = game_slots(games);
    let used: int = 2 * games.len() as int;
    assert forall|j: int| 0 <= j < used implies slots[j] == order[j] by {
        let k = j / 2;
        assert(is_game_of_pair(games[k], k, round_id, order, start, end));
    }
    assert(slots =~= order.take(used));
    assert(order =~= order.take(used) + order.skip(used));
    vstd::seq_lib::lemma_multiset_commutative(order.take(used), order.skip(used));
    assert forall|k: int| 0 <= k < games.len() implies start@ <= (
    #[trigger] games[k]).game_date@ <= end@ by {
        assert(is_game_of_pair(games[k], k, round_id, order, start, end));
    }
}

/// An allocation has one game for every two teams of the roster, every game
/// on a day of the round, and no team in more games than the roster lists
/// it: at most one where the roster lists no team twice.
pub proof fn lemma_allocation_covers(
    games: Seq<Game>,
    round_id: i32,
    roster: Seq<i32>,
    start: Date,
    end: Date,
)
    requires
        is_allocation(games, round_id, roster, start, end),
        start@ <= end@,
    ensures
        games.len() == roster.len() / 2,
        forall|k: int|
            0 <= k < games.len() ==> start@ <= (#[trigger] games[k]).game_date@ <= end@,
        game_slots(games).to_multiset().subset_of(roster.to_multiset()),
        roster.no_duplicates() ==> game_slots(games).no_duplicates(),
{
    let order = choose|order: Seq<i32>|
        order.to_multiset() == roster.to_multiset() && #[trigger] is_schedule(
            games,
            round_id,
            order,
            start,
            end,
        );
    lemma_schedule_covers(games, round_id, order, start, end);
    vstd::seq_lib::to_multiset_len(order);
    vstd::seq_lib::to_multiset_len(roster);
    if roster.no_duplicates() {
        roster.lemma_multiset_has_no_duplicates();
        order.lemma_multiset_has_no_duplicates_conv();
    }
}

/// In an allocation, the number of games on each day of the round is that
/// day's quota, so the numbers on any two days differ by at most one.
pub proof fn lemma_allocation_is_balanced(
    games: Seq<Game>,
    round_id: i32,
    roster: Seq<i32>,
    start: Date,
    end: Date,
    i: int,
    j: int,
)
    requires
        is_allocation(games, round_id, roster, start, end),
        start@ <= end@,
        0 <= i < window_days(start, end),
        0 <= j < window_days(start, end),
    ensures
        games_on_day(games, start@ + i) == day_quota(
            i,
            (roster.len() / 2) as int,
            window_days(start, end),
        ),
        -1 <= games_on_day(games, start@ + i) - games_on_day(games, start@ + j) <= 1,
{
    let order = choose|order: Seq<i32>|
        order.to_multiset() == roster.to_multiset() && #[trigger] is_schedule(
            games,
            round_id,
            order,
            start,
            end,
        );
    vstd::seq_lib::to_multiset_len(order);
    vstd::seq_lib::to_multiset_len(roster);
    lemma_schedule_day_counts(games, round_id, order, start, end, i);
    lemma_schedule_day_counts(games, round_id, order, start, end, j);
}

/// Whether every team of the roster has been stored.
pub fn is_stored_roster(teams: &Vec<Team>) -> (yes: bool)
    ensures
        yes == all_stored(teams@),
{
    let mut i: usize = 0;
    while i < teams.len()
        invariant
            i <= teams.len(),
            forall|j: int| 0 <= j < i ==> (#[trigger] teams[j]).id is Some,
        decreases teams.len() - i,
    {
        if teams[i].id.is_none() {
            return false;
        }
        i = i + 1;
    }
    true
}

/// The identities of the roster's teams, in the roster's order.
pub fn team_ids(teams: &Vec<Team>) -> (ids: Vec<i32>)
    requires
        all_stored(teams@),
    ensures
        ids@ == roster_ids(teams@),
{
    let mut ids: Vec<i32> = Vec::new();
    let mut i: usize = 0;
    while i < teams.len()
        invariant
            i <= teams.len(),
            all_stored(teams@),
            ids@ == roster_ids(teams@).take(i as int),
        decreases teams.len() - i,
    {
        let id: i32 = teams[i].id.unwrap();
        ids.push(id);
        assert(ids@ =~= roster_ids(teams@).take(i + 1));
        i = i + 1;
    }
    assert(ids@ =~= roster_ids(teams@));
    ids
}

/// Allocates the games of a round: the roster is shuffled, the teams are
/// paired off in the shuffled order (with an odd number of teams the last one
/// plays no game), and the pairs are spread over the days of the round, an
/// equal share for each day and the rest one each to the days nearest the
/// middle.
pub fn allocate_games(round_id: i32, teams: &Vec<Team>, start: Date, end: Date) -> (games: Vec<
    Game,
>)
    requires
        all_stored(teams@),
        start@ <= end@,
    ensures
        is_allocation(games@, round_id, roster_ids(teams@), start, end),
        games.len() == teams.len() / 2,
        forall|k: int|
            0 <= k < games.len() ==> start@ <= (#[trigger] games[k]).game_date@ <= end@,
        game_slots(games@).to_multiset().subset_of(roster_ids(teams@).to_multiset()),
        roster_ids(teams@).no_duplicates() ==> game_slots(games@).no_duplicates(),
        forall|i: int|
            0 <= i < window_days(start, end) ==> #[trigger] games_on_day(games@, start@ + i)
                == day_quota(i, (teams.len() / 2) as int, window_days(start, end)),
{
    let mut order: Vec<i32> = team_ids(teams);
    let mut rng = thread_rng();
    shuffle(&mut order, &mut rng);
    let games = allocate_in_order(round_id, &order, start, end);
    proof {
        let roster = roster_ids(teams@);
        assert(is_schedule(games@, round_id, order@, start, end));
        lemma_allocation_covers(games@, round_id, roster, start, end);
        assert forall|i: int| 0 <= i < window_days(start, end) implies #[trigger] games_on_day(
            games@,
            start@ + i,
        ) == day_quota(i, (teams.len() / 2) as int, window_days(start, end)) by {
            lemma_allocation_is_balanced(games@, round_id, roster, start, end, i, i);
        }
    }
    games
}

} // verus!
