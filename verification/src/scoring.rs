//! The scoring engine: points for correct tips, the bonus for a perfect
//! round, and the order of the competitors.

use crate::game::Game;
use crate::round::Round;
use crate::tip::Tip;
use vstd::prelude::*;

verus! {

/// Whether a game counts when only the games of one round are asked for, or
/// all games where no round is named.
pub open spec fn in_scope(g: Game, round_filter: Option<i32>) -> bool {
    round_filter is None || g.round_id == round_filter
}

/// Whether the game has both final scores and ended in a draw.
pub open spec fn is_draw(g: Game) -> bool {
    g.is_complete() && g.home_team_score.unwrap() == g.away_team_score.unwrap()
}

/// Whether the game has both final scores and the team has won it.
pub open spec fn has_won(g: Game, team_id: i32) -> bool {
    &&& g.is_complete()
    &&& (team_id == g.home_team_id && g.home_team_score.unwrap() > g.away_team_score.unwrap())
        || (team_id == g.away_team_id && g.away_team_score.unwrap()
        > g.home_team_score.unwrap())
}

/// Whether the tip is right for the game: the team picked has won, or the
/// game ended in a draw and the team picked is one of the two.  So a draw
/// counts for every competitor who picked either team, and a game without
/// both final scores for none.
pub open spec fn tip_is_correct(tip: Tip, g: Game) -> bool {
    match tip.team_id {
        Some(team_id) => has_won(g, team_id) || (is_draw(g) && g.involves(team_id)),
        None => false,
    }
}

/// The first of the games with the identity, if there is one.
pub open spec fn game_of(games: Seq<Game>, game_id: i32) -> Option<Game>
    decreases games.len(),
{
    if games.len() == 0 {
        None
    } else if games[0].game_id == Some(game_id) {
        Some(games[0])
    } else {
        game_of(games.drop_first(), game_id)
    }
}

/// The points of one tip: 1 if its game is among the games, counts, and the
/// tip is right for it; 0 otherwise.
pub open spec fn tip_points(tip: Tip, games: Seq<Game>, round_filter: Option<i32>) -> int {
    match game_of(games, tip.game_id) {
        Some(g) => if in_scope(g, round_filter) && tip_is_correct(tip, g) {
            1
        } else {
            0
        },
        None => 0,
    }
}

/// The points of all tips of a competitor.
pub open spec fn tip_score(
    tipper_id: Option<i32>,
    tips: Seq<Tip>,
    games: Seq<Game>,
    round_filter: Option<i32>,
) -> int
    decreases tips.len(),
{
    if tips.len() == 0 {
        0
    } else {
        tip_score(tipper_id, tips.drop_last(), games, round_filter) + if tipper_id == Some(
            tips.last().tipper_id,
        ) {
            tip_points(tips.last(), games, round_filter)
        } else {
            0
        }
    }
}

/// The number of games of a round.
pub open spec fn games_in_round(games: Seq<Game>, round_id: Option<i32>) -> int
    decreases games.len(),
{
    if games.len() == 0 {
        0
    } else {
        games_in_round(games.drop_last(), round_id) + if games.last().round_id == round_id {
            1int
        } else {
            0int
        }
    }
}

/// The bonus of a competitor for one round: the round's bonus points if the
/// round has games and the competitor has a point for every one of them,
/// nothing otherwise.
pub open spec fn round_bonus(
    tipper_id: Option<i32>,
    round: Round,
    tips: Seq<Tip>,
    games: Seq<Game>,
) -> int {
    if round.round_id is Some && games_in_round(games, round.round_id) > 0 && tip_score(
        tipper_id,
        tips,
        games,
        round.round_id,
    ) == games_in_round(games, round.round_id) {
        round.bonus_points as int
    } else {
        0
    }
}

/// Whether a round counts when only one round is asked for, or all rounds
/// where no round is named.
pub open spec fn round_in_scope(round: Round, round_filter: Option<i32>) -> bool {
    round_filter is None || round.round_id == round_filter
}

/// The bonuses of a competitor for all rounds that count.
pub open spec fn bonus_score(
    tipper_id: Option<i32>,
    rounds: Seq<Round>,
    tips: Seq<Tip>,
    games: Seq<Game>,
    round_filter: Option<i32>,
) -> int
    decreases rounds.len(),
{
    if rounds.len() == 0 {
        0
    } else {
        bonus_score(tipper_id, rounds.drop_last(), tips, games, round_filter) + if round_in_scope(
            rounds.last(),
            round_filter,
        ) {
            round_bonus(tipper_id, rounds.last(), tips, games)
        } else {
            0
        }
    }
}

/// The tip score lies between nothing and one point for each tip.
pub proof fn lemma_tip_score_bounds(
    tipper_id: Option<i32>,
    tips: Seq<Tip>,
    games: Seq<Game>,
    round_filter: Option<i32>,
)
    ensures
        0 <= tip_score(tipper_id, tips, games, round_filter) <= tips.len(),
    decreases tips.len(),
{
    if tips.len() > 0 {
        lemma_tip_score_bounds(tipper_id, tips.drop_last(), games, round_filter);
    }
}

/// A round has no more games than there are games.
pub proof fn lemma_games_in_round_bounds(games: Seq<Game>, round_id: Option<i32>)
    ensures
        0 <= games_in_round(games, round_id) <= games.len(),
    decreases games.len(),
{
    if games.len() > 0 {
        lemma_games_in_round_bounds(games.drop_last(), round_id);
    }
}

/// The bonus score lies within the largest bonus that the rounds could add
/// up to.
pub proof fn lemma_bonus_score_bounds(
    tipper_id: Option<i32>,
    rounds: Seq<Round>,
    tips: Seq<Tip>,
    games: Seq<Game>,
    round_filter: Option<i32>,
)
    ensures
        -0x8000_0000 * rounds.len() <= bonus_score(tipper_id, rounds, tips, games, round_filter)
            <= 0x7fff_ffff * rounds.len(),
    decreases rounds.len(),
{
    if rounds.len() > 0 {
        lemma_bonus_score_bounds(tipper_id, rounds.drop_last(), tips, games, round_filter);
    }
}

/// A competitor without tips has no points and no bonus.
pub proof fn lemma_no_tips_no_score(
    tipper_id: Option<i32>,
    rounds: Seq<Round>,
    tips: Seq<Tip>,
    games: Seq<Game>,
    round_filter: Option<i32>,
)
    requires
        forall|x: int| 0 <= x < tips.len() ==> tipper_id != Some((#[trigger] tips[x]).tipper_id),
    ensures
        tip_score(tipper_id, tips, games, round_filter) == 0,
        bonus_score(tipper_id, rounds, tips, games, round_filter) == 0,
    decreases rounds.len(), tips.len(),
{
    lemma_no_tips_no_points(tipper_id, tips, games, round_filter);
    if rounds.len() > 0 {
        lemma_no_tips_no_score(tipper_id, rounds.drop_last(), tips, games, round_filter);
        lemma_no_tips_no_points(tipper_id, tips, games, rounds.last().round_id);
    }
}

proof fn lemma_no_tips_no_points(
    tipper_id: Option<i32>,
    tips: Seq<Tip>,
    games: Seq<Game>,
    round_filter: Option<i32>,
)
    requires
        forall|x: int| 0 <= x < tips.len() ==> tipper_id != Some((#[trigger] tips[x]).tipper_id),
    ensures
        tip_score(tipper_id, tips, games, round_filter) == 0,
    decreases tips.len(),
{
    if tips.len() > 0 {
        assert forall|x: int| 0 <= x < tips.drop_last().len() implies tipper_id != Some(
            (#[trigger] tips.drop_last()[x]).tipper_id,
        ) by {
            assert(tips.drop_last()[x] == tips[x]);
        }
        lemma_no_tips_no_points(tipper_id, tips.drop_last(), games, round_filter);
        assert(tipper_id != Some(tips[tips.len() - 1].tipper_id));
    }
}

/// The first of the games with the identity.
pub fn find_game(games: &Vec<Game>, game_id: i32) -> (found: Option<Game>)
    ensures
        found == game_of(games@, game_id),
{
    let mut k: usize = 0;
    assert(games@.skip(0) =~= games@);
    while k < games.len()
        invariant
            k <= games.len(),
            game_of(games@, game_id) == game_of(games@.skip(k as int), game_id),
        decreases games.len() - k,
    {
        let g: Game = games[k];
        let same = match g.game_id {
            Some(id) => id == game_id,
            None => false,
        };
        if same {
            return Some(g);
        }
        assert(games@.skip(k as int).drop_first() =~= games@.skip(k + 1));
        k = k + 1;
    }
    None
}

/// Whether the tip is right for the game.
pub fn is_correct(tip: &Tip, g: &Game) -> (right: bool)
    ensures
        right == tip_is_correct(*tip, *g),
{
    match (tip.team_id, g.home_team_score, g.away_team_score) {
        (Some(team), Some(home), Some(away)) => {
            let won = (team == g.home_team_id && home > away) || (team == g.away_team_id && away
                > home);
            let drawn = home == away && (team == g.home_team_id || team == g.away_team_id);
            won || drawn
        },
        _ => false,
    }
}

/// Whether the optional identity is the given one.
fn is_id(id: Option<i32>, wanted: Option<i32>) -> (same: bool)
    ensures
        same == (id == wanted),
{
    match (id, wanted) {
        (Some(a), Some(b)) => a == b,
        (None, None) => true,
        _ => false,
    }
}

/// The points of all tips of a competitor.
pub fn score_tips(
    tipper_id: Option<i32>,
    tips: &Vec<Tip>,
    games: &Vec<Game>,
    round_filter: Option<i32>,
) -> (score: i64)
    requires
        tips.len() <= i64::MAX,
    ensures
        score == tip_score(tipper_id, tips@, games@, round_filter),
{
    let mut score: i64 = 0;
    let mut x: usize = 0;
    assert(tips@.take(0) =~= Seq::<Tip>::empty());
    while x < tips.len()
        invariant
            x <= tips.len(),
            tips.len() <= i64::MAX,
            score == tip_score(tipper_id, tips@.take(x as int), games@, round_filter),
            0 <= score <= x,
        decreases tips.len() - x,
    {
        let tip: Tip = tips[x];
        proof {
            assert(tips@.take(x + 1).drop_last() =~= tips@.take(x as int));
            assert(tips@.take(x + 1).last() == tip);
        }
        if is_id(Some(tip.tipper_id), tipper_id) {
            match find_game(games, tip.game_id) {
                Some(g) => {
                    let counts = match round_filter {
                        None => true,
                        Some(_) => is_id(g.round_id, round_filter),
                    };
                    if counts && is_correct(&tip, &g) {
                        score = score + 1;
                    }
                },
                None => {},
            }
        }
        x = x + 1;
    }
    assert(tips@.take(tips.len() as int) =~= tips@);
    score
}

/// The number of games of a round.
pub fn count_games(games: &Vec<Game>, round_id: Option<i32>) -> (count: i64)
    requires
        games.len() <= i64::MAX,
    ensures
        count == games_in_round(games@, round_id),
{
    let mut count: i64 = 0;
    let mut k: usize = 0;
    assert(games@.take(0) =~= Seq::<Game>::empty());
    while k < games.len()
        invariant
            k <= games.len(),
            games.len() <= i64::MAX,
            count == games_in_round(games@.take(k as int), round_id),
            0 <= count <= k,
        decreases games.len() - k,
    {
        proof {
            assert(games@.take(k + 1).drop_last() =~= games@.take(k as int));
            assert(games@.take(k + 1).last() == games@[k as int]);
        }
        if is_id(games[k].round_id, round_id) {
            count = count + 1;
        }
        k = k + 1;
    }
    assert(games@.take(games.len() as int) =~= games@);
    count
}

/// The bonus of a competitor for one round.
pub fn bonus_for_round(tipper_id: Option<i32>, round: &Round, tips: &Vec<Tip>, games: &Vec<Game>) -> (bonus:
    i64)
    requires
        tips.len() <= i64::MAX,
        games.len() <= i64::MAX,
    ensures
        bonus == round_bonus(tipper_id, *round, tips@, games@),
{
    if round.round_id.is_none() {
        return 0;
    }
    let played = count_games(games, round.round_id);
    if played > 0 && score_tips(tipper_id, tips, games, round.round_id) == played {
        round.bonus_points as i64
    } else {
        0
    }
}

/// The bonuses of a competitor for all rounds that count.
pub fn score_bonus(
    tipper_id: Option<i32>,
    rounds: &Vec<Round>,
    tips: &Vec<Tip>,
    games: &Vec<Game>,
    round_filter: Option<i32>,
) -> (score: i64)
    requires
        rounds.len() <= 0x4000_0000,
        tips.len() <= i64::MAX,
        games.len() <= i64::MAX,
    ensures
        score == bonus_score(tipper_id, rounds@, tips@, games@, round_filter),
{
    let mut score: i64 = 0;
    let mut i: usize = 0;
    assert(rounds@.take(0) =~= Seq::<Round>::empty());
    while i < rounds.len()
        invariant
            i <= rounds.len(),
            rounds.len() <= 0x4000_0000,
            tips.len() <= i64::MAX,
            games.len() <= i64::MAX,
            score == bonus_score(tipper_id, rounds@.take(i as int), tips@, games@, round_filter),
            -0x8000_0000 * i <= score <= 0x7fff_ffff * i,
        decreases rounds.len() - i,
    {
        let round: Round = rounds[i];
        proof {
            assert(rounds@.take(i + 1).drop_last() =~= rounds@.take(i as int));
            assert(rounds@.take(i + 1).last() == round);
        }
        let counts = match round_filter {
            None => true,
            Some(_) => is_id(round.round_id, round_filter),
        };
        if counts {
            score = score + bonus_for_round(tipper_id, &round, tips, games);
        }
        i = i + 1;
    }
    assert(rounds@.take(rounds.len() as int) =~= rounds@);
    score
}

/// Whether the competitor at place `i` goes before the one at place `j`: the
/// one with the higher total first, and of two with the same total the one
/// that is listed first.
pub open spec fn goes_before(i: int, j: int, totals: Seq<i64>) -> bool {
    totals[i] > totals[j] || (totals[i] == totals[j] && i < j)
}

/// Whether the place `i` is listed in `order`.
pub open spec fn is_listed(order: Seq<usize>, i: int) -> bool {
    exists|a: int| 0 <= a < order.len() && #[trigger] order[a] == i
}

/// Whether `order` lists the places of all competitors, each once, so that
/// every competitor goes before those listed after it.
pub open spec fn is_ranking(order: Seq<usize>, totals: Seq<i64>) -> bool {
    &&& order.len() == totals.len()
    &&& forall|a: int| 0 <= a < order.len() ==> (#[trigger] order[a]) < totals.len()
    &&& forall|a: int, b: int|
        0 <= a < b < order.len() ==> goes_before(
            (#[trigger] order[a]) as int,
            (#[trigger] order[b]) as int,
            totals,
        )
    &&& forall|i: int| 0 <= i < totals.len() ==> #[trigger] is_listed(order, i)
}

/// There is only one ranking of given totals.
pub proof fn lemma_ranking_unique(first: Seq<usize>, second: Seq<usize>, totals: Seq<i64>)
    requires
        is_ranking(first, totals),
        is_ranking(second, totals),
    ensures
        first == second,
{
    assert forall|a: int| 0 <= a < first.len() implies first[a] == second[a] by {
        lemma_same_place(first, second, totals, a);
    }
    assert(first =~= second);
}

/// The competitor at place `a` of a ranking has exactly `a` competitors
/// before it, so it stands at place `a` of every ranking.
proof fn lemma_same_place(first: Seq<usize>, second: Seq<usize>, totals: Seq<i64>, a: int)
    requires
        is_ranking(first, totals),
        is_ranking(second, totals),
        0 <= a < first.len(),
    ensures
        first[a] == second[a],
    decreases a,
{
    // by induction, the rankings agree below `a`
    assert forall|x: int| 0 <= x < a implies first[x] == second[x] by {
        lemma_same_place(first, second, totals, x);
    }
    let i = first[a];
    assert(is_listed(second, i as int));
    let b = choose|b: int| 0 <= b < second.len() && #[trigger] second[b] == i;
    if b < a {
        assert(first[b] == second[b]);
        assert(goes_before(first[b] as int, first[a] as int, totals));
    } else if b > a {
        let j = second[a];
        assert(is_listed(first, j as int));
        let c = choose|c: int| 0 <= c < first.len() && #[trigger] first[c] == j;
        assert(goes_before(second[a] as int, second[b] as int, totals));
        if c < a {
            assert(first[c] == second[c]);
            assert(goes_before(second[c] as int, second[a] as int, totals));
        } else if c > a {
            assert(goes_before(first[a] as int, first[c] as int, totals));
        }
    }
}

/// The ranking of the totals.
pub fn ranking(totals: &Vec<i64>) -> (order: Vec<usize>)
    ensures
        is_ranking(order@, totals@),
{
    let mut order: Vec<usize> = Vec::new();
    let mut i: usize = 0;
    while i < totals.len()
        invariant
            i <= totals.len(),
            order.len() == i,
            forall|a: int| 0 <= a < order.len() ==> (#[trigger] order[a]) < i,
            forall|a: int, b: int|
                0 <= a < b < order.len() ==> goes_before(
                    (#[trigger] order[a]) as int,
                    (#[trigger] order[b]) as int,
                    totals@,
                ),
            forall|j: int| 0 <= j < i ==> #[trigger] is_listed(order@, j),
        decreases totals.len() - i,
    {
        let mut place: usize = 0;
        while place < order.len() && totals[order[place]] >= totals[i]
            invariant
                place <= order.len(),
                order.len() == i,
                i < totals.len(),
                forall|a: int| 0 <= a < order.len() ==> (#[trigger] order[a]) < i,
                forall|a: int| 0 <= a < place ==> totals[(#[trigger] order[a]) as int] >= totals[i as int],
            decreases order.len() - place,
        {
            place = place + 1;
        }
        let ghost before = order@;
        order.insert(place, i);
        proof {
            assert forall|a: int, b: int| 0 <= a < b < order.len() implies goes_before(
                (#[trigger] order[a]) as int,
                (#[trigger] order[b]) as int,
                totals@,
            ) by {
                if b < place {
                    assert(order[a] == before[a] && order[b] == before[b]);
                } else if b == place {
                    assert(order[a] == before[a]);
                } else if a < place {
                    assert(order[a] == before[a] && order[b] == before[b - 1]);
                } else if a == place {
                    assert(order[b] == before[b - 1]);
                    if place < b - 1 {
                        assert(goes_before(before[place as int] as int, before[b - 1] as int, totals@));
                    }
                } else {
                    assert(order[a] == before[a - 1] && order[b] == before[b - 1]);
                }
            }
            assert forall|j: int| 0 <= j < i + 1 implies #[trigger] is_listed(order@, j) by {
                if j < i {
                    assert(is_listed(before, j));
                    let a = choose|a: int| 0 <= a < before.len() && #[trigger] before[a] == j;
                    if a < place {
                        assert(order[a] == j);
                    } else {
                        assert(order[a + 1] == j);
                    }
                } else {
                    assert(order[place as int] == j);
                }
            }
            assert forall|a: int| 0 <= a < order.len() implies (#[trigger] order[a]) < i + 1 by {
                if a < place {
                    assert(order[a] == before[a]);
                } else if a > place {
                    assert(order[a] == before[a - 1]);
                }
            }
        }
        i = i + 1;
    }
    order
}

/// Whether `out` holds the items in the order of the ranking of their keys:
/// the item with the highest key first, and of two with the same key the one
/// that is listed first.
pub open spec fn is_arranged<T>(out: Seq<T>, items: Seq<T>, keys: Seq<i64>) -> bool {
    exists|order: Seq<usize>|
        {
            &&& #[trigger] is_ranking(order, keys)
            &&& out.len() == items.len()
            &&& forall|a: int| 0 <= a < out.len() ==> #[trigger] out[a] == items[order[a] as int]
        }
}

/// Puts the items in the order of the ranking of their keys.
pub fn arrange<T: Copy>(items: &Vec<T>, keys: &Vec<i64>) -> (out: Vec<T>)
    requires
        items.len() == keys.len(),
    ensures
        is_arranged(out@, items@, keys@),
{
    let order = ranking(keys);
    let mut out: Vec<T> = Vec::new();
    let mut a: usize = 0;
    while a < order.len()
        invariant
            a <= order.len(),
            order.len() == items.len(),
            items.len() == keys.len(),
            is_ranking(order@, keys@),
            out.len() == a,
            forall|b: int| 0 <= b < a ==> #[trigger] out[b] == items[order[b] as int],
        decreases order.len() - a,
    {
        out.push(items[order[a]]);
        a = a + 1;
    }
    out
}

} // verus!
