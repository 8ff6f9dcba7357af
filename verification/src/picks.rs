//! The picks of one competitor for the games of a round, as they are edited
//! before they are stored as tips: for each game, the team picked or none.

use crate::game::Game;
use crate::tip::Tip;
use std::collections::HashMap;
use vstd::prelude::*;
use vstd::std_specs::hash::group_hash_axioms;

verus! {

/// The key of a game among the picks: its identity, or -1 while it has none.
pub open spec fn pick_key(g: Game) -> i32 {
    match g.game_id {
        Some(id) => id,
        None => -1i32,
    }
}

/// The picks with no team picked for any of the games.
pub open spec fn blank_picks(games: Seq<Game>) -> Map<i32, Option<i32>>
    decreases games.len(),
{
    if games.len() == 0 {
        Map::empty()
    } else {
        blank_picks(games.drop_last()).insert(pick_key(games.last()), None)
    }
}

/// The picks that the tips record; of two tips for one game, the later.
pub open spec fn picks_of_tips(tips: Seq<Tip>) -> Map<i32, Option<i32>>
    decreases tips.len(),
{
    if tips.len() == 0 {
        Map::empty()
    } else {
        picks_of_tips(tips.drop_last()).insert(tips.last().game_id, tips.last().team_id)
    }
}

/// The picks to start editing from: those that the stored tips record, or
/// blank picks for the games where no tip is stored.
pub open spec fn loaded_picks(games: Seq<Game>, tips: Seq<Tip>) -> Map<i32, Option<i32>> {
    if tips.len() == 0 {
        blank_picks(games)
    } else {
        picks_of_tips(tips)
    }
}

/// The team picked for the game with this key, if one is picked.
pub open spec fn picked(picks: Map<i32, Option<i32>>, key: i32) -> Option<i32> {
    if picks.contains_key(key) {
        picks[key]
    } else {
        None
    }
}

/// Whether a team is picked for every one of the games.
pub open spec fn every_game_tipped(games: Seq<Game>, picks: Map<i32, Option<i32>>) -> bool {
    forall|k: int| 0 <= k < games.len() ==> picked(picks, pick_key(#[trigger] games[k])) is Some
}

/// The tips that record the picks of the competitor: one for each game, in
/// the order of the games.
pub open spec fn tips_of_picks(tipper_id: i32, games: Seq<Game>, picks: Map<i32, Option<i32>>) -> Seq<
    Tip,
> {
    Seq::new(
        games.len(),
        |k: int|
            Tip {
                tipper_id,
                game_id: pick_key(games[k]),
                team_id: picked(picks, pick_key(games[k])),
            },
    )
}

fn key_of(g: &Game) -> (key: i32)
    ensures
        key == pick_key(*g),
{
    match g.game_id {
        Some(id) => id,
        None => -1,
    }
}

/// The team picked for the game with this key.
pub fn pick_for(picks: &HashMap<i32, Option<i32>>, key: i32) -> (team: Option<i32>)
    ensures
        team == picked(picks@, key),
{
    broadcast use group_hash_axioms;

    match picks.get(&key) {
        Some(team) => *team,
        None => None,
    }
}

/// The picks to start editing from.
pub fn load_tips(games: &Vec<Game>, tips: &Vec<Tip>) -> (picks: HashMap<i32, Option<i32>>)
    ensures
        picks@ == loaded_picks(games@, tips@),
{
    broadcast use group_hash_axioms;

    let mut picks: HashMap<i32, Option<i32>> = HashMap::new();
    if tips.len() == 0 {
        let mut k: usize = 0;
        assert(games@.take(0) =~= Seq::<Game>::empty());
        while k < games.len()
            invariant
                k <= games.len(),
                picks@ == blank_picks(games@.take(k as int)),
            decreases games.len() - k,
        {
            proof {
                assert(games@.take(k + 1).drop_last() =~= games@.take(k as int));
                assert(games@.take(k + 1).last() == games@[k as int]);
            }
            picks.insert(key_of(&games[k]), None);
            k = k + 1;
        }
        assert(games@.take(games.len() as int) =~= games@);
    } else {
        let mut x: usize = 0;
        assert(tips@.take(0) =~= Seq::<Tip>::empty());
        while x < tips.len()
            invariant
                x <= tips.len(),
                picks@ == picks_of_tips(tips@.take(x as int)),
            decreases tips.len() - x,
        {
            proof {
                assert(tips@.take(x + 1).drop_last() =~= tips@.take(x as int));
                assert(tips@.take(x + 1).last() == tips@[x as int]);
            }
            picks.insert(tips[x].game_id, tips[x].team_id);
            x = x + 1;
        }
        assert(tips@.take(tips.len() as int) =~= tips@);
    }
    picks
}

/// Whether a team is picked for every one of the games.
pub fn all_tipped(games: &Vec<Game>, picks: &HashMap<i32, Option<i32>>) -> (yes: bool)
    ensures
        yes == every_game_tipped(games@, picks@),
{
    let mut k: usize = 0;
    while k < games.len()
        invariant
            k <= games.len(),
            forall|j: int| 0 <= j < k ==> picked(picks@, pick_key(#[trigger] games[j])) is Some,
        decreases games.len() - k,
    {
        if pick_for(picks, key_of(&games[k])).is_none() {
            return false;
        }
        k = k + 1;
    }
    true
}

/// The tips to store for the picks of the competitor: one for each game,
/// where a team is picked for every game; none at all otherwise.
pub fn record_tips(tipper_id: i32, games: &Vec<Game>, picks: &HashMap<i32, Option<i32>>) -> (tips:
    Option<Vec<Tip>>)
    ensures
        match tips {
            Some(tips) => every_game_tipped(games@, picks@) && tips@ == tips_of_picks(
                tipper_id,
                games@,
                picks@,
            ),
            None => !every_game_tipped(games@, picks@),
        },
{
    if !all_tipped(games, picks) {
        return None;
    }
    let mut tips: Vec<Tip> = Vec::new();
    let mut k: usize = 0;
    while k < games.len()
        invariant
            k <= games.len(),
            tips@ == tips_of_picks(tipper_id, games@, picks@).take(k as int),
        decreases games.len() - k,
    {
        let key: i32 = key_of(&games[k]);
        tips.push(Tip { tipper_id, game_id: key, team_id: pick_for(picks, key) });
        assert(tips@ =~= tips_of_picks(tipper_id, games@, picks@).take(k + 1));
        k = k + 1;
    }
    assert(tips@ =~= tips_of_picks(tipper_id, games@, picks@));
    Some(tips)
}

} // verus!
