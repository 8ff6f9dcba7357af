//! Checking at run time that a store keeps the rules of its tables.

use crate::game::Game;
use crate::round::Round;
use crate::store::Store;
use crate::tip::Tip;
use crate::tips::store_has_game;
use vstd::prelude::*;

verus! {

/// Whether each round by itself is in order.
fn each_round_in_order(store: &Store) -> (yes: bool)
    ensures
        yes == (forall|i: int|
            0 <= i < store@.rounds.len() ==> {
                let r = #[trigger] store@.rounds[i];
                &&& r.round_id is Some
                &&& r.round_id.unwrap() < store@.next_round_id
                &&& r.round_number > 0
                &&& r.start_date@ <= r.end_date@
            }),
{
    let mut i: usize = 0;
    while i < store.rounds.len()
        invariant
            i <= store.rounds.len(),
            forall|j: int|
                0 <= j < i ==> {
                    let r = #[trigger] store@.rounds[j];
                    &&& r.round_id is Some
                    &&& r.round_id.unwrap() < store@.next_round_id
                    &&& r.round_number > 0
                    &&& r.start_date@ <= r.end_date@
                },
        decreases store.rounds.len() - i,
    {
        let r: Round = store.rounds[i];
        let given_out = match r.round_id {
            Some(id) => id < store.next_round_id,
            None => false,
        };
        if !given_out || r.round_number <= 0 || r.start_date.day_number()
            > r.end_date.day_number() {
            assert(store@.rounds[i as int] == r);
            return false;
        }
        i = i + 1;
    }
    true
}

/// Whether no two rounds share an identity or a number.
fn rounds_are_distinct(store: &Store) -> (yes: bool)
    requires
        forall|i: int| 0 <= i < store@.rounds.len() ==> (#[trigger] store@.rounds[i]).round_id is Some,
    ensures
        yes == (forall|i: int, j: int|
            0 <= i < j < store@.rounds.len() ==> (#[trigger] store@.rounds[i]).round_id != (
            #[trigger] store@.rounds[j]).round_id && store@.rounds[i].round_number
                != store@.rounds[j].round_number),
{
    let mut j: usize = 0;
    while j < store.rounds.len()
        invariant
            j <= store.rounds.len(),
            forall|i: int| 0 <= i < store@.rounds.len() ==> (#[trigger] store@.rounds[i]).round_id is Some,
            forall|a: int, b: int|
                0 <= a < b < j ==> (#[trigger] store@.rounds[a]).round_id != (
                #[trigger] store@.rounds[b]).round_id && store@.rounds[a].round_number
                    != store@.rounds[b].round_number,
        decreases store.rounds.len() - j,
    {
        let later: Round = store.rounds[j];
        let mut i: usize = 0;
        while i < j
            invariant
                i <= j < store.rounds.len(),
                later == store@.rounds[j as int],
                forall|i: int| 0 <= i < store@.rounds.len() ==> (#[trigger] store@.rounds[i]).round_id is Some,
                forall|a: int|
                    0 <= a < i ==> (#[trigger] store@.rounds[a]).round_id != later.round_id
                        && store@.rounds[a].round_number != later.round_number,
            decreases j - i,
        {
            let earlier: Round = store.rounds[i];
            if earlier.round_id.unwrap() == later.round_id.unwrap() || earlier.round_number
                == later.round_number {
                assert(store@.rounds[i as int] == earlier);
                return false;
            }
            i = i + 1;
        }
        j = j + 1;
    }
    true
}

/// Whether every game has an identity that was given out.
fn each_game_keyed(store: &Store) -> (yes: bool)
    ensures
        yes == (forall|k: int|
            0 <= k < store@.games.len() ==> (#[trigger] store@.games[k]).game_id is Some
                && store@.games[k].game_id.unwrap() < store@.next_game_id),
{
    let mut k: usize = 0;
    while k < store.games.len()
        invariant
            k <= store.games.len(),
            forall|j: int|
                0 <= j < k ==> (#[trigger] store@.games[j]).game_id is Some
                    && store@.games[j].game_id.unwrap() < store@.next_game_id,
        decreases store.games.len() - k,
    {
        let given_out = match store.games[k].game_id {
            Some(id) => id < store.next_game_id,
            None => false,
        };
        if !given_out {
            return false;
        }
        k = k + 1;
    }
    true
}

/// Whether the round of the game is stored and holds the game's day.
fn round_holds(store: &Store, g: &Game) -> (yes: bool)
    ensures
        yes == store@.round_holds(*g),
{
    let round_id: i32 = match g.round_id {
        Some(id) => id,
        None => {
            return false;
        },
    };
    let day: i32 = g.game_date.day_number();
    let mut i: usize = 0;
    while i < store.rounds.len()
        invariant
            i <= store.rounds.len(),
            g.round_id == Some(round_id),
            day == g.game_date@,
            forall|j: int|
                0 <= j < i ==> !((#[trigger] store@.rounds[j]).round_id == g.round_id
                    && store@.rounds[j].holds_date(g.game_date)),
        decreases store.rounds.len() - i,
    {
        let r: Round = store.rounds[i];
        let same = match r.round_id {
            Some(id) => id == round_id,
            None => false,
        };
        if same && r.start_date.day_number() <= day && day <= r.end_date.day_number() {
            assert(store@.rounds[i as int] == r);
            return true;
        }
        i = i + 1;
    }
    false
}

/// Whether every game is between two different teams, on a day of its round.
fn each_game_in_order(store: &Store) -> (yes: bool)
    ensures
        yes == (forall|k: int|
            0 <= k < store@.games.len() ==> (#[trigger] store@.games[k]).home_team_id
                != store@.games[k].away_team_id && store@.round_holds(store@.games[k])),
{
    let mut k: usize = 0;
    while k < store.games.len()
        invariant
            k <= store.games.len(),
            forall|j: int|
                0 <= j < k ==> (#[trigger] store@.games[j]).home_team_id
                    != store@.games[j].away_team_id && store@.round_holds(store@.games[j]),
        decreases store.games.len() - k,
    {
        let g: Game = store.games[k];
        if g.home_team_id == g.away_team_id || !round_holds(store, &g) {
            assert(store@.games[k as int] == g);
            return false;
        }
        k = k + 1;
    }
    true
}

/// Whether the optional identities are the same.
fn same_id(a: Option<i32>, b: Option<i32>) -> (same: bool)
    ensures
        same == (a == b),
{
    match (a, b) {
        (Some(x), Some(y)) => x == y,
        (None, None) => true,
        _ => false,
    }
}

/// Whether no two games share an identity, and no two games of one round a
/// team.
fn games_are_distinct(store: &Store) -> (yes: bool)
    ensures
        yes == ((forall|j: int, k: int|
            0 <= j < k < store@.games.len() ==> (#[trigger] store@.games[j]).game_id != (
            #[trigger] store@.games[k]).game_id) && (forall|j: int, k: int|
            0 <= j < k < store@.games.len() && (#[trigger] store@.games[j]).round_id == (
            #[trigger] store@.games[k]).round_id ==> !store@.games[k].involves(
                store@.games[j].home_team_id,
            ) && !store@.games[k].involves(store@.games[j].away_team_id))),
{
    let mut k: usize = 0;
    while k < store.games.len()
        invariant
            k <= store.games.len(),
            forall|a: int, b: int|
                0 <= a < b < k ==> (#[trigger] store@.games[a]).game_id != (
                #[trigger] store@.games[b]).game_id,
            forall|a: int, b: int|
                0 <= a < b < k && (#[trigger] store@.games[a]).round_id == (
                #[trigger] store@.games[b]).round_id ==> !store@.games[b].involves(
                    store@.games[a].home_team_id,
                ) && !store@.games[b].involves(store@.games[a].away_team_id),
        decreases store.games.len() - k,
    {
        let later: Game = store.games[k];
        let mut j: usize = 0;
        while j < k
            invariant
                j <= k < store.games.len(),
                later == store@.games[k as int],
                forall|a: int| 0 <= a < j ==> (#[trigger] store@.games[a]).game_id != later.game_id,
                forall|a: int|
                    0 <= a < j && (#[trigger] store@.games[a]).round_id == later.round_id
                        ==> !later.involves(store@.games[a].home_team_id) && !later.involves(
                        store@.games[a].away_team_id,
                    ),
            decreases k - j,
        {
            let earlier: Game = store.games[j];
            let shares_team = later.home_team_id == earlier.home_team_id || later.away_team_id
                == earlier.home_team_id || later.home_team_id == earlier.away_team_id
                || later.away_team_id == earlier.away_team_id;
            if same_id(earlier.game_id, later.game_id) || (same_id(
                earlier.round_id,
                later.round_id,
            ) && shares_team) {
                assert(store@.games[j as int] == earlier);
                return false;
            }
            j = j + 1;
        }
        k = k + 1;
    }
    true
}

/// Whether every tip is for a stored game, and no competitor has two tips
/// for one game.
fn tips_in_order(store: &Store) -> (yes: bool)
    ensures
        yes == store@.tips_wf(),
{
    let mut y: usize = 0;
    while y < store.tips.len()
        invariant
            y <= store.tips.len(),
            forall|a: int| 0 <= a < y ==> store@.has_game((#[trigger] store@.tips[a]).game_id),
            forall|a: int, b: int|
                0 <= a < b < y ==> !((#[trigger] store@.tips[a]).tipper_id == (
                #[trigger] store@.tips[b]).tipper_id && store@.tips[a].game_id
                    == store@.tips[b].game_id),
        decreases store.tips.len() - y,
    {
        let later: Tip = store.tips[y];
        if !store_has_game(store, later.game_id) {
            assert(store@.tips[y as int] == later);
            return false;
        }
        let mut x: usize = 0;
        while x < y
            invariant
                x <= y < store.tips.len(),
                later == store@.tips[y as int],
                forall|a: int|
                    0 <= a < x ==> !((#[trigger] store@.tips[a]).tipper_id == later.tipper_id
                        && store@.tips[a].game_id == later.game_id),
            decreases y - x,
        {
            let earlier: Tip = store.tips[x];
            if earlier.tipper_id == later.tipper_id && earlier.game_id == later.game_id {
                assert(store@.tips[x as int] == earlier);
                return false;
            }
            x = x + 1;
        }
        y = y + 1;
    }
    true
}

impl Store {
    /// Whether the store keeps the rules of its tables.
    pub fn keeps_rules(&self) -> (yes: bool)
        ensures
            yes == self@.wf(),
    {
        if self.next_round_id < 0 || self.next_game_id < 0 {
            return false;
        }
        if !each_round_in_order(self) {
            return false;
        }
        if !rounds_are_distinct(self) {
            return false;
        }
        if !each_game_keyed(self) {
            return false;
        }
        if !games_are_distinct(self) {
            return false;
        }
        if !each_game_in_order(self) {
            return false;
        }
        tips_in_order(self)
    }
}

} // verus!
