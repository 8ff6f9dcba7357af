//! Games: one match between two teams within a round.

use crate::date::Date;
use crate::date::EPOCH_DAY_NUMBER;
use vstd::prelude::*;

verus! {

/// A game: identity once stored, the round that owns it, the two teams, the
/// day it is played and the final scores once it has been played.
#[derive(Debug, Clone, Copy)]
pub struct Game {
    pub game_id: Option<i32>,
    pub round_id: Option<i32>,
    pub home_team_id: i32,
    pub away_team_id: i32,
    pub game_date: Date,
    pub home_team_score: Option<i32>,
    pub away_team_score: Option<i32>,
}

impl Game {
    /// Whether the team plays in this game, at home or away.
    pub open spec fn involves(self, team_id: i32) -> bool {
        self.home_team_id == team_id || self.away_team_id == team_id
    }

    /// Whether this game is between the two teams, whichever is at home.
    pub open spec fn is_between(self, a: i32, b: i32) -> bool {
        (self.home_team_id == a && self.away_team_id == b) || (self.home_team_id == b
            && self.away_team_id == a)
    }

    /// Whether both final scores are recorded.
    pub open spec fn is_complete(self) -> bool {
        self.home_team_score is Some && self.away_team_score is Some
    }
}

impl PartialEq for Game {
    /// Games are compared by identity alone.
    fn eq(&self, other: &Self) -> (r: bool) {
        self.game_id == other.game_id
    }
}

impl vstd::std_specs::cmp::PartialEqSpecImpl for Game {
    open spec fn obeys_eq_spec() -> bool {
        true
    }

    open spec fn eq_spec(&self, other: &Self) -> bool {
        self.game_id == other.game_id
    }
}

impl Default for Game {
    /// A game not yet stored: no round, both teams 0, played on 1 January
    /// 1970, no scores.
    fn default() -> (g: Game)
        ensures
            g.game_id is None,
            g.round_id is None,
            g.home_team_id == 0,
            g.away_team_id == 0,
            g.game_date@ == EPOCH_DAY_NUMBER,
            g.home_team_score is None,
            g.away_team_score is None,
    {
        Game {
            game_id: None,
            round_id: None,
            home_team_id: 0,
            away_team_id: 0,
            game_date: Date::default(),
            home_team_score: None,
            away_team_score: None,
        }
    }
}

} // verus!
