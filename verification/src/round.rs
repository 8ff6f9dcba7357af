//! Rounds of the competition.

use crate::date::Date;
use crate::date::EPOCH_DAY_NUMBER;
use crate::game::Game;
use vstd::prelude::*;

verus! {

/// A round: identity once stored, its number, the first and last day on which
/// its games are played, and the bonus for tipping every game of it correctly.
#[derive(Debug, Clone, Copy)]
pub struct Round {
    pub round_id: Option<i32>,
    pub round_number: i32,
    pub start_date: Date,
    pub end_date: Date,
    pub bonus_points: i32,
}

impl Round {
    /// Whether a date falls on one of the round's days.
    pub open spec fn holds_date(self, date: Date) -> bool {
        self.start_date@ <= date@ <= self.end_date@
    }
}

impl PartialEq for Round {
    /// Rounds are compared by identity alone.
    fn eq(&self, other: &Self) -> (r: bool) {
        self.round_id == other.round_id
    }
}

impl vstd::std_specs::cmp::PartialEqSpecImpl for Round {
    open spec fn obeys_eq_spec() -> bool {
        true
    }

    open spec fn eq_spec(&self, other: &Self) -> bool {
        self.round_id == other.round_id
    }
}

impl Default for Round {
    /// A round not yet stored: number 0, both dates 1 January 1970, no bonus.
    fn default() -> (r: Round)
        ensures
            r.round_id is None,
            r.round_number == 0,
            r.start_date@ == EPOCH_DAY_NUMBER,
            r.end_date@ == EPOCH_DAY_NUMBER,
            r.bonus_points == 0,
    {
        Round {
            round_id: None,
            round_number: 0,
            start_date: Date::default(),
            end_date: Date::default(),
            bonus_points: 0,
        }
    }
}

/// A round as a client submits it: the round and the whole list of its
/// games.  A round or game without an identity is to be created; one with an
/// identity is to replace what is stored under it.
#[derive(Debug, Clone)]
pub struct NewRound {
    pub round: Round,
    pub games: Vec<Game>,
}

impl Default for NewRound {
    /// The default round and no games.
    fn default() -> (d: NewRound)
        ensures
            d.round.round_id is None,
            d.round.round_number == 0,
            d.round.start_date@ == EPOCH_DAY_NUMBER,
            d.round.end_date@ == EPOCH_DAY_NUMBER,
            d.round.bonus_points == 0,
            d.games@.len() == 0,
    {
        NewRound { round: Round::default(), games: Vec::new() }
    }
}

} // verus!
