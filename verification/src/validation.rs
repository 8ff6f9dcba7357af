//! The rules that a submitted round must meet before anything is written.

use crate::date::day_number_text;
use crate::date::Date;
use crate::error::ApiError;
use crate::error::ApiErrorView;
use crate::game::Game;
use crate::round::NewRound;
use crate::round::Round;
use crate::team::Team;
use crate::text::decimal;
use crate::text::decimal_text;
use std::collections::HashSet;
use vstd::prelude::*;
use vstd::std_specs::hash::group_hash_axioms;

verus! {

/// A rule that a submitted round breaks.
#[derive(Debug, Clone, Copy, PartialEq, Eq, Structural)]
pub enum Violation {
    /// The round number is zero or negative.
    RoundNumberNotPositive,
    /// Another round already has the round number.
    RoundNumberTaken,
    /// The round starts after it ends.
    StartAfterEnd,
    /// The team plays in an earlier game of the round, or it plays itself.
    TeamReused { team_id: i32 },
    /// The game is played before the round starts or after it ends.
    GameOutsideRound { game_date: Date, start_date: Date, end_date: Date },
}

/// Whether the team plays in one of the first `k` games.
pub open spec fn team_played_before(games: Seq<Game>, k: int, team_id: i32) -> bool {
    exists|j: int| 0 <= j < k && j < games.len() && (#[trigger] games[j]).involves(team_id)
}

/// The rule that game `k` breaks, given the games before it: its home team
/// must not have played yet, then its away team must not have played yet and
/// must not be its home team, then its day must be a day of the round.
pub open spec fn game_violation(games: Seq<Game>, k: int, start: Date, end: Date) -> Option<
    Violation,
> {
    let g = games[k];
    if team_played_before(games, k, g.home_team_id) {
        Some(Violation::TeamReused { team_id: g.home_team_id })
    } else if g.away_team_id == g.home_team_id || team_played_before(games, k, g.away_team_id) {
        Some(Violation::TeamReused { team_id: g.away_team_id })
    } else if !(start@ <= g.game_date@ <= end@) {
        Some(Violation::GameOutsideRound { game_date: g.game_date, start_date: start, end_date: end })
    } else {
        None
    }
}

/// The first rule broken by one of the first `n` games, if any.
pub open spec fn games_violation_upto(games: Seq<Game>, n: int, start: Date, end: Date) -> Option<
    Violation,
>
    decreases n,
{
    if n <= 0 {
        None
    } else {
        match games_violation_upto(games, n - 1, start, end) {
            Some(v) => Some(v),
            None => game_violation(games, n - 1, start, end),
        }
    }
}

/// The first rule broken by one of the games, if any.
pub open spec fn games_violation(games: Seq<Game>, start: Date, end: Date) -> Option<Violation> {
    games_violation_upto(games, games.len() as int, start, end)
}

/// The first rule broken by the dates and the games of a submitted round.
pub open spec fn common_violation(round: Round, games: Seq<Game>) -> Option<Violation> {
    if round.start_date@ > round.end_date@ {
        Some(Violation::StartAfterEnd)
    } else {
        games_violation(games, round.start_date, round.end_date)
    }
}

/// Whether one of the rounds has the number.
pub open spec fn round_number_exists(rounds: Seq<Round>, number: i32) -> bool {
    exists|i: int| 0 <= i < rounds.len() && (#[trigger] rounds[i]).round_number == number
}

/// Whether a round other than the one with identity `round_id` has the number.
pub open spec fn round_number_used(rounds: Seq<Round>, round_id: i32, number: i32) -> bool {
    exists|i: int|
        0 <= i < rounds.len() && (#[trigger] rounds[i]).round_id != Some(round_id)
            && rounds[i].round_number == number
}

/// The first rule broken by a round that is to be created, given the rounds
/// that are stored.
pub open spec fn new_round_violation(round: Round, games: Seq<Game>, rounds: Seq<Round>) -> Option<
    Violation,
> {
    if round.round_number <= 0 {
        Some(Violation::RoundNumberNotPositive)
    } else if round_number_exists(rounds, round.round_number) {
        Some(Violation::RoundNumberTaken)
    } else {
        common_violation(round, games)
    }
}

/// The first rule broken by a round that is to replace the stored round
/// `round_id`, given the rounds that are stored.
pub open spec fn existing_round_violation(
    round: Round,
    round_id: i32,
    games: Seq<Game>,
    rounds: Seq<Round>,
) -> Option<Violation> {
    if round.round_number <= 0 {
        Some(Violation::RoundNumberNotPositive)
    } else if round_number_used(rounds, round_id, round.round_number) {
        Some(Violation::RoundNumberTaken)
    } else {
        common_violation(round, games)
    }
}

/// How a team is named to the user: by the display name of the first team
/// listed with that identity, or by the identity in decimal where none is
/// listed.
pub open spec fn team_label(teams: Seq<Team>, team_id: i32) -> Seq<char>
    decreases teams.len(),
{
    if teams.len() == 0 {
        decimal_text(team_id as int)
    } else if teams[0].id == Some(team_id) {
        teams[0].name@
    } else {
        team_label(teams.drop_first(), team_id)
    }
}

/// The text that tells the user of a broken rule.
pub open spec fn violation_text(v: Violation, teams: Seq<Team>) -> Seq<char> {
    match v {
        Violation::RoundNumberNotPositive => "Round number must be greater than 0"@,
        Violation::RoundNumberTaken => "Round number already exists"@,
        Violation::StartAfterEnd => "Round date must not be greater than end date"@,
        Violation::TeamReused { team_id } => "Team "@ + team_label(teams, team_id)
            + " is used more than once in this round"@,
        Violation::GameOutsideRound { game_date, start_date, end_date } => "Game date "@
            + day_number_text(game_date@ as i32) + " is not between the round start date "@
            + day_number_text(start_date@ as i32) + " and end date "@ + day_number_text(
            end_date@ as i32,
        ),
    }
}

/// What a validation returns for the first broken rule: nothing wrong where
/// there is none, else the rule's text as an invalid request.
pub open spec fn is_verdict(r: Result<(), ApiError>, v: Option<Violation>, teams: Seq<Team>) -> bool {
    match v {
        None => r is Ok,
        Some(v) => r matches Err(e) && e@ == ApiErrorView::Invalid(violation_text(v, teams)),
    }
}

/// Once a rule is found broken among the first games, the same rule is
/// reported however many games follow.
proof fn lemma_first_violation_stays(games: Seq<Game>, k: int, n: int, start: Date, end: Date)
    requires
        0 <= k <= n,
        games_violation_upto(games, k, start, end) is Some,
    ensures
        games_violation_upto(games, n, start, end) == games_violation_upto(games, k, start, end),
    decreases n - k,
{
    if k < n {
        lemma_first_violation_stays(games, k, n - 1, start, end);
    }
}

/// The games break no rule exactly when every one of them is fine given the
/// games before it.
proof fn lemma_no_violation_upto(games: Seq<Game>, n: int, start: Date, end: Date)
    requires
        0 <= n,
    ensures
        games_violation_upto(games, n, start, end) is None <==> forall|k: int|
            0 <= k < n ==> #[trigger] game_violation(games, k, start, end) is None,
    decreases n,
{
    if n > 0 {
        lemma_no_violation_upto(games, n - 1, start, end);
    }
}

/// Whether no team plays twice in the games: no game is of a team against
/// itself, and no two games share a team.
pub open spec fn no_team_twice(games: Seq<Game>) -> bool {
    &&& forall|k: int|
        0 <= k < games.len() ==> (#[trigger] games[k]).home_team_id != games[k].away_team_id
    &&& forall|j: int, k: int|
        0 <= j < k < games.len() ==> !(#[trigger] games[k]).involves(
            (#[trigger] games[j]).home_team_id,
        ) && !games[k].involves(games[j].away_team_id)
}

/// Whether every game is played on a day from `start` to `end`.
pub open spec fn all_within(games: Seq<Game>, start: Date, end: Date) -> bool {
    forall|k: int| 0 <= k < games.len() ==> start@ <= (#[trigger] games[k]).game_date@ <= end@
}

/// The games pass exactly when no team plays twice and every game is played
/// on a day of the round.  So a round in which a team appears in two games is
/// rejected, and so is one with a game before its start or after its end.
pub proof fn lemma_games_pass(games: Seq<Game>, start: Date, end: Date)
    ensures
        games_violation(games, start, end) is None <==> no_team_twice(games) && all_within(
            games,
            start,
            end,
        ),
{
    let n = games.len() as int;
    lemma_no_violation_upto(games, n, start, end);
    if games_violation(games, start, end) is None {
        assert forall|k: int| 0 <= k < games.len() implies (#[trigger] games[k]).home_team_id
            != games[k].away_team_id by {
            assert(game_violation(games, k, start, end) is None);
        }
        assert forall|j: int, k: int| 0 <= j < k < games.len() implies !(
        #[trigger] games[k]).involves((#[trigger] games[j]).home_team_id) && !games[k].involves(
            games[j].away_team_id,
        ) by {
            assert(game_violation(games, k, start, end) is None);
            assert(games[j].involves(games[j].home_team_id));
            assert(games[j].involves(games[j].away_team_id));
        }
        assert forall|k: int| 0 <= k < games.len() implies start@ <= (
        #[trigger] games[k]).game_date@ <= end@ by {
            assert(game_violation(games, k, start, end) is None);
        }
    }
    if no_team_twice(games) && all_within(games, start, end) {
        assert forall|k: int| 0 <= k < n implies #[trigger] game_violation(
            games,
            k,
            start,
            end,
        ) is None by {
            let g = games[k];
            if team_played_before(games, k, g.home_team_id) {
                let j = choose|j: int|
                    0 <= j < k && j < games.len() && (#[trigger] games[j]).involves(
                        g.home_team_id,
                    );
                assert(games[k].involves(games[j].home_team_id) || games[k].involves(
                    games[j].away_team_id,
                ));
            }
            if team_played_before(games, k, g.away_team_id) {
                let j = choose|j: int|
                    0 <= j < k && j < games.len() && (#[trigger] games[j]).involves(
                        g.away_team_id,
                    );
                assert(games[k].involves(games[j].home_team_id) || games[k].involves(
                    games[j].away_team_id,
                ));
            }
        }
    }
}

/// A round to be created or updated in which a team plays twice breaks a
/// rule, and so is rejected.
pub proof fn lemma_reused_team_is_rejected(
    round: Round,
    round_id: i32,
    games: Seq<Game>,
    rounds: Seq<Round>,
)
    requires
        !no_team_twice(games),
    ensures
        new_round_violation(round, games, rounds) is Some,
        existing_round_violation(round, round_id, games, rounds) is Some,
{
    lemma_games_pass(games, round.start_date, round.end_date);
}

/// A round to be created or updated with a game before its first or after
/// its last day breaks a rule, and so is rejected.
pub proof fn lemma_game_outside_round_is_rejected(
    round: Round,
    round_id: i32,
    games: Seq<Game>,
    rounds: Seq<Round>,
)
    requires
        !all_within(games, round.start_date, round.end_date),
    ensures
        new_round_violation(round, games, rounds) is Some,
        existing_round_violation(round, round_id, games, rounds) is Some,
{
    lemma_games_pass(games, round.start_date, round.end_date);
}

/// What a reported violation of the games says: a team that is named plays
/// in two places of the submission, and a date that is echoed is the date of
/// a submitted game that lies outside the round, given with the round's own
/// first and last day.
pub proof fn lemma_games_violation_names(games: Seq<Game>, start: Date, end: Date)
    ensures
        match games_violation(games, start, end) {
            Some(Violation::TeamReused { team_id }) => exists|j: int, k: int|
                0 <= j <= k < games.len() && (#[trigger] games[j]).involves(team_id) && (
                #[trigger] games[k]).involves(team_id) && (j == k ==> games[k].home_team_id
                    == games[k].away_team_id),
            Some(Violation::GameOutsideRound { game_date, start_date, end_date }) => start_date
                == start && end_date == end && exists|k: int|
                0 <= k < games.len() && (#[trigger] games[k]).game_date == game_date && !(start@
                    <= game_date@ <= end@),
            Some(_) => false,
            None => true,
        },
{
    lemma_violation_names_upto(games, games.len() as int, start, end);
}

proof fn lemma_violation_names_upto(games: Seq<Game>, n: int, start: Date, end: Date)
    requires
        0 <= n <= games.len(),
    ensures
        match games_violation_upto(games, n, start, end) {
            Some(Violation::TeamReused { team_id }) => exists|j: int, k: int|
                0 <= j <= k < n && (#[trigger] games[j]).involves(team_id) && (
                #[trigger] games[k]).involves(team_id) && (j == k ==> games[k].home_team_id
                    == games[k].away_team_id),
            Some(Violation::GameOutsideRound { game_date, start_date, end_date }) => start_date
                == start && end_date == end && exists|k: int|
                0 <= k < n && (#[trigger] games[k]).game_date == game_date && !(start@
                    <= game_date@ <= end@),
            Some(_) => false,
            None => true,
        },
    decreases n,
{
    if n > 0 {
        lemma_violation_names_upto(games, n - 1, start, end);
        if games_violation_upto(games, n - 1, start, end) is None {
            let k = n - 1;
            let g = games[k];
            if team_played_before(games, k, g.home_team_id) {
                let j = choose|j: int|
                    0 <= j < k && j < games.len() && (#[trigger] games[j]).involves(
                        g.home_team_id,
                    );
                assert(games[j].involves(g.home_team_id) && games[k].involves(g.home_team_id));
            } else if g.away_team_id == g.home_team_id {
                assert(games[k].involves(g.away_team_id));
            } else if team_played_before(games, k, g.away_team_id) {
                let j = choose|j: int|
                    0 <= j < k && j < games.len() && (#[trigger] games[j]).involves(
                        g.away_team_id,
                    );
                assert(games[j].involves(g.away_team_id) && games[k].involves(g.away_team_id));
            } else if !(start@ <= g.game_date@ <= end@) {
                assert(games[k].game_date == g.game_date);
            }
        }
    }
}

/// Finds the first rule that the games break.
pub fn check_games(games: &Vec<Game>, start: Date, end: Date) -> (v: Option<Violation>)
    ensures
        v == games_violation(games@, start, end),
{
    broadcast use group_hash_axioms;

    let mut seen: HashSet<i32> = HashSet::new();
    let mut k: usize = 0;
    while k < games.len()
        invariant
            k <= games.len(),
            games_violation_upto(games@, k as int, start, end) is None,
            forall|t: i32| seen@.contains(t) <==> team_played_before(games@, k as int, t),
        decreases games.len() - k,
    {
        let g: Game = games[k];
        let ghost before = seen@;
        let mut found: Option<Violation> = None;
        if !seen.insert(g.home_team_id) {
            found = Some(Violation::TeamReused { team_id: g.home_team_id });
        } else if !seen.insert(g.away_team_id) {
            found = Some(Violation::TeamReused { team_id: g.away_team_id });
        } else if g.game_date.day_number() < start.day_number() || g.game_date.day_number()
            > end.day_number() {
            found =
            Some(
                Violation::GameOutsideRound {
                    game_date: g.game_date,
                    start_date: start,
                    end_date: end,
                },
            );
        }
        assert(found == game_violation(games@, k as int, start, end));
        if found.is_some() {
            proof {
                lemma_first_violation_stays(games@, k + 1, games.len() as int, start, end);
            }
            return found;
        }
        proof {
            assert(seen@ == before.insert(g.home_team_id).insert(g.away_team_id));
            assert forall|t: i32| seen@.contains(t) <==> team_played_before(
                games@,
                k + 1,
                t,
            ) by {
                if team_played_before(games@, k + 1, t) {
                    let j = choose|j: int|
                        0 <= j < k + 1 && j < games.len() && (#[trigger] games[j]).involves(t);
                    if j < k {
                        assert(team_played_before(games@, k as int, t));
                    }
                }
                if seen@.contains(t) {
                    if before.contains(t) {
                        let j = choose|j: int|
                            0 <= j < k && j < games.len() && (#[trigger] games[j]).involves(t);
                        assert(games[j].involves(t));
                    } else {
                        assert(games[k as int].involves(t));
                    }
                }
            }
        }
        k = k + 1;
    }
    None
}

/// Finds the first rule that the dates and the games of a submitted round
/// break.
pub fn check_common(round: &NewRound) -> (v: Option<Violation>)
    ensures
        v == common_violation(round.round, round.games@),
{
    if round.round.start_date.day_number() > round.round.end_date.day_number() {
        return Some(Violation::StartAfterEnd);
    }
    check_games(&round.games, round.round.start_date, round.round.end_date)
}

/// Whether one of the rounds has the number.
pub fn round_with_number_exists(rounds: &Vec<Round>, number: i32) -> (found: bool)
    ensures
        found == round_number_exists(rounds@, number),
{
    let mut i: usize = 0;
    while i < rounds.len()
        invariant
            i <= rounds.len(),
            forall|j: int| 0 <= j < i ==> (#[trigger] rounds[j]).round_number != number,
        decreases rounds.len() - i,
    {
        if rounds[i].round_number == number {
            return true;
        }
        i = i + 1;
    }
    false
}

/// Whether a round other than the one with identity `round_id` has the number.
pub fn round_with_number_used(rounds: &Vec<Round>, round_id: i32, number: i32) -> (found: bool)
    ensures
        found == round_number_used(rounds@, round_id, number),
{
    let mut i: usize = 0;
    while i < rounds.len()
        invariant
            i <= rounds.len(),
            forall|j: int|
                0 <= j < i ==> !((#[trigger] rounds[j]).round_id != Some(round_id)
                    && rounds[j].round_number == number),
        decreases rounds.len() - i,
    {
        let is_self = match rounds[i].round_id {
            Some(id) => id == round_id,
            None => false,
        };
        if !is_self && rounds[i].round_number == number {
            return true;
        }
        i = i + 1;
    }
    false
}

/// Finds the first rule that a round to be created breaks.
pub fn check_new(round: &NewRound, rounds: &Vec<Round>) -> (v: Option<Violation>)
    ensures
        v == new_round_violation(round.round, round.games@, rounds@),
{
    if round.round.round_number <= 0 {
        return Some(Violation::RoundNumberNotPositive);
    }
    if round_with_number_exists(rounds, round.round.round_number) {
        return Some(Violation::RoundNumberTaken);
    }
    check_common(round)
}

/// Finds the first rule that a round to replace the stored round `round_id`
/// breaks.
pub fn check_existing(round: &NewRound, round_id: i32, rounds: &Vec<Round>) -> (v: Option<
    Violation,
>)
    ensures
        v == existing_round_violation(round.round, round_id, round.games@, rounds@),
{
    if round.round.round_number <= 0 {
        return Some(Violation::RoundNumberNotPositive);
    }
    if round_with_number_used(rounds, round_id, round.round.round_number) {
        return Some(Violation::RoundNumberTaken);
    }
    check_common(round)
}

/// The name by which a team is told to the user.
pub fn team_name(teams: &Vec<Team>, team_id: i32) -> (name: String)
    ensures
        name@ == team_label(teams@, team_id),
{
    let mut i: usize = 0;
    assert(teams@.skip(0) =~= teams@);
    while i < teams.len()
        invariant
            i <= teams.len(),
            team_label(teams@, team_id) == team_label(teams@.skip(i as int), team_id),
        decreases teams.len() - i,
    {
        let is_it = match teams[i].id {
            Some(id) => id == team_id,
            None => false,
        };
        if is_it {
            return teams[i].name.clone();
        }
        assert(teams@.skip(i as int).drop_first() =~= teams@.skip(i + 1));
        i = i + 1;
    }
    decimal(team_id as i64)
}

impl Violation {
    /// The text that tells the user of the broken rule.
    pub fn message(&self, teams: &Vec<Team>) -> (text: String)
        ensures
            text@ == violation_text(*self, teams@),
    {
        match self {
            Violation::RoundNumberNotPositive => String::from_str(
                "Round number must be greater than 0",
            ),
            Violation::RoundNumberTaken => String::from_str("Round number already exists"),
            Violation::StartAfterEnd => String::from_str(
                "Round date must not be greater than end date",
            ),
            Violation::TeamReused { team_id } => {
                let name = team_name(teams, *team_id);
                let mut text = String::from_str("Team ");
                text.append(name.as_str());
                text.append(" is used more than once in this round");
                text
            },
            Violation::GameOutsideRound { game_date, start_date, end_date } => {
                let date = game_date.iso_text();
                let start = start_date.iso_text();
                let end = end_date.iso_text();
                let mut text = String::from_str("Game date ");
                text.append(date.as_str());
                text.append(" is not between the round start date ");
                text.append(start.as_str());
                text.append(" and end date ");
                text.append(end.as_str());
                text
            },
        }
    }
}

/// Turns the first broken rule, if any, into the result of a validation.
pub fn verdict(v: Option<Violation>, teams: &Vec<Team>) -> (r: Result<(), ApiError>)
    ensures
        is_verdict(r, v, teams@),
{
    match v {
        None => Ok(()),
        Some(v) => Err(ApiError::Invalid(v.message(teams))),
    }
}

/// Validates the dates and the games of a submitted round: the round must
/// not start after it ends, no team may play twice, and every game must be
/// played on a day of the round.  The first broken rule is reported.
pub fn validate_common(round: &NewRound, teams: &Vec<Team>) -> (r: Result<(), ApiError>)
    ensures
        is_verdict(r, common_violation(round.round, round.games@), teams@),
{
    verdict(check_common(round), teams)
}

/// Validates a round that is to be created, against the rounds that are
/// stored: its number must be positive and not taken, and its dates and games
/// must pass.  The first broken rule is reported.
pub fn validate_new(round: &NewRound, rounds: &Vec<Round>, teams: &Vec<Team>) -> (r: Result<
    (),
    ApiError,
>)
    ensures
        is_verdict(r, new_round_violation(round.round, round.games@, rounds@), teams@),
{
    verdict(check_new(round, rounds), teams)
}

/// Validates a round that is to replace a stored round, against the rounds
/// that are stored: it must carry the identity of the round it replaces, its
/// number must be positive and not taken by another round, and its dates and
/// games must pass.  The first broken rule is reported.
pub fn validate_existing(round: &NewRound, rounds: &Vec<Round>, teams: &Vec<Team>) -> (r: Result<
    (),
    ApiError,
>)
    ensures
        match round.round.round_id {
            Some(round_id) => is_verdict(
                r,
                existing_round_violation(round.round, round_id, round.games@, rounds@),
                teams@,
            ),
            None => r matches Err(e) && e@ == ApiErrorView::Error("No round id, can't update"@),
        },
{
    match round.round.round_id {
        Some(round_id) => verdict(check_existing(round, round_id, rounds), teams),
        None => Err(ApiError::Error(String::from_str("No round id, can't update"))),
    }
}

} // verus!
