//! Editing a round before it is submitted: adding and removing games, and
//! what to tell the user when a submission fails.

use crate::date::Date;
use crate::game::Game;
use crate::text::decimal;
use crate::text::decimal_text;
use vstd::prelude::*;

verus! {

/// The game that is added to a round being edited: not stored, of no round,
/// between no teams yet (both are 0), on the given day, without scores.
pub fn blank_game(date: Date) -> (g: Game)
    ensures
        g == (Game {
            game_id: None,
            round_id: None,
            home_team_id: 0,
            away_team_id: 0,
            game_date: date,
            home_team_score: None,
            away_team_score: None,
        }),
{
    Game {
        game_id: None,
        round_id: None,
        home_team_id: 0,
        away_team_id: 0,
        game_date: date,
        home_team_score: None,
        away_team_score: None,
    }
}

/// Adds a blank game on the first day of the round to the games being
/// edited.
pub fn add_game(games: &mut Vec<Game>, start_date: Date)
    ensures
        final(games)@ == old(games)@.push(
            Game {
                game_id: None,
                round_id: None,
                home_team_id: 0,
                away_team_id: 0,
                game_date: start_date,
                home_team_score: None,
                away_team_score: None,
            },
        ),
{
    games.push(blank_game(start_date));
}

/// Takes the game at the given place out of the games being edited.
pub fn delete_game(games: &mut Vec<Game>, index: usize)
    requires
        index < old(games).len(),
    ensures
        final(games)@ == old(games)@.remove(index as int),
{
    games.remove(index);
}

/// What the user is told when a submitted round is refused: the server's
/// text as it is for an invalid request (status 400), with the status for
/// any other failure.
pub open spec fn submit_failure_text(status: u16, text: Seq<char>) -> Seq<char> {
    if status == 400 {
        "Add failed: "@ + text
    } else {
        "Unexpected error ("@ + decimal_text(status as int) + "): "@ + text
    }
}

/// What the user is told when a submitted round is refused.
pub fn submit_failure(status: u16, text: &str) -> (message: String)
    ensures
        message@ == submit_failure_text(status, text@),
{
    if status == 400 {
        let mut message = String::from_str("Add failed: ");
        message.append(text);
        message
    } else {
        let number = decimal(status as i64);
        let mut message = String::from_str("Unexpected error (");
        message.append(number.as_str());
        message.append("): ");
        message.append(text);
        message
    }
}

} // verus!
