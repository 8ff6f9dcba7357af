use kelpie_tipping::date::Date;
use kelpie_tipping::error::ApiError;
use kelpie_tipping::game::Game;
use kelpie_tipping::round::NewRound;
use kelpie_tipping::round::Round;
use kelpie_tipping::team::Team;
use kelpie_tipping::validation::check_common;
use kelpie_tipping::validation::check_existing;
use kelpie_tipping::validation::check_games;
use kelpie_tipping::validation::check_new;
use kelpie_tipping::validation::round_with_number_exists;
use kelpie_tipping::validation::round_with_number_used;
use kelpie_tipping::validation::team_name;
use kelpie_tipping::validation::validate_common;
use kelpie_tipping::validation::validate_existing;
use kelpie_tipping::validation::validate_new;
use kelpie_tipping::validation::verdict;
use kelpie_tipping::validation::Violation;

fn team(id: i32, nickname: &str) -> Team {
    Team {
        id: Some(id),
        name: format!("The {}", nickname),
        nickname: nickname.to_string(),
        can_delete: None,
    }
}

fn teams() -> Vec<Team> {
    vec![team(1, "Cats"), team(2, "Dogs"), team(3, "Swans"), team(4, "Lions")]
}

fn day(n: i32) -> Date {
    Date::from_ymd(2025, 3, 1).unwrap().plus_days(n).unwrap()
}

fn game(home: i32, away: i32, date: Date) -> Game {
    Game {
        game_id: None,
        round_id: None,
        home_team_id: home,
        away_team_id: away,
        game_date: date,
        home_team_score: None,
        away_team_score: None,
    }
}

fn round(id: Option<i32>, number: i32) -> Round {
    Round { round_id: id, round_number: number, start_date: day(0), end_date: day(6), bonus_points: 3 }
}

fn invalid(r: Result<(), ApiError>) -> String {
    match r {
        Err(ApiError::Invalid(text)) => text,
        other => panic!("expected an invalid request, got {:?}", other),
    }
}

#[test]
fn validation_rejects_reused_team() {
    let submitted = NewRound {
        round: round(None, 1),
        games: vec![game(1, 2, day(0)), game(3, 1, day(1))],
    };
    assert_eq!(
        invalid(validate_new(&submitted, &Vec::new(), &teams())),
        "Team The Cats is used more than once in this round"
    );
    assert_eq!(check_new(&submitted, &Vec::new()), Some(Violation::TeamReused { team_id: 1 }));
    // the same team once in each of two different rounds
    let first = NewRound { round: round(None, 1), games: vec![game(1, 2, day(0))] };
    let second = NewRound { round: round(None, 2), games: vec![game(3, 1, day(1))] };
    assert!(validate_new(&first, &Vec::new(), &teams()).is_ok());
    assert!(validate_new(&second, &vec![round(Some(1), 1)], &teams()).is_ok());
}

#[test]
fn validation_rejects_out_of_window_date() {
    let early = NewRound { round: round(None, 1), games: vec![game(1, 2, day(-1))] };
    assert_eq!(
        invalid(validate_new(&early, &Vec::new(), &teams())),
        "Game date 2025-02-28 is not between the round start date 2025-03-01 and end date 2025-03-07"
    );
    let late = NewRound {
        round: round(None, 1),
        games: vec![game(1, 2, day(6)), game(3, 4, day(7))],
    };
    assert_eq!(
        invalid(validate_new(&late, &Vec::new(), &teams())),
        "Game date 2025-03-08 is not between the round start date 2025-03-01 and end date 2025-03-07"
    );
    assert_eq!(
        check_new(&late, &Vec::new()),
        Some(Violation::GameOutsideRound { game_date: day(7), start_date: day(0), end_date: day(6) })
    );
    let on_the_edges = NewRound {
        round: round(None, 1),
        games: vec![game(1, 2, day(0)), game(3, 4, day(6))],
    };
    assert!(validate_new(&on_the_edges, &Vec::new(), &teams()).is_ok());
}

#[test]
fn validation_of_the_round_number() {
    let zero = NewRound { round: round(None, 0), games: Vec::new() };
    assert_eq!(
        invalid(validate_new(&zero, &Vec::new(), &teams())),
        "Round number must be greater than 0"
    );
    let negative = NewRound { round: round(Some(5), -3), games: Vec::new() };
    assert_eq!(
        invalid(validate_existing(&negative, &Vec::new(), &teams())),
        "Round number must be greater than 0"
    );
    let stored = vec![round(Some(1), 1), round(Some(2), 2)];
    let taken = NewRound { round: round(None, 2), games: Vec::new() };
    assert_eq!(invalid(validate_new(&taken, &stored, &teams())), "Round number already exists");
    let free = NewRound { round: round(None, 3), games: Vec::new() };
    assert!(validate_new(&free, &stored, &teams()).is_ok());
}

#[test]
fn validation_of_an_update_leaves_out_the_round_itself() {
    let stored = vec![round(Some(1), 1), round(Some(2), 2)];
    let same_number = NewRound { round: round(Some(2), 2), games: Vec::new() };
    assert!(validate_existing(&same_number, &stored, &teams()).is_ok());
    let number_of_another = NewRound { round: round(Some(2), 1), games: Vec::new() };
    assert_eq!(
        invalid(validate_existing(&number_of_another, &stored, &teams())),
        "Round number already exists"
    );
    assert!(round_with_number_used(&stored, 2, 1));
    assert!(!round_with_number_used(&stored, 1, 1));
    assert!(round_with_number_exists(&stored, 1));
    assert!(!round_with_number_exists(&stored, 3));
}

#[test]
fn validation_of_an_update_needs_the_round_identity() {
    let submitted = NewRound { round: round(None, 1), games: Vec::new() };
    match validate_existing(&submitted, &Vec::new(), &teams()) {
        Err(ApiError::Error(text)) => assert_eq!(text, "No round id, can't update"),
        other => panic!("expected an error, got {:?}", other),
    }
}

#[test]
fn validation_of_the_dates() {
    let mut r = round(None, 1);
    r.start_date = day(3);
    r.end_date = day(2);
    let submitted = NewRound { round: r, games: vec![game(1, 1, day(9))] };
    assert_eq!(
        invalid(validate_common(&submitted, &teams())),
        "Round date must not be greater than end date"
    );
    assert_eq!(check_common(&submitted), Some(Violation::StartAfterEnd));
    r.end_date = day(3);
    let one_day = NewRound { round: r, games: vec![game(1, 2, day(3))] };
    assert!(validate_common(&one_day, &teams()).is_ok());
}

#[test]
fn validation_reports_the_first_failure() {
    // the date of the first game is wrong, and the second game reuses a team
    let games = vec![game(1, 2, day(9)), game(2, 3, day(0))];
    assert_eq!(
        check_games(&games, day(0), day(6)),
        Some(Violation::GameOutsideRound { game_date: day(9), start_date: day(0), end_date: day(6) })
    );
    // within one game the teams are looked at before the date
    let games = vec![game(1, 2, day(0)), game(3, 2, day(9))];
    assert_eq!(check_games(&games, day(0), day(6)), Some(Violation::TeamReused { team_id: 2 }));
    // the home team is looked at before the away team
    let games = vec![game(1, 2, day(0)), game(2, 1, day(0))];
    assert_eq!(check_games(&games, day(0), day(6)), Some(Violation::TeamReused { team_id: 2 }));
    // a team against itself
    let games = vec![game(4, 4, day(0))];
    assert_eq!(check_games(&games, day(0), day(6)), Some(Violation::TeamReused { team_id: 4 }));
    assert_eq!(check_games(&Vec::new(), day(0), day(6)), None);
    // the number comes before everything else
    let mut r = round(Some(1), 0);
    r.start_date = day(3);
    r.end_date = day(2);
    let submitted = NewRound { round: r, games: vec![game(1, 1, day(9))] };
    assert_eq!(check_existing(&submitted, 1, &Vec::new()), Some(Violation::RoundNumberNotPositive));
}

#[test]
fn validation_names_a_team_by_its_identity_if_it_must() {
    assert_eq!(team_name(&teams(), 3), "The Swans");
    assert_eq!(team_name(&teams(), 42), "42");
    assert_eq!(team_name(&teams(), -7), "-7");
    assert_eq!(team_name(&teams(), 0), "0");
    assert_eq!(team_name(&Vec::new(), i32::MIN), "-2147483648");
    assert_eq!(team_name(&Vec::new(), i32::MAX), "2147483647");
    let submitted = NewRound {
        round: round(None, 1),
        games: vec![game(10, 20, day(0)), game(20, 30, day(1))],
    };
    assert_eq!(
        invalid(validate_new(&submitted, &Vec::new(), &teams())),
        "Team 20 is used more than once in this round"
    );
    let twice = vec![team(5, "First"), team(5, "Second")];
    assert_eq!(team_name(&twice, 5), "The First");
}

#[test]
fn violation_messages() {
    assert_eq!(
        Violation::RoundNumberNotPositive.message(&teams()),
        "Round number must be greater than 0"
    );
    assert_eq!(Violation::RoundNumberTaken.message(&teams()), "Round number already exists");
    assert_eq!(
        Violation::StartAfterEnd.message(&teams()),
        "Round date must not be greater than end date"
    );
    assert_eq!(
        Violation::TeamReused { team_id: 2 }.message(&teams()),
        "Team The Dogs is used more than once in this round"
    );
    assert!(verdict(None, &teams()).is_ok());
    assert_eq!(
        invalid(verdict(Some(Violation::RoundNumberTaken), &teams())),
        "Round number already exists"
    );
}
