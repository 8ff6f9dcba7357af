use kelpie_tipping::date::Date;
use kelpie_tipping::editing::add_game;
use kelpie_tipping::editing::blank_game;
use kelpie_tipping::editing::delete_game;
use kelpie_tipping::editing::submit_failure;
use kelpie_tipping::error::ApiError;
use kelpie_tipping::game::Game;
use kelpie_tipping::http::Endpoint;
use kelpie_tipping::http::Method;
use kelpie_tipping::http::Route;
use kelpie_tipping::reports;
use kelpie_tipping::round::Round;
use kelpie_tipping::rounds;
use kelpie_tipping::team::Team;
use kelpie_tipping::teams;
use kelpie_tipping::text::decimal;
use kelpie_tipping::text::natural;
use kelpie_tipping::tipper::Tipper;
use kelpie_tipping::tippers;
use kelpie_tipping::tips;

fn lines(table: &Vec<Route>) -> Vec<(Method, &str, Endpoint)> {
    table.iter().map(|r| (r.method, r.path, r.endpoint)).collect()
}

#[test]
fn routes_of_the_rounds() {
    assert_eq!(
        lines(&rounds::routes()),
        vec![
            (Method::Post, "/api/rounds", Endpoint::AddRound),
            (Method::Get, "/api/rounds", Endpoint::ListRounds),
            (Method::Delete, "/api/rounds/<id>", Endpoint::DeleteRound),
            (Method::Get, "/api/rounds/<id>", Endpoint::GetRound),
            (Method::Put, "/api/rounds", Endpoint::UpdateRound),
            (Method::Get, "/api/template_round", Endpoint::TemplateRound),
        ]
    );
}

#[test]
fn routes_of_teams_tippers_tips_and_reports() {
    assert_eq!(
        lines(&teams::routes()),
        vec![
            (Method::Get, "/api/teams", Endpoint::ListTeams),
            (Method::Post, "/api/teams", Endpoint::AddTeam),
            (Method::Put, "/api/teams", Endpoint::UpdateTeam),
            (Method::Delete, "/api/teams/<id>", Endpoint::DeleteTeam),
        ]
    );
    assert_eq!(
        lines(&tippers::routes()),
        vec![
            (Method::Get, "/api/tippers", Endpoint::ListTippers),
            (Method::Post, "/api/tippers", Endpoint::AddTipper),
            (Method::Put, "/api/tippers", Endpoint::UpdateTipper),
            (Method::Delete, "/api/tippers/<id>", Endpoint::DeleteTipper),
            (Method::Get, "/api/tippers/<id>", Endpoint::GetTipper),
        ]
    );
    assert_eq!(
        lines(&tips::routes()),
        vec![
            (Method::Get, "/api/tips/<tipper_id>/<round_id>", Endpoint::GetTips),
            (Method::Post, "/api/tips/<_tipper_id>/<_round_id>", Endpoint::SaveTips),
            (Method::Get, "/api/tips/exists/round/<round_id>", Endpoint::TipsExist),
        ]
    );
    assert_eq!(
        lines(&reports::routes()),
        vec![
            (Method::Get, "/leaderboard", Endpoint::Leaderboard),
            (Method::Get, "/round/<round_id>", Endpoint::RoundScores),
        ]
    );
}

#[test]
fn errors_have_a_status_and_a_text() {
    let not_found = ApiError::NotFound("a".to_string());
    let error = ApiError::Error("b".to_string());
    let invalid = ApiError::Invalid("c".to_string());
    let db = ApiError::Db("d".to_string());
    assert_eq!((not_found.status(), not_found.message().as_str()), (404, "a"));
    assert_eq!((error.status(), error.message().as_str()), (500, "b"));
    assert_eq!((invalid.status(), invalid.message().as_str()), (400, "c"));
    assert_eq!((db.status(), db.message().as_str()), (409, "d"));
    match rounds::round_not_found(-12) {
        ApiError::NotFound(text) => assert_eq!(text, "Round with ID -12 not found"),
        other => panic!("expected not found, got {:?}", other),
    }
}

#[test]
fn what_the_count_of_updated_rows_means() {
    assert!(teams::update(1).is_ok());
    match teams::update(0) {
        Err(ApiError::NotFound(text)) => assert_eq!(text, "Row not found"),
        other => panic!("expected not found, got {:?}", other),
    }
    match teams::update(2) {
        Err(ApiError::Error(text)) => assert_eq!(text, "Unexpected row count"),
        other => panic!("expected an error, got {:?}", other),
    }
    assert!(tippers::update(1).is_ok());
    match tippers::update(0) {
        Err(ApiError::NotFound(text)) => assert_eq!(text, "Row not found"),
        other => panic!("expected not found, got {:?}", other),
    }
    match tippers::update(u64::MAX) {
        Err(ApiError::Error(text)) => assert_eq!(text, "Multiple rows updated"),
        other => panic!("expected an error, got {:?}", other),
    }
}

#[test]
fn a_competitor_read_back() {
    let t = Tipper { id: Some(4), name: "Dee".to_string(), email: "dee@example.org".to_string() };
    let found = tippers::get(Some(t)).unwrap();
    assert_eq!((found.id, found.name.as_str(), found.email.as_str()), (Some(4), "Dee", "dee@example.org"));
    match tippers::get(None) {
        Err(ApiError::NotFound(text)) => assert_eq!(text, "Tipper not found"),
        other => panic!("expected not found, got {:?}", other),
    }
}

#[test]
fn a_team_in_a_game_cannot_be_deleted() {
    let date = Date::from_ymd(2025, 3, 1).unwrap();
    let games = vec![Game {
        game_id: Some(1),
        round_id: Some(1),
        home_team_id: 1,
        away_team_id: 2,
        game_date: date,
        home_team_score: None,
        away_team_score: None,
    }];
    assert!(!teams::can_delete(1, &games));
    assert!(!teams::can_delete(2, &games));
    assert!(teams::can_delete(3, &games));
    assert!(teams::can_delete(1, &Vec::new()));
}

#[test]
fn rows_are_equal_when_their_identities_are() {
    let date = Date::from_ymd(2025, 3, 1).unwrap();
    let a = Team { id: Some(1), name: "A".to_string(), nickname: "a".to_string(), can_delete: None };
    let b = Team { id: Some(1), name: "B".to_string(), nickname: "b".to_string(), can_delete: Some(true) };
    let c = Team { id: Some(2), name: "A".to_string(), nickname: "a".to_string(), can_delete: None };
    assert!(a == b);
    assert!(a != c);
    let r = Round { round_id: Some(1), round_number: 1, start_date: date, end_date: date, bonus_points: 0 };
    let s = Round { round_id: Some(1), round_number: 9, start_date: date, end_date: date, bonus_points: 5 };
    let t = Round { round_id: None, round_number: 1, start_date: date, end_date: date, bonus_points: 0 };
    assert!(r == s);
    assert!(r != t);
    let g = Game::default();
    let h = Game { home_team_id: 5, ..Game::default() };
    let i = Game { game_id: Some(3), ..Game::default() };
    assert!(g == h);
    assert!(g != i);
    assert_eq!(g.game_date, Date::default());
    assert_eq!((g.home_team_id, g.away_team_id, g.round_id), (0, 0, None));
    let d = Round::default();
    assert_eq!((d.round_id, d.round_number, d.bonus_points), (None, 0, 0));
    assert_eq!(d.start_date, Date::default());
}

#[test]
fn numbers_in_decimal() {
    assert_eq!(decimal(0), "0");
    assert_eq!(decimal(7), "7");
    assert_eq!(decimal(10), "10");
    assert_eq!(decimal(-1), "-1");
    assert_eq!(decimal(1234567890), "1234567890");
    assert_eq!(decimal(i64::MAX), i64::MAX.to_string());
    assert_eq!(decimal(i64::MIN), i64::MIN.to_string());
    assert_eq!(natural(u64::MAX), u64::MAX.to_string());
    assert_eq!(natural(109), "109");
}

#[test]
fn games_of_a_round_being_edited() {
    let start = Date::from_ymd(2025, 3, 1).unwrap();
    let mut games: Vec<Game> = Vec::new();
    add_game(&mut games, start);
    add_game(&mut games, start.plus_days(1).unwrap());
    add_game(&mut games, start.plus_days(2).unwrap());
    assert_eq!(games.len(), 3);
    let g = blank_game(start);
    assert_eq!((g.game_id, g.round_id, g.home_team_id, g.away_team_id), (None, None, 0, 0));
    assert_eq!((g.game_date, g.home_team_score, g.away_team_score), (start, None, None));
    assert_eq!(games[0].game_date, start);
    delete_game(&mut games, 1);
    assert_eq!(games.len(), 2);
    assert_eq!(games[0].game_date, start);
    assert_eq!(games[1].game_date, start.plus_days(2).unwrap());
    delete_game(&mut games, 0);
    delete_game(&mut games, 0);
    assert!(games.is_empty());
}

#[test]
fn what_the_user_is_told_of_a_refused_round() {
    assert_eq!(
        submit_failure(400, "Round number already exists"),
        "Add failed: Round number already exists"
    );
    assert_eq!(submit_failure(409, "duplicate key"), "Unexpected error (409): duplicate key");
    assert_eq!(submit_failure(500, ""), "Unexpected error (500): ");
}
