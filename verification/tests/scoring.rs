use kelpie_tipping::date::Date;
use kelpie_tipping::error::ApiError;
use kelpie_tipping::game::Game;
use kelpie_tipping::reports::get_leaderboard;
use kelpie_tipping::reports::get_score_by_round;
use kelpie_tipping::reports::leaderboard;
use kelpie_tipping::reports::leaderboard_csv;
use kelpie_tipping::reports::leaderboard_sql;
use kelpie_tipping::reports::report_path;
use kelpie_tipping::reports::round;
use kelpie_tipping::reports::scores;
use kelpie_tipping::reports::LeaderboardEntry;
use kelpie_tipping::round::Round;
use kelpie_tipping::scoring::arrange;
use kelpie_tipping::scoring::bonus_for_round;
use kelpie_tipping::scoring::count_games;
use kelpie_tipping::scoring::find_game;
use kelpie_tipping::scoring::is_correct;
use kelpie_tipping::scoring::ranking;
use kelpie_tipping::scoring::score_bonus;
use kelpie_tipping::scoring::score_tips;
use kelpie_tipping::tip::Tip;
use kelpie_tipping::tipper::Tipper;

const A: i32 = 1;
const B: i32 = 2;

fn day(n: i32) -> Date {
    Date::from_ymd(2025, 3, 1).unwrap().plus_days(n).unwrap()
}

fn tipper(id: i32, name: &str) -> Tipper {
    Tipper { id: Some(id), name: name.to_string(), email: format!("{}@example.org", name) }
}

fn played(id: i32, round_id: i32, home: i32, away: i32, score: Option<(i32, i32)>) -> Game {
    Game {
        game_id: Some(id),
        round_id: Some(round_id),
        home_team_id: home,
        away_team_id: away,
        game_date: day(0),
        home_team_score: score.map(|s| s.0),
        away_team_score: score.map(|s| s.1),
    }
}

fn round_with_bonus(id: i32, bonus: i32) -> Round {
    Round { round_id: Some(id), round_number: id, start_date: day(0), end_date: day(6), bonus_points: bonus }
}

fn tip(tipper_id: i32, game_id: i32, team_id: i32) -> Tip {
    Tip { tipper_id, game_id, team_id: Some(team_id) }
}

fn line(e: &LeaderboardEntry) -> (&str, i64, i64, i64) {
    (e.tipper_name.as_str(), e.tip_score, e.bonus_score, e.total_score)
}

#[test]
fn scoring_example() {
    let tippers = vec![tipper(1, "C"), tipper(2, "D")];
    let rounds = vec![round_with_bonus(1, 3)];
    let games = vec![played(1, 1, A, B, Some((10, 5)))];
    let tips = vec![tip(1, 1, A), tip(2, 1, B)];
    let board = get_score_by_round(&tippers, &rounds, &games, &tips, 1);
    assert_eq!(board.len(), 2);
    assert_eq!(line(&board[0]), ("C", 1, 3, 4));
    assert_eq!(line(&board[1]), ("D", 0, 0, 0));
    let whole = get_leaderboard(&tippers, &rounds, &games, &tips);
    assert_eq!(line(&whole[0]), ("C", 1, 3, 4));
    assert_eq!(line(&whole[1]), ("D", 0, 0, 0));
}

#[test]
fn leaderboard_includes_non_tippers() {
    let tippers = vec![tipper(1, "Ann"), tipper(2, "Bob"), tipper(3, "Cyd")];
    let rounds = vec![round_with_bonus(1, 3)];
    let games = vec![played(1, 1, A, B, Some((10, 5)))];
    let tips = vec![tip(2, 1, A)];
    let board = get_leaderboard(&tippers, &rounds, &games, &tips);
    assert_eq!(board.len(), 3);
    assert_eq!(line(&board[0]), ("Bob", 1, 3, 4));
    assert_eq!(line(&board[1]), ("Ann", 0, 0, 0));
    assert_eq!(line(&board[2]), ("Cyd", 0, 0, 0));
    let nobody_tipped = get_leaderboard(&tippers, &rounds, &games, &Vec::new());
    assert_eq!(nobody_tipped.len(), 3);
    assert!(nobody_tipped.iter().all(|e| (e.tip_score, e.bonus_score, e.total_score) == (0, 0, 0)));
    let names: Vec<&str> = nobody_tipped.iter().map(|e| e.tipper_name.as_str()).collect();
    assert_eq!(names, vec!["Ann", "Bob", "Cyd"]);
    assert!(get_leaderboard(&Vec::new(), &rounds, &games, &tips).is_empty());
}

#[test]
fn a_draw_is_right_for_both_picks() {
    let draw = played(1, 1, A, B, Some((7, 7)));
    assert!(is_correct(&tip(1, 1, A), &draw));
    assert!(is_correct(&tip(1, 1, B), &draw));
    assert!(!is_correct(&tip(1, 1, 3), &draw));
    let home_win = played(1, 1, A, B, Some((8, 7)));
    assert!(is_correct(&tip(1, 1, A), &home_win));
    assert!(!is_correct(&tip(1, 1, B), &home_win));
    let away_win = played(1, 1, A, B, Some((0, 1)));
    assert!(!is_correct(&tip(1, 1, A), &away_win));
    assert!(is_correct(&tip(1, 1, B), &away_win));
    assert!(!is_correct(&Tip { tipper_id: 1, game_id: 1, team_id: None }, &draw));
}

#[test]
fn a_game_without_both_scores_gives_no_point() {
    let unplayed = played(1, 1, A, B, None);
    assert!(!is_correct(&tip(1, 1, A), &unplayed));
    let mut half = played(1, 1, A, B, None);
    half.home_team_score = Some(3);
    assert!(!is_correct(&tip(1, 1, A), &half));
    half.home_team_score = None;
    half.away_team_score = Some(3);
    assert!(!is_correct(&tip(1, 1, B), &half));
    let games = vec![unplayed];
    let tips = vec![tip(1, 1, A)];
    assert_eq!(score_tips(Some(1), &tips, &games, None), 0);
    assert_eq!(bonus_for_round(Some(1), &round_with_bonus(1, 3), &tips, &games), 0);
}

#[test]
fn the_bonus_needs_every_game_of_the_round() {
    let rounds = vec![round_with_bonus(1, 5), round_with_bonus(2, 7), round_with_bonus(3, 9)];
    let games = vec![
        played(1, 1, 1, 2, Some((3, 1))),
        played(2, 1, 3, 4, Some((0, 2))),
        played(3, 2, 1, 3, Some((1, 1))),
        played(4, 2, 2, 4, None),
    ];
    // every game of round 1 right, one game of round 2 right, the other not played
    let tips = vec![tip(1, 1, 1), tip(1, 2, 4), tip(1, 3, 3), tip(1, 4, 2), tip(2, 1, 1)];
    assert_eq!(count_games(&games, Some(1)), 2);
    assert_eq!(count_games(&games, Some(3)), 0);
    assert_eq!(score_tips(Some(1), &tips, &games, None), 3);
    assert_eq!(score_tips(Some(1), &tips, &games, Some(1)), 2);
    assert_eq!(score_tips(Some(1), &tips, &games, Some(2)), 1);
    assert_eq!(score_tips(Some(2), &tips, &games, None), 1);
    assert_eq!(score_tips(None, &tips, &games, None), 0);
    assert_eq!(bonus_for_round(Some(1), &rounds[0], &tips, &games), 5);
    assert_eq!(bonus_for_round(Some(1), &rounds[1], &tips, &games), 0);
    // a round without games gives no bonus
    assert_eq!(bonus_for_round(Some(1), &rounds[2], &tips, &games), 0);
    // one right tip out of two games is no perfect round
    assert_eq!(bonus_for_round(Some(2), &rounds[0], &tips, &games), 0);
    assert_eq!(score_bonus(Some(1), &rounds, &tips, &games, None), 5);
    assert_eq!(score_bonus(Some(1), &rounds, &tips, &games, Some(2)), 0);
    assert_eq!(score_bonus(Some(1), &rounds, &tips, &games, Some(1)), 5);
    let tippers = vec![tipper(2, "Two"), tipper(1, "One")];
    let board = scores(&tippers, &rounds, &games, &tips, None);
    assert_eq!(line(&board[0]), ("One", 3, 5, 8));
    assert_eq!(line(&board[1]), ("Two", 1, 0, 1));
    let second = scores(&tippers, &rounds, &games, &tips, Some(2));
    assert_eq!(line(&second[0]), ("One", 1, 0, 1));
    assert_eq!(line(&second[1]), ("Two", 0, 0, 0));
}

#[test]
fn bonuses_of_several_rounds_add_up() {
    let rounds = vec![round_with_bonus(1, 5), round_with_bonus(2, 7)];
    let games = vec![played(1, 1, 1, 2, Some((3, 1))), played(2, 2, 3, 4, Some((0, 2)))];
    let tips = vec![tip(1, 1, 1), tip(1, 2, 4)];
    let board = get_leaderboard(&vec![tipper(1, "One")], &rounds, &games, &tips);
    assert_eq!(line(&board[0]), ("One", 2, 12, 14));
}

#[test]
fn tips_for_unknown_games_do_not_count() {
    let games = vec![played(1, 1, 1, 2, Some((3, 1)))];
    let tips = vec![tip(1, 99, 1)];
    assert_eq!(score_tips(Some(1), &tips, &games, None), 0);
    assert!(find_game(&games, 99).is_none());
    assert_eq!(find_game(&games, 1).unwrap().home_team_id, 1);
}

#[test]
fn ranking_is_by_total_and_keeps_the_listed_order_of_equals() {
    assert_eq!(ranking(&vec![3, 9, 3, 12, 9]), vec![3, 1, 4, 0, 2]);
    assert_eq!(ranking(&vec![0, 0, 0]), vec![0, 1, 2]);
    assert_eq!(ranking(&vec![-5, i64::MAX, i64::MIN]), vec![1, 0, 2]);
    assert!(ranking(&Vec::new()).is_empty());
    assert_eq!(arrange(&vec!['a', 'b', 'c'], &vec![1, 3, 2]), vec!['b', 'c', 'a']);
    let tippers = vec![tipper(1, "Low"), tipper(2, "High"), tipper(3, "Also high")];
    let rounds = vec![round_with_bonus(1, 0)];
    let games = vec![played(1, 1, A, B, Some((10, 5)))];
    let tips = vec![tip(2, 1, A), tip(3, 1, A), tip(1, 1, B)];
    let board = get_leaderboard(&tippers, &rounds, &games, &tips);
    let names: Vec<&str> = board.iter().map(|e| e.tipper_name.as_str()).collect();
    assert_eq!(names, vec!["High", "Also high", "Low"]);
    for pair in board.windows(2) {
        assert!(pair[0].total_score >= pair[1].total_score);
    }
}

#[test]
fn the_board_is_empty_where_it_could_not_be_had() {
    let entries = vec![LeaderboardEntry {
        tipper_name: "C".to_string(),
        tip_score: 1,
        bonus_score: 3,
        total_score: 4,
    }];
    let shown = leaderboard(Ok(entries.clone()));
    assert_eq!(shown.len(), 1);
    assert_eq!(line(&shown[0]), ("C", 1, 3, 4));
    assert!(leaderboard(Err(ApiError::Db("down".to_string()))).is_empty());
    assert_eq!(round(Ok(entries)).len(), 1);
    assert!(round(Err(ApiError::Error("down".to_string()))).is_empty());
}

#[test]
fn the_query_holds_the_condition() {
    let all = leaderboard_sql("");
    let one = leaderboard_sql("WHERE games.round_id = $1");
    assert!(!all.contains("WHERE games.round_id"));
    assert!(one.contains("JOIN games ON tips.game_id = games.game_id\n            WHERE games.round_id = $1\n        ),"));
    assert_eq!(one.len(), all.len() + "WHERE games.round_id = $1".len());
    assert!(all.trim_start().starts_with("WITH tip_scores AS ("));
    assert!(all.trim_end().ends_with("ORDER BY total_score DESC, ts.tipper_name, ts.tipper_id"));
}

#[test]
fn the_board_as_comma_separated_values() {
    let board = vec![
        LeaderboardEntry { tipper_name: "Ann".to_string(), tip_score: 12, bonus_score: 3, total_score: 15 },
        LeaderboardEntry {
            tipper_name: "Bob \"the tip\" B, jr".to_string(),
            tip_score: 0,
            bonus_score: -2,
            total_score: -2,
        },
        LeaderboardEntry { tipper_name: "".to_string(), tip_score: 0, bonus_score: 0, total_score: 0 },
        LeaderboardEntry { tipper_name: "Zoë \"\"".to_string(), tip_score: 1, bonus_score: 0, total_score: 1 },
    ];
    assert_eq!(
        leaderboard_csv(&board),
        "Tipper,Game Score,Bonus Score,Total Score\n\
         \"Ann\",12,3,15\n\
         \"Bob \"\"the tip\"\" B, jr\",0,-2,-2\n\
         \"\",0,0,0\n\
         \"Zoë \"\"\"\"\",1,0,1\n"
    );
    assert_eq!(leaderboard_csv(&Vec::new()), "Tipper,Game Score,Bonus Score,Total Score\n");
    assert_eq!(report_path(None), "/reports/leaderboard");
    assert_eq!(report_path(Some(12)), "/reports/round/12");
    assert_eq!(report_path(Some(-3)), "/reports/round/-3");
}
