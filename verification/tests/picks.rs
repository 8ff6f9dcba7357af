use kelpie_tipping::date::Date;
use kelpie_tipping::game::Game;
use kelpie_tipping::picks::all_tipped;
use kelpie_tipping::picks::load_tips;
use kelpie_tipping::picks::pick_for;
use kelpie_tipping::picks::record_tips;
use kelpie_tipping::tip::Tip;
use std::collections::HashMap;

fn game(id: Option<i32>) -> Game {
    Game {
        game_id: id,
        round_id: Some(1),
        home_team_id: 1,
        away_team_id: 2,
        game_date: Date::from_ymd(2025, 3, 1).unwrap(),
        home_team_score: None,
        away_team_score: None,
    }
}

#[test]
fn picks_start_blank_where_no_tip_is_stored() {
    let games = vec![game(Some(4)), game(Some(7)), game(None)];
    let picks = load_tips(&games, &Vec::new());
    let mut expected: HashMap<i32, Option<i32>> = HashMap::new();
    expected.insert(4, None);
    expected.insert(7, None);
    expected.insert(-1, None);
    assert_eq!(picks, expected);
    assert!(!all_tipped(&games, &picks));
    assert!(record_tips(1, &games, &picks).is_none());
    assert!(load_tips(&Vec::new(), &Vec::new()).is_empty());
}

#[test]
fn picks_are_those_of_the_stored_tips() {
    let games = vec![game(Some(4)), game(Some(7))];
    let tips = vec![
        Tip { tipper_id: 1, game_id: 4, team_id: Some(1) },
        Tip { tipper_id: 1, game_id: 9, team_id: None },
        Tip { tipper_id: 1, game_id: 4, team_id: Some(2) },
    ];
    let picks = load_tips(&games, &tips);
    let mut expected: HashMap<i32, Option<i32>> = HashMap::new();
    expected.insert(4, Some(2));
    expected.insert(9, None);
    assert_eq!(picks, expected);
    assert_eq!(pick_for(&picks, 4), Some(2));
    assert_eq!(pick_for(&picks, 9), None);
    assert_eq!(pick_for(&picks, 7), None);
    assert!(!all_tipped(&games, &picks));
}

#[test]
fn tips_are_recorded_when_every_game_is_tipped() {
    let games = vec![game(Some(4)), game(Some(7))];
    let mut picks: HashMap<i32, Option<i32>> = HashMap::new();
    picks.insert(4, Some(1));
    assert!(!all_tipped(&games, &picks));
    assert!(record_tips(3, &games, &picks).is_none());
    picks.insert(7, None);
    assert!(record_tips(3, &games, &picks).is_none());
    picks.insert(7, Some(2));
    picks.insert(8, Some(1));
    assert!(all_tipped(&games, &picks));
    assert_eq!(
        record_tips(3, &games, &picks).unwrap(),
        vec![
            Tip { tipper_id: 3, game_id: 4, team_id: Some(1) },
            Tip { tipper_id: 3, game_id: 7, team_id: Some(2) },
        ]
    );
    assert!(all_tipped(&Vec::new(), &picks));
    assert!(record_tips(3, &Vec::new(), &picks).unwrap().is_empty());
}
