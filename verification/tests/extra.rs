use kelpie_tipping::date::Date;
use kelpie_tipping::extra::add_extra_game;
use kelpie_tipping::extra::extra_game;
use kelpie_tipping::extra::is_scheduled;
use kelpie_tipping::extra::list_open_pairs;
use kelpie_tipping::game::Game;
use kelpie_tipping::team::Team;

fn team(id: i32) -> Team {
    Team { id: Some(id), name: format!("Team {}", id), nickname: format!("T{}", id), can_delete: None }
}

fn day(n: i32) -> Date {
    Date::from_ymd(2025, 3, 1).unwrap().plus_days(n).unwrap()
}

fn game(home: i32, away: i32) -> Game {
    Game {
        game_id: None,
        round_id: Some(1),
        home_team_id: home,
        away_team_id: away,
        game_date: day(0),
        home_team_score: None,
        away_team_score: None,
    }
}

#[test]
fn extra_game_is_a_pair_not_yet_scheduled() {
    let teams: Vec<Team> = (1..=5).map(team).collect();
    let existing = vec![game(1, 2), game(4, 3)];
    for _ in 0..50 {
        let g = add_extra_game(1, &teams, day(0), day(6), &existing).unwrap();
        assert!(1 <= g.home_team_id && g.home_team_id <= 5);
        assert!(1 <= g.away_team_id && g.away_team_id <= 5);
        assert_ne!(g.home_team_id, g.away_team_id);
        assert!(!is_scheduled(&existing, g.home_team_id, g.away_team_id));
        assert!(!is_scheduled(&existing, g.away_team_id, g.home_team_id));
        assert_eq!(g.game_date, day(3));
        assert_eq!(g.round_id, Some(1));
        assert!(g.game_id.is_none());
        assert!(g.home_team_score.is_none() && g.away_team_score.is_none());
    }
    assert_eq!(existing.len(), 2);
}

#[test]
fn extra_game_when_every_pair_is_scheduled() {
    let teams: Vec<Team> = (1..=3).map(team).collect();
    let existing = vec![game(1, 2), game(3, 1), game(2, 3)];
    assert!(add_extra_game(1, &teams, day(0), day(6), &existing).is_none());
    assert_eq!(existing.len(), 3);
    assert_eq!((existing[1].home_team_id, existing[1].away_team_id), (3, 1));
    let one: Vec<Team> = vec![team(1)];
    assert!(add_extra_game(1, &one, day(0), day(6), &Vec::new()).is_none());
}

#[test]
fn extra_game_finds_the_only_open_pair() {
    let teams: Vec<Team> = (1..=3).map(team).collect();
    let existing = vec![game(1, 2), game(3, 1)];
    let g = add_extra_game(7, &teams, day(0), day(1), &existing).unwrap();
    assert_eq!((g.home_team_id, g.away_team_id), (2, 3));
    assert_eq!(g.game_date, day(1));
    assert_eq!(g.round_id, Some(7));
}

#[test]
fn open_pairs_are_listed_in_roster_order() {
    let roster = vec![1, 2, 3, 4];
    let existing = vec![game(2, 1), game(3, 4)];
    assert_eq!(list_open_pairs(&roster, &existing), vec![(1, 3), (1, 4), (2, 3), (2, 4)]);
    assert_eq!(
        list_open_pairs(&roster, &Vec::new()),
        vec![(1, 2), (1, 3), (1, 4), (2, 3), (2, 4), (3, 4)]
    );
    assert!(list_open_pairs(&vec![1], &Vec::new()).is_empty());
}

#[test]
fn extra_game_for_a_picked_pair() {
    let g = extra_game(3, Some((8, 5)), day(0), day(6)).unwrap();
    assert_eq!((g.home_team_id, g.away_team_id), (8, 5));
    assert_eq!(g.game_date, day(3));
    let g = extra_game(3, Some((8, 5)), day(2), day(2)).unwrap();
    assert_eq!(g.game_date, day(2));
    assert!(extra_game(3, None, day(0), day(6)).is_none());
}
