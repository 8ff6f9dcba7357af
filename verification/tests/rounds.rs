use kelpie_tipping::date::Date;
use kelpie_tipping::error::ApiError;
use kelpie_tipping::game::Game;
use kelpie_tipping::round::NewRound;
use kelpie_tipping::round::Round;
use kelpie_tipping::rounds::add_round;
use kelpie_tipping::rounds::by_date;
use kelpie_tipping::rounds::delete_round;
use kelpie_tipping::rounds::delete_round_plan;
use kelpie_tipping::rounds::first_unknown_game;
use kelpie_tipping::rounds::game_not_found;
use kelpie_tipping::rounds::get_round;
use kelpie_tipping::rounds::insert_new_games;
use kelpie_tipping::rounds::last_round;
use kelpie_tipping::rounds::list;
use kelpie_tipping::rounds::reconcile_games;
use kelpie_tipping::rounds::round_insert;
use kelpie_tipping::rounds::round_update;
use kelpie_tipping::rounds::template_in_order;
use kelpie_tipping::rounds::template_round;
use kelpie_tipping::rounds::update_round;
use kelpie_tipping::store::Store;
use kelpie_tipping::store::Write;
use kelpie_tipping::team::Team;
use kelpie_tipping::tip::Tip;
use kelpie_tipping::tips::save_tips_for_round;

fn team(id: i32, nickname: &str) -> Team {
    Team {
        id: Some(id),
        name: format!("The {}", nickname),
        nickname: nickname.to_string(),
        can_delete: None,
    }
}

fn teams() -> Vec<Team> {
    (1..=8).map(|i| team(i, &format!("T{}", i))).collect()
}

fn day(n: i32) -> Date {
    Date::from_ymd(2025, 3, 1).unwrap().plus_days(n).unwrap()
}

fn game(id: Option<i32>, home: i32, away: i32, date: Date) -> Game {
    Game {
        game_id: id,
        round_id: None,
        home_team_id: home,
        away_team_id: away,
        game_date: date,
        home_team_score: None,
        away_team_score: None,
    }
}

fn round(id: Option<i32>, number: i32, first: i32) -> Round {
    Round {
        round_id: id,
        round_number: number,
        start_date: day(first),
        end_date: day(first + 6),
        bonus_points: 3,
    }
}

fn fields(g: &Game) -> (Option<i32>, Option<i32>, i32, i32, Date, Option<i32>, Option<i32>) {
    (
        g.game_id,
        g.round_id,
        g.home_team_id,
        g.away_team_id,
        g.game_date,
        g.home_team_score,
        g.away_team_score,
    )
}

/// A store with round 1 (games 1, 2, 3) and round 2 (game 4).
fn store_with_two_rounds() -> Store {
    let mut store = Store::new();
    let first = NewRound {
        round: round(None, 1, 0),
        games: vec![
            game(None, 1, 2, day(0)),
            game(None, 3, 4, day(1)),
            game(None, 5, 6, day(2)),
        ],
    };
    let second = NewRound { round: round(None, 2, 7), games: vec![game(None, 1, 3, day(8))] };
    assert_eq!(add_round(&mut store, &first, &teams()).unwrap().round_id, Some(1));
    assert_eq!(add_round(&mut store, &second, &teams()).unwrap().round_id, Some(2));
    assert!(store.keeps_rules());
    store
}

#[test]
fn create_round_stores_round_and_games() {
    let mut store = Store::new();
    let mut scored = game(None, 1, 2, day(0));
    scored.home_team_score = Some(10);
    scored.away_team_score = Some(5);
    scored.round_id = Some(77);
    let submitted = NewRound { round: round(None, 4, 0), games: vec![scored, game(None, 3, 4, day(6))] };
    let created = add_round(&mut store, &submitted, &teams()).unwrap();
    assert_eq!(created.round_id, Some(1));
    assert_eq!(created.round_number, 4);
    assert_eq!(created.start_date, day(0));
    assert_eq!(created.end_date, day(6));
    assert_eq!(created.bonus_points, 3);
    assert_eq!(store.rounds.len(), 1);
    assert_eq!(store.rounds[0].round_id, Some(1));
    assert_eq!(store.rounds[0].round_number, 4);
    assert_eq!(store.games.len(), 2);
    // scores are not taken over, and the round is the new one
    assert_eq!(fields(&store.games[0]), (Some(1), Some(1), 1, 2, day(0), None, None));
    assert_eq!(fields(&store.games[1]), (Some(2), Some(1), 3, 4, day(6), None, None));
    assert_eq!(store.next_round_id, 2);
    assert_eq!(store.next_game_id, 3);
}

#[test]
fn create_round_that_is_invalid_changes_nothing() {
    let mut store = store_with_two_rounds();
    let submitted = NewRound {
        round: round(None, 3, 14),
        games: vec![game(None, 1, 2, day(14)), game(None, 2, 3, day(15))],
    };
    match add_round(&mut store, &submitted, &teams()) {
        Err(ApiError::Invalid(text)) => {
            assert_eq!(text, "Team The T2 is used more than once in this round")
        },
        other => panic!("expected an invalid request, got {:?}", other),
    }
    assert_eq!(store.rounds.len(), 2);
    assert_eq!(store.games.len(), 4);
    assert_eq!(store.next_round_id, 3);
    assert_eq!(store.next_game_id, 5);
    let taken = NewRound { round: round(None, 2, 14), games: Vec::new() };
    assert!(matches!(add_round(&mut store, &taken, &teams()), Err(ApiError::Invalid(_))));
    assert_eq!(store.rounds.len(), 2);
}

#[test]
fn create_round_without_identities_left_changes_nothing() {
    let mut store = store_with_two_rounds();
    store.next_game_id = i32::MAX - 1;
    let submitted = NewRound {
        round: round(None, 3, 14),
        games: vec![game(None, 1, 2, day(14)), game(None, 3, 4, day(15))],
    };
    match add_round(&mut store, &submitted, &teams()) {
        Err(ApiError::Db(text)) => {
            assert_eq!(text, "the round of the game is not stored or no game identity is left")
        },
        other => panic!("expected a failure of the store, got {:?}", other),
    }
    assert_eq!(store.rounds.len(), 2);
    assert_eq!(store.games.len(), 4);
    assert_eq!(store.next_round_id, 3);
    assert_eq!(store.next_game_id, i32::MAX - 1);
    store.next_round_id = i32::MAX;
    let empty = NewRound { round: round(None, 3, 14), games: Vec::new() };
    match add_round(&mut store, &empty, &teams()) {
        Err(ApiError::Db(text)) => assert_eq!(text, "no round identity is left"),
        other => panic!("expected a failure of the store, got {:?}", other),
    }
}

#[test]
fn update_diff_correctness() {
    let mut store = store_with_two_rounds();
    let mut edited = game(Some(1), 7, 8, day(3));
    edited.home_team_score = Some(12);
    edited.away_team_score = Some(9);
    let submitted = NewRound {
        round: round(Some(1), 1, 0),
        games: vec![edited, game(None, 5, 6, day(4))],
    };
    assert!(update_round(&mut store, &submitted, &teams()).is_ok());
    let of_round = store.games_of_round(1);
    assert_eq!(of_round.len(), 2);
    assert_eq!(fields(&of_round[0]), (Some(1), Some(1), 7, 8, day(3), Some(12), Some(9)));
    assert_eq!(fields(&of_round[1]), (Some(5), Some(1), 5, 6, day(4), None, None));
    // games 2 and 3 are gone, the game of the other round is untouched
    let ids: Vec<Option<i32>> = store.games.iter().map(|g| g.game_id).collect();
    assert_eq!(ids, vec![Some(1), Some(4), Some(5)]);
    assert_eq!(fields(&store.games[1]), (Some(4), Some(2), 1, 3, day(8), None, None));
    assert_eq!(store.next_game_id, 6);
    assert!(store.keeps_rules());
}

#[test]
fn update_round_replaces_the_round_row() {
    let mut store = store_with_two_rounds();
    let submitted = NewRound {
        round: Round {
            round_id: Some(2),
            round_number: 5,
            start_date: day(8),
            end_date: day(9),
            bonus_points: 10,
        },
        games: vec![game(Some(4), 1, 3, day(9))],
    };
    assert!(update_round(&mut store, &submitted, &teams()).is_ok());
    assert_eq!(store.rounds.len(), 2);
    assert_eq!(store.rounds[0].round_number, 1);
    assert_eq!(store.rounds[1].round_id, Some(2));
    assert_eq!(store.rounds[1].round_number, 5);
    assert_eq!(store.rounds[1].start_date, day(8));
    assert_eq!(store.rounds[1].end_date, day(9));
    assert_eq!(store.rounds[1].bonus_points, 10);
    assert_eq!(fields(&store.games[3]), (Some(4), Some(2), 1, 3, day(9), None, None));
}

#[test]
fn update_round_takes_the_last_of_two_games_with_one_identity() {
    let mut store = store_with_two_rounds();
    let submitted = NewRound {
        round: round(Some(2), 2, 7),
        games: vec![game(Some(4), 1, 2, day(7)), game(Some(4), 3, 4, day(8))],
    };
    assert!(update_round(&mut store, &submitted, &teams()).is_ok());
    assert_eq!(store.games_of_round(2).len(), 1);
    assert_eq!(fields(&store.games_of_round(2)[0]), (Some(4), Some(2), 3, 4, day(8), None, None));
}

#[test]
fn update_round_does_not_find_a_game_of_another_round() {
    let mut store = store_with_two_rounds();
    // game 4 belongs to round 2
    let submitted = NewRound {
        round: round(Some(1), 5, 0),
        games: vec![game(Some(1), 7, 8, day(0)), game(Some(4), 3, 4, day(1)), game(None, 5, 6, day(2))],
    };
    match update_round(&mut store, &submitted, &teams()) {
        Err(ApiError::NotFound(text)) => assert_eq!(text, "Game with ID 4 not found"),
        other => panic!("expected not found, got {:?}", other),
    }
    // nothing is written: not the round, not the game before, not the new game
    assert_eq!(store.rounds[0].round_number, 1);
    let ids: Vec<Option<i32>> = store.games.iter().map(|g| g.game_id).collect();
    assert_eq!(ids, vec![Some(1), Some(2), Some(3), Some(4)]);
    assert_eq!(fields(&store.games[0]), (Some(1), Some(1), 1, 2, day(0), None, None));
    assert_eq!(fields(&store.games[3]), (Some(4), Some(2), 1, 3, day(8), None, None));
    assert_eq!(store.next_game_id, 5);
    assert!(store.keeps_rules());
}

#[test]
fn update_round_does_not_find_a_game_that_is_not_stored() {
    let mut store = store_with_two_rounds();
    let submitted = NewRound {
        round: round(Some(1), 1, 0),
        games: vec![
            game(Some(1), 1, 2, day(0)),
            game(Some(99), 5, 6, day(2)),
            game(Some(-7), 3, 4, day(3)),
        ],
    };
    match update_round(&mut store, &submitted, &teams()) {
        Err(ApiError::NotFound(text)) => assert_eq!(text, "Game with ID 99 not found"),
        other => panic!("expected not found, got {:?}", other),
    }
    assert_eq!(store.games.len(), 4);
    assert_eq!(store.next_game_id, 5);
    // validation comes first, a round that is not stored second
    let invalid = NewRound {
        round: round(Some(1), 1, 0),
        games: vec![game(Some(99), 1, 2, day(0)), game(None, 2, 3, day(1))],
    };
    assert!(matches!(update_round(&mut store, &invalid, &teams()), Err(ApiError::Invalid(_))));
    let no_round = NewRound { round: round(Some(9), 9, 0), games: vec![game(Some(99), 1, 2, day(0))] };
    match update_round(&mut store, &no_round, &teams()) {
        Err(ApiError::NotFound(text)) => assert_eq!(text, "Round with ID 9 not found"),
        other => panic!("expected not found, got {:?}", other),
    }
}

#[test]
fn update_round_ends_with_as_many_games_as_were_submitted() {
    let mut store = store_with_two_rounds();
    let submitted = NewRound {
        round: round(Some(1), 1, 0),
        games: vec![
            game(None, 7, 8, day(4)),
            game(Some(3), 5, 6, day(2)),
            game(None, 1, 2, day(5)),
            game(Some(1), 3, 4, day(0)),
        ],
    };
    assert!(update_round(&mut store, &submitted, &teams()).is_ok());
    let after = store.games_of_round(1);
    assert_eq!(after.len(), 4);
    let mut ids: Vec<i32> = after.iter().map(|g| g.game_id.unwrap()).collect();
    ids.sort();
    assert_eq!(ids, vec![1, 3, 5, 6]);
    assert_eq!(fields(&after[0]), (Some(1), Some(1), 3, 4, day(0), None, None));
    assert_eq!(fields(&after[1]), (Some(3), Some(1), 5, 6, day(2), None, None));
    assert_eq!(fields(&after[2]), (Some(5), Some(1), 7, 8, day(4), None, None));
    assert_eq!(fields(&after[3]), (Some(6), Some(1), 1, 2, day(5), None, None));
    assert_eq!(store.rounds[0].round_id, Some(1));
    assert!(store.keeps_rules());
}

#[test]
fn update_round_failures_change_nothing() {
    let mut store = store_with_two_rounds();
    let without_id = NewRound { round: round(None, 1, 0), games: Vec::new() };
    match update_round(&mut store, &without_id, &teams()) {
        Err(ApiError::Error(text)) => assert_eq!(text, "No round id, can't update"),
        other => panic!("expected an error, got {:?}", other),
    }
    let unknown = NewRound { round: round(Some(9), 9, 0), games: Vec::new() };
    match update_round(&mut store, &unknown, &teams()) {
        Err(ApiError::NotFound(text)) => assert_eq!(text, "Round with ID 9 not found"),
        other => panic!("expected not found, got {:?}", other),
    }
    let number_taken = NewRound { round: round(Some(1), 2, 0), games: Vec::new() };
    match update_round(&mut store, &number_taken, &teams()) {
        Err(ApiError::Invalid(text)) => assert_eq!(text, "Round number already exists"),
        other => panic!("expected an invalid request, got {:?}", other),
    }
    let outside = NewRound {
        round: round(Some(1), 1, 0),
        games: vec![game(Some(1), 1, 2, day(7))],
    };
    assert!(matches!(update_round(&mut store, &outside, &teams()), Err(ApiError::Invalid(_))));
    assert_eq!(store.rounds.len(), 2);
    assert_eq!(store.games.len(), 4);
    assert_eq!(fields(&store.games[0]), (Some(1), Some(1), 1, 2, day(0), None, None));
    assert_eq!(store.next_game_id, 5);
}

#[test]
fn update_round_that_would_orphan_tips_changes_nothing() {
    let mut store = store_with_two_rounds();
    let tips = vec![Tip { tipper_id: 1, game_id: 2, team_id: Some(3) }];
    assert!(save_tips_for_round(&mut store, &tips).is_ok());
    let submitted = NewRound {
        round: round(Some(1), 1, 0),
        games: vec![game(Some(1), 7, 8, day(0)), game(None, 1, 2, day(1))],
    };
    match update_round(&mut store, &submitted, &teams()) {
        Err(ApiError::Db(text)) => assert_eq!(text, "the game still has tips"),
        other => panic!("expected a failure of the store, got {:?}", other),
    }
    assert_eq!(store.games.len(), 4);
    assert_eq!(fields(&store.games[0]), (Some(1), Some(1), 1, 2, day(0), None, None));
    assert_eq!(store.next_game_id, 5);
    assert_eq!(store.tips.len(), 1);
}

#[test]
fn round_delete_cascade() {
    let mut store = store_with_two_rounds();
    let tips = vec![
        Tip { tipper_id: 1, game_id: 1, team_id: Some(1) },
        Tip { tipper_id: 1, game_id: 4, team_id: Some(3) },
        Tip { tipper_id: 2, game_id: 3, team_id: None },
        Tip { tipper_id: 2, game_id: 4, team_id: Some(1) },
    ];
    assert!(save_tips_for_round(&mut store, &tips).is_ok());
    assert!(delete_round(&mut store, 1).is_ok());
    assert_eq!(store.rounds.len(), 1);
    assert_eq!(store.rounds[0].round_id, Some(2));
    assert!(!store.has_round(1));
    assert!(!store.round_has_games(1));
    assert!(!store.round_has_tips(1));
    assert!(store.games_of_round(1).is_empty());
    assert_eq!(store.games.len(), 1);
    assert_eq!(store.games[0].game_id, Some(4));
    assert_eq!(
        store.tips,
        vec![
            Tip { tipper_id: 1, game_id: 4, team_id: Some(3) },
            Tip { tipper_id: 2, game_id: 4, team_id: Some(1) },
        ]
    );
    assert!(store.keeps_rules());
    match delete_round(&mut store, 1) {
        Err(ApiError::NotFound(text)) => assert_eq!(text, "Round with ID 1 not found"),
        other => panic!("expected not found, got {:?}", other),
    }
    assert_eq!(store.rounds.len(), 1);
}

#[test]
fn store_refuses_to_remove_what_is_referred_to() {
    let mut store = store_with_two_rounds();
    let tips = vec![Tip { tipper_id: 1, game_id: 1, team_id: Some(1) }];
    assert!(save_tips_for_round(&mut store, &tips).is_ok());
    assert!(!store.accepts(&Write::DeleteRound { round_id: 1 }));
    assert!(!store.accepts(&Write::DeleteGamesOfRound { round_id: 1 }));
    assert!(!store.accepts(&Write::DeleteGame { game_id: 1 }));
    assert!(store.accepts(&Write::DeleteGame { game_id: 2 }));
    assert!(store.accepts(&Write::DeleteGamesOfRound { round_id: 2 }));
    match store.apply(&Write::DeleteRound { round_id: 1 }) {
        Err(ApiError::Db(text)) => assert_eq!(text, "the round still has games"),
        other => panic!("expected a failure of the store, got {:?}", other),
    }
    match store.apply(&Write::DeleteGamesOfRound { round_id: 1 }) {
        Err(ApiError::Db(text)) => assert_eq!(text, "a game of the round still has tips"),
        other => panic!("expected a failure of the store, got {:?}", other),
    }
    // in the wrong order the transaction fails and nothing is removed
    let wrong = vec![Write::DeleteRound { round_id: 1 }, Write::DeleteTipsOfRound { round_id: 1 }];
    assert!(store.run(&wrong).is_err());
    assert_eq!(store.rounds.len(), 2);
    assert_eq!(store.tips.len(), 1);
    let half = vec![Write::DeleteTipsOfRound { round_id: 1 }, Write::DeleteRound { round_id: 1 }];
    assert!(store.run(&half).is_err());
    assert_eq!(store.tips.len(), 1);
    assert!(store.run(&delete_round_plan(1)).is_ok());
    assert_eq!(store.rounds.len(), 1);
    assert!(store.tips.is_empty());
    let missing_round = Write::InsertGame {
        round_id: 1,
        home_team_id: 1,
        away_team_id: 2,
        game_date: day(0),
        home_team_score: None,
        away_team_score: None,
    };
    assert!(store.apply(&missing_round).is_err());
}

#[test]
fn reconciliation_writes() {
    let persisted = vec![
        Game { round_id: Some(1), ..game(Some(1), 1, 2, day(0)) },
        Game { round_id: Some(1), ..game(Some(2), 3, 4, day(1)) },
        Game { round_id: Some(1), ..game(Some(3), 5, 6, day(2)) },
    ];
    let mut edited = game(Some(1), 7, 8, day(3));
    edited.home_team_score = Some(2);
    edited.away_team_score = Some(1);
    let submitted = vec![edited, game(None, 5, 6, day(4))];
    assert_eq!(first_unknown_game(&submitted, &persisted), None);
    let writes = reconcile_games(1, &submitted, &persisted).unwrap();
    assert_eq!(writes.len(), 4);
    assert!(matches!(
        writes[0],
        Write::UpdateGame {
            game_id: 1,
            home_team_id: 7,
            away_team_id: 8,
            home_team_score: Some(2),
            away_team_score: Some(1),
            ..
        }
    ));
    assert!(matches!(
        writes[1],
        Write::InsertGame {
            round_id: 1,
            home_team_id: 5,
            away_team_id: 6,
            home_team_score: None,
            away_team_score: None,
            ..
        }
    ));
    assert!(matches!(writes[2], Write::DeleteGame { game_id: 2 }));
    assert!(matches!(writes[3], Write::DeleteGame { game_id: 3 }));
    assert!(reconcile_games(1, &Vec::new(), &Vec::new()).unwrap().is_empty());
    assert_eq!(reconcile_games(1, &Vec::new(), &persisted).unwrap().len(), 3);
}

#[test]
fn reconciliation_refuses_an_unknown_game() {
    let persisted = vec![
        Game { round_id: Some(1), ..game(Some(1), 1, 2, day(0)) },
        Game { round_id: Some(1), ..game(Some(2), 3, 4, day(1)) },
    ];
    let submitted = vec![
        game(Some(2), 1, 2, day(0)),
        game(None, 3, 4, day(1)),
        game(Some(50), 5, 6, day(2)),
        game(Some(60), 7, 8, day(3)),
        game(Some(1), 1, 2, day(4)),
    ];
    assert_eq!(first_unknown_game(&submitted, &persisted), Some(50));
    match reconcile_games(1, &submitted, &persisted) {
        Err(ApiError::NotFound(text)) => assert_eq!(text, "Game with ID 50 not found"),
        other => panic!("expected not found, got {:?}", other),
    }
    assert_eq!(first_unknown_game(&submitted, &Vec::new()), Some(2));
    assert_eq!(first_unknown_game(&Vec::new(), &persisted), None);
    assert_eq!(first_unknown_game(&vec![game(None, 1, 2, day(0))], &Vec::new()), None);
    match game_not_found(-3) {
        ApiError::NotFound(text) => assert_eq!(text, "Game with ID -3 not found"),
        other => panic!("expected not found, got {:?}", other),
    }
}

#[test]
fn writes_of_creation_and_deletion() {
    let r = round(None, 3, 0);
    assert!(matches!(
        round_insert(&r),
        Write::InsertRound { round_number: 3, bonus_points: 3, .. }
    ));
    assert!(matches!(
        round_update(4, &r),
        Write::UpdateRound { round_id: 4, round_number: 3, bonus_points: 3, .. }
    ));
    let mut scored = game(Some(9), 1, 2, day(0));
    scored.home_team_score = Some(1);
    scored.away_team_score = Some(0);
    let writes = insert_new_games(6, &vec![scored]);
    assert_eq!(writes.len(), 1);
    assert!(matches!(
        writes[0],
        Write::InsertGame {
            round_id: 6,
            home_team_id: 1,
            away_team_id: 2,
            home_team_score: None,
            away_team_score: None,
            ..
        }
    ));
    let plan = delete_round_plan(6);
    assert_eq!(plan.len(), 3);
    assert!(matches!(plan[0], Write::DeleteTipsOfRound { round_id: 6 }));
    assert!(matches!(plan[1], Write::DeleteGamesOfRound { round_id: 6 }));
    assert!(matches!(plan[2], Write::DeleteRound { round_id: 6 }));
}

#[test]
fn template_follows_the_last_round() {
    let last = Round {
        round_id: Some(3),
        round_number: 7,
        start_date: day(0),
        end_date: day(2),
        bonus_points: 4,
    };
    let order = vec![4, 1, 3, 2, 5];
    let template = template_in_order(Some(last), &order);
    assert!(template.round.round_id.is_none());
    assert_eq!(template.round.round_number, 8);
    assert_eq!(template.round.start_date, day(7));
    assert_eq!(template.round.end_date, day(9));
    assert_eq!(template.round.bonus_points, 4);
    assert_eq!(template.games.len(), 2);
    assert_eq!(fields(&template.games[0]), (None, None, 4, 1, day(7), None, None));
    assert_eq!(fields(&template.games[1]), (None, None, 3, 2, day(8), None, None));
    let random = template_round(Some(last), &teams());
    assert_eq!(random.round.round_number, 8);
    assert_eq!(random.games.len(), 4);
    let mut ids: Vec<i32> = Vec::new();
    for g in &random.games {
        assert!(g.game_id.is_none() && g.round_id.is_none());
        assert!(day(7) <= g.game_date && g.game_date <= day(9));
        ids.push(g.home_team_id);
        ids.push(g.away_team_id);
    }
    ids.sort();
    assert_eq!(ids, (1..=8).collect::<Vec<i32>>());
}

#[test]
fn template_without_rounds_is_the_default() {
    let template = template_round(None, &teams());
    assert!(template.round.round_id.is_none());
    assert_eq!(template.round.round_number, 0);
    assert_eq!(template.round.start_date, Date::default());
    assert_eq!(template.round.end_date, Date::default());
    assert_eq!(template.round.bonus_points, 0);
    assert!(template.games.is_empty());
    let default = NewRound::default();
    assert_eq!(default.round.round_number, 0);
    assert!(default.games.is_empty());
}

#[test]
fn last_round_is_the_one_with_the_highest_number() {
    assert!(last_round(&Vec::new()).is_none());
    let rounds = vec![round(Some(1), 4, 0), round(Some(2), 9, 7), round(Some(3), 2, 14)];
    assert_eq!(last_round(&rounds).unwrap().round_id, Some(2));
    let store = store_with_two_rounds();
    assert_eq!(last_round(&store.rounds).unwrap().round_number, 2);
}

#[test]
fn get_round_gives_the_games_by_date() {
    let mut store = Store::new();
    let submitted = NewRound {
        round: round(None, 1, 0),
        games: vec![
            game(None, 1, 2, day(5)),
            game(None, 3, 4, day(0)),
            game(None, 5, 6, day(5)),
            game(None, 7, 8, day(2)),
        ],
    };
    assert!(add_round(&mut store, &submitted, &teams()).is_ok());
    let found = get_round(&store, 1).unwrap();
    assert_eq!(found.round.round_id, Some(1));
    assert_eq!(found.round.round_number, 1);
    let ids: Vec<Option<i32>> = found.games.iter().map(|g| g.game_id).collect();
    assert_eq!(ids, vec![Some(2), Some(4), Some(1), Some(3)]);
    match get_round(&store, 12) {
        Err(ApiError::NotFound(text)) => assert_eq!(text, "Round with ID 12 not found"),
        other => panic!("expected not found, got {:?}", other.map(|r| r.round)),
    }
    assert!(by_date(&Vec::new()).is_empty());
}

#[test]
fn list_gives_the_rounds_by_number() {
    let mut store = Store::new();
    for (number, first) in [(3, 14), (1, 0), (2, 7)] {
        let submitted = NewRound { round: round(None, number, first), games: Vec::new() };
        assert!(add_round(&mut store, &submitted, &teams()).is_ok());
    }
    let numbers: Vec<i32> = list(&store).iter().map(|r| r.round_number).collect();
    assert_eq!(numbers, vec![1, 2, 3]);
    let ids: Vec<Option<i32>> = list(&store).iter().map(|r| r.round_id).collect();
    assert_eq!(ids, vec![Some(2), Some(3), Some(1)]);
}

#[test]
fn the_rules_of_the_tables_are_checked() {
    assert!(Store::new().keeps_rules());
    let sound = store_with_two_rounds();
    assert!(sound.keeps_rules());
    // two rounds with one number
    let mut store = sound.clone();
    store.rounds[1].round_number = 1;
    assert!(!store.keeps_rules());
    // a round that ends before it starts
    let mut store = sound.clone();
    store.rounds[0].end_date = day(-1);
    assert!(!store.keeps_rules());
    // a round number that is not positive
    let mut store = sound.clone();
    store.rounds[0].round_number = 0;
    assert!(!store.keeps_rules());
    // a game outside its round
    let mut store = sound.clone();
    store.games[0].game_date = day(7);
    assert!(!store.keeps_rules());
    // a team twice in a round
    let mut store = sound.clone();
    store.games[1].away_team_id = 1;
    assert!(!store.keeps_rules());
    // the same team in two rounds is fine
    assert_eq!(sound.games[0].home_team_id, sound.games[3].home_team_id);
    // a team against itself
    let mut store = sound.clone();
    store.games[3].away_team_id = 1;
    assert!(!store.keeps_rules());
    // a game of a round that is not stored
    let mut store = sound.clone();
    store.games[3].round_id = Some(9);
    assert!(!store.keeps_rules());
    // two games with one identity
    let mut store = sound.clone();
    store.games[3].game_id = Some(1);
    assert!(!store.keeps_rules());
    // an identity that was never given out
    let mut store = sound.clone();
    store.next_game_id = 4;
    assert!(!store.keeps_rules());
    // a tip for a game that is not stored, and two tips for one game
    let mut store = sound.clone();
    store.tips.push(Tip { tipper_id: 1, game_id: 9, team_id: None });
    assert!(!store.keeps_rules());
    let mut store = sound.clone();
    store.tips.push(Tip { tipper_id: 1, game_id: 1, team_id: None });
    assert!(store.keeps_rules());
    store.tips.push(Tip { tipper_id: 1, game_id: 1, team_id: Some(1) });
    assert!(!store.keeps_rules());
}

/// A small generator of numbers that looks random and always gives the same
/// numbers.
struct Numbers(u64);

impl Numbers {
    fn next(&mut self, below: u64) -> u64 {
        self.0 = self.0.wrapping_mul(6364136223846793005).wrapping_add(1442695040888963407);
        (self.0 >> 33) % below
    }
}

#[test]
fn any_run_of_operations_keeps_the_rules() {
    let mut numbers = Numbers(2025);
    let mut store = Store::new();
    let mut accepted = 0;
    let mut refused = 0;
    for step in 0..400 {
        let before = store.clone();
        let number = 1 + numbers.next(6) as i32;
        let first = 7 * numbers.next(4) as i32;
        let count = numbers.next(4) as usize;
        let stored_ids: Vec<Option<i32>> = store.games.iter().map(|g| g.game_id).collect();
        let mut games = Vec::new();
        for _ in 0..count {
            let id = if !stored_ids.is_empty() && numbers.next(2) == 0 {
                stored_ids[numbers.next(stored_ids.len() as u64) as usize]
            } else {
                None
            };
            let home = 1 + numbers.next(8) as i32;
            let away = 1 + numbers.next(8) as i32;
            let date = day(first + numbers.next(8) as i32 - 1);
            let mut g = game(id, home, away, date);
            if numbers.next(2) == 0 {
                g.home_team_score = Some(numbers.next(5) as i32);
                g.away_team_score = Some(numbers.next(5) as i32);
            }
            games.push(g);
        }
        let outcome = match numbers.next(4) {
            0 => {
                let submitted = NewRound { round: round(None, number, first), games };
                add_round(&mut store, &submitted, &teams()).map(|_| ())
            },
            1 | 2 => {
                let id = 1 + numbers.next(store.next_round_id as u64 + 1) as i32;
                let submitted = NewRound { round: round(Some(id), number, first), games };
                let persisted = store.games_of_round(id);
                let outcome = update_round(&mut store, &submitted, &teams());
                if outcome.is_ok() {
                    // what is stored for the round is what was submitted for it
                    let after = store.games_of_round(id);
                    let named = submitted
                        .games
                        .iter()
                        .filter(|s| s.game_id.is_some() && persisted.iter().any(|p| p.game_id == s.game_id))
                        .count();
                    let new = submitted.games.iter().filter(|s| s.game_id.is_none()).count();
                    assert!(after.len() <= named + new);
                    for g in &after {
                        assert!(submitted.games.iter().any(|s| {
                            (s.game_id.is_none() || s.game_id == g.game_id)
                                && s.home_team_id == g.home_team_id
                                && s.away_team_id == g.away_team_id
                                && s.game_date == g.game_date
                                && s.home_team_score == g.home_team_score
                                && s.away_team_score == g.away_team_score
                        }));
                    }
                    for p in &persisted {
                        let named = submitted.games.iter().any(|s| s.game_id == p.game_id);
                        assert_eq!(after.iter().any(|g| g.game_id == p.game_id), named);
                    }
                }
                outcome
            },
            _ => {
                let id = 1 + numbers.next(store.next_round_id as u64 + 1) as i32;
                let outcome = delete_round(&mut store, id);
                if outcome.is_ok() {
                    assert!(!store.has_round(id));
                    assert!(!store.round_has_games(id));
                }
                outcome
            },
        };
        match outcome {
            Ok(()) => accepted += 1,
            Err(_) => {
                refused += 1;
                // a refused operation changes nothing
                assert_eq!(store.rounds.len(), before.rounds.len());
                assert_eq!(store.games.len(), before.games.len());
                assert_eq!(store.tips, before.tips);
                assert_eq!(store.next_round_id, before.next_round_id);
                assert_eq!(store.next_game_id, before.next_game_id);
                for (g, h) in store.games.iter().zip(&before.games) {
                    assert_eq!(fields(g), fields(h));
                }
            },
        }
        assert!(store.keeps_rules(), "after step {}", step);
        // now and then a tip for a stored game
        if !store.games.is_empty() && numbers.next(3) == 0 {
            let g = &store.games[numbers.next(store.games.len() as u64) as usize];
            let tip = Tip {
                tipper_id: 1 + numbers.next(3) as i32,
                game_id: g.game_id.unwrap(),
                team_id: Some(g.home_team_id),
            };
            assert!(save_tips_for_round(&mut store, &vec![tip]).is_ok());
            assert!(store.keeps_rules());
        }
    }
    assert!(accepted > 20);
    assert!(refused > 20);
}
