use kelpie_tipping::allocator::allocate_games;
use kelpie_tipping::allocator::allocate_in_order;
use kelpie_tipping::allocator::team_ids;
use kelpie_tipping::date::Date;
use kelpie_tipping::game::Game;
use kelpie_tipping::quota::quota_of_day;
use kelpie_tipping::team::Team;

fn team(id: i32) -> Team {
    Team { id: Some(id), name: format!("Team {}", id), nickname: format!("T{}", id), can_delete: None }
}

fn roster(n: i32) -> Vec<Team> {
    (1..=n).map(team).collect()
}

fn day(n: i32) -> Date {
    Date::from_ymd(2025, 3, 1).unwrap().plus_days(n).unwrap()
}

fn games_per_day(games: &Vec<Game>, start: Date, days: i32) -> Vec<usize> {
    (0..days)
        .map(|i| games.iter().filter(|g| g.game_date == start.plus_days(i).unwrap()).count())
        .collect()
}

#[test]
fn allocator_coverage() {
    for n in 0..24 {
        for d in 1..12 {
            let teams = roster(n);
            let start = day(0);
            let end = day(d - 1);
            let games = allocate_games(9, &teams, start, end);
            assert_eq!(games.len(), (n / 2) as usize);
            let mut seen: Vec<i32> = Vec::new();
            for g in &games {
                assert!(start <= g.game_date && g.game_date <= end);
                assert!(g.game_id.is_none());
                assert_eq!(g.round_id, Some(9));
                assert!(g.home_team_score.is_none() && g.away_team_score.is_none());
                for id in [g.home_team_id, g.away_team_id] {
                    assert!(1 <= id && id <= n);
                    assert!(!seen.contains(&id));
                    seen.push(id);
                }
            }
        }
    }
}

#[test]
fn allocator_day_balance() {
    for n in 0..24 {
        for d in 1..12 {
            let games = allocate_games(1, &roster(n), day(0), day(d - 1));
            let counts = games_per_day(&games, day(0), d);
            let most = *counts.iter().max().unwrap();
            let least = *counts.iter().min().unwrap();
            assert!(most - least <= 1);
            assert_eq!(counts.iter().sum::<usize>(), (n / 2) as usize);
            for i in 0..d {
                assert_eq!(counts[i as usize], quota_of_day(i as usize, (n / 2) as usize, d as usize));
            }
        }
    }
}

#[test]
fn allocator_with_too_few_teams_gives_no_games() {
    assert!(allocate_games(1, &roster(0), day(0), day(6)).is_empty());
    assert!(allocate_games(1, &roster(1), day(0), day(6)).is_empty());
    assert_eq!(allocate_games(1, &roster(2), day(0), day(6)).len(), 1);
}

#[test]
fn allocator_drops_the_team_left_over() {
    let order = vec![7, 3, 9, 4, 1];
    let games = allocate_in_order(5, &order, day(0), day(2));
    assert_eq!(games.len(), 2);
    assert_eq!((games[0].home_team_id, games[0].away_team_id), (7, 3));
    assert_eq!((games[1].home_team_id, games[1].away_team_id), (9, 4));
    assert_eq!(games[0].game_date, day(0));
    assert_eq!(games[1].game_date, day(1));
    assert_eq!(games[0].round_id, Some(5));
}

#[test]
fn allocator_puts_games_left_over_in_the_middle() {
    // 9 pairs over 7 days: one each, and one more on the middle day (index 3)
    // and the day before it.
    let order: Vec<i32> = (1..=18).collect();
    let games = allocate_in_order(1, &order, day(0), day(6));
    assert_eq!(games_per_day(&games, day(0), 7), vec![1, 1, 2, 2, 1, 1, 1]);
    // 3 pairs over 7 days: the middle day, the day before it, the day after it.
    let order: Vec<i32> = (1..=6).collect();
    let games = allocate_in_order(1, &order, day(0), day(6));
    assert_eq!(games_per_day(&games, day(0), 7), vec![0, 0, 1, 1, 1, 0, 0]);
    // 1 pair over 4 days: the middle day is the third.
    let games = allocate_in_order(1, &vec![1, 2], day(0), day(3));
    assert_eq!(games_per_day(&games, day(0), 4), vec![0, 0, 1, 0]);
}

#[test]
fn allocator_fills_days_in_order_of_the_pairs() {
    let order: Vec<i32> = (1..=10).collect();
    let games = allocate_in_order(2, &order, day(0), day(1));
    // 5 pairs over 2 days: two each, the middle day (index 1) gets the fifth.
    assert_eq!(games_per_day(&games, day(0), 2), vec![2, 3]);
    for k in 0..5 {
        assert_eq!(games[k].home_team_id, order[2 * k]);
        assert_eq!(games[k].away_team_id, order[2 * k + 1]);
        assert_eq!(games[k].game_date, if k < 2 { day(0) } else { day(1) });
    }
}

#[test]
fn allocator_on_a_single_day() {
    let order: Vec<i32> = (1..=8).collect();
    let games = allocate_in_order(1, &order, day(4), day(4));
    assert_eq!(games.len(), 4);
    assert!(games.iter().all(|g| g.game_date == day(4)));
}

#[test]
fn quota_of_day_examples() {
    assert_eq!(quota_of_day(0, 2, 3), 1);
    assert_eq!(quota_of_day(1, 2, 3), 1);
    assert_eq!(quota_of_day(2, 2, 3), 0);
    assert_eq!(quota_of_day(0, 0, 1), 0);
    assert_eq!(quota_of_day(0, 5, 1), 5);
    let quotas: Vec<usize> = (0..5).map(|i| quota_of_day(i, 13, 5)).collect();
    assert_eq!(quotas, vec![2, 3, 3, 3, 2]);
}

#[test]
fn allocator_shuffles_the_roster() {
    let teams = roster(40);
    let listed = team_ids(&teams);
    assert_eq!(listed, (1..=40).collect::<Vec<i32>>());
    let mut moved = false;
    for _ in 0..20 {
        let games = allocate_games(1, &teams, day(0), day(6));
        let mut order: Vec<i32> = Vec::new();
        for g in &games {
            order.push(g.home_team_id);
            order.push(g.away_team_id);
        }
        let mut sorted = order.clone();
        sorted.sort();
        assert_eq!(sorted, listed);
        if order != listed {
            moved = true;
        }
    }
    assert!(moved);
}
