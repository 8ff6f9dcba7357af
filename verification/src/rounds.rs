//! The round synchronisation engine: what is written to create a round with
//! its games, to replace a stored round and its games by a submitted
//! definition, and to delete a round.

use crate::allocator::all_stored;
use crate::allocator::allocate_in_order;
use crate::allocator::is_fixture_of_pair;
use crate::allocator::roster_ids;
use crate::allocator::team_ids;
use crate::cascade::lemma_delete_round_cascade;
use crate::cascade::without_round;
use crate::date::is_day_number;
use crate::date::Date;
use crate::date::EPOCH_DAY_NUMBER;
use crate::date::MAX_DAY_NUMBER;
use crate::diff::carried_once;
use crate::diff::lemma_update_diff;
use crate::error::ApiError;
use crate::error::ApiErrorView;
use crate::game::Game;
use crate::http::Endpoint;
use crate::http::Method;
use crate::http::Route;
use crate::integrity::create_writes;
use crate::integrity::created;
use crate::integrity::created_round;
use crate::integrity::creation_is_admitted;
use crate::integrity::lemma_create_effect;
use crate::integrity::lemma_created_keeps_rules;
use crate::integrity::lemma_update_admission;
use crate::integrity::lemma_update_effect;
use crate::integrity::lemma_updated_keeps_rules;
use crate::integrity::update_writes;
use crate::integrity::updated;
use crate::random::shuffle;
use crate::reconcile::lemma_admitted_has_identities;
use crate::reconcile::reconcile_is_admitted;
use crate::round::NewRound;
use crate::round::Round;
use crate::scoring::arrange;
use crate::scoring::is_arranged;
use crate::seqs::lemma_filter_push;
use crate::store::refusal_text;
use crate::store::Store;
use crate::store::Tables;
use crate::store::Write;
use crate::team::Team;
use crate::text::decimal;
use crate::text::decimal_text;
use crate::validation::existing_round_violation;
use crate::validation::new_round_violation;
use crate::validation::validate_existing;
use crate::validation::validate_new;
use crate::validation::violation_text;
use rand::thread_rng;
use std::collections::HashSet;
use vstd::prelude::*;
use vstd::std_specs::hash::group_hash_axioms;

verus! {

/// The routes of the round operations.
pub fn routes() -> (table: Vec<Route>)
    ensures
        table@.len() == 6,
        table@[0].is(Method::Post, "/api/rounds"@, Endpoint::AddRound),
        table@[1].is(Method::Get, "/api/rounds"@, Endpoint::ListRounds),
        table@[2].is(Method::Delete, "/api/rounds/<id>"@, Endpoint::DeleteRound),
        table@[3].is(Method::Get, "/api/rounds/<id>"@, Endpoint::GetRound),
        table@[4].is(Method::Put, "/api/rounds"@, Endpoint::UpdateRound),
        table@[5].is(Method::Get, "/api/template_round"@, Endpoint::TemplateRound),
{
    let mut table: Vec<Route> = Vec::new();
    table.push(Route { method: Method::Post, path: "/api/rounds", endpoint: Endpoint::AddRound });
    table.push(Route { method: Method::Get, path: "/api/rounds", endpoint: Endpoint::ListRounds });
    table.push(
        Route { method: Method::Delete, path: "/api/rounds/<id>", endpoint: Endpoint::DeleteRound },
    );
    table.push(
        Route { method: Method::Get, path: "/api/rounds/<id>", endpoint: Endpoint::GetRound },
    );
    table.push(Route { method: Method::Put, path: "/api/rounds", endpoint: Endpoint::UpdateRound });
    table.push(
        Route {
            method: Method::Get,
            path: "/api/template_round",
            endpoint: Endpoint::TemplateRound,
        },
    );
    table
}

/// Whether one of the games carries the identity.
pub open spec fn has_id(games: Seq<Game>, id: Option<i32>) -> bool {
    id is Some && exists|k: int| 0 <= k < games.len() && (#[trigger] games[k]).game_id == id
}

/// The test that a submitted game passes when it carries the identity of a
/// stored game of the round.
pub open spec fn replaces_one_of(persisted: Seq<Game>) -> spec_fn(Game) -> bool {
    |s: Game| has_id(persisted, s.game_id)
}

/// The test that a submitted game passes when it carries no identity.
pub open spec fn is_new() -> spec_fn(Game) -> bool {
    |s: Game| s.game_id is None
}

/// The test that a stored game passes when no submitted game carries its
/// identity.
pub open spec fn is_absent_from(submitted: Seq<Game>) -> spec_fn(Game) -> bool {
    |p: Game| p.game_id is Some && !has_id(submitted, p.game_id)
}

/// The write that stores the game's teams, date and scores under the
/// identity it carries.
pub open spec fn update_of() -> spec_fn(Game) -> Write {
    |s: Game|
        Write::UpdateGame {
            game_id: s.game_id.unwrap(),
            home_team_id: s.home_team_id,
            away_team_id: s.away_team_id,
            game_date: s.game_date,
            home_team_score: s.home_team_score,
            away_team_score: s.away_team_score,
        }
}

/// The write that stores the game as a new game of the round.
pub open spec fn insert_of(round_id: i32) -> spec_fn(Game) -> Write {
    |s: Game|
        Write::InsertGame {
            round_id,
            home_team_id: s.home_team_id,
            away_team_id: s.away_team_id,
            game_date: s.game_date,
            home_team_score: s.home_team_score,
            away_team_score: s.away_team_score,
        }
}

/// The write that stores the game as a new game of the round, without
/// scores whatever it carries: a round just created has no results.
pub open spec fn unplayed_insert_of(round_id: i32) -> spec_fn(Game) -> Write {
    |s: Game|
        Write::InsertGame {
            round_id,
            home_team_id: s.home_team_id,
            away_team_id: s.away_team_id,
            game_date: s.game_date,
            home_team_score: None,
            away_team_score: None,
        }
}

/// The write that removes the game.
pub open spec fn delete_of() -> spec_fn(Game) -> Write {
    |p: Game| Write::DeleteGame { game_id: p.game_id.unwrap() }
}

/// The write that stores the round as a new round.
pub open spec fn round_insert_of(round: Round) -> Write {
    Write::InsertRound {
        round_number: round.round_number,
        start_date: round.start_date,
        end_date: round.end_date,
        bonus_points: round.bonus_points,
    }
}

/// The write that replaces number, dates and bonus of the stored round.
pub open spec fn round_update_of(round_id: i32, round: Round) -> Write {
    Write::UpdateRound {
        round_id,
        round_number: round.round_number,
        start_date: round.start_date,
        end_date: round.end_date,
        bonus_points: round.bonus_points,
    }
}

/// The updates of a reconciliation: one for each submitted game that carries
/// the identity of a stored game of the round, in the order of submission.
pub open spec fn game_updates(submitted: Seq<Game>, persisted: Seq<Game>) -> Seq<Write> {
    submitted.filter(replaces_one_of(persisted)).map_values(update_of())
}

/// The inserts of a reconciliation: one for each submitted game without an
/// identity, in the order of submission.
pub open spec fn game_inserts(round_id: i32, submitted: Seq<Game>) -> Seq<Write> {
    submitted.filter(is_new()).map_values(insert_of(round_id))
}

/// The deletes of a reconciliation: one for each stored game of the round
/// whose identity no submitted game carries.
pub open spec fn game_deletes(submitted: Seq<Game>, persisted: Seq<Game>) -> Seq<Write> {
    persisted.filter(is_absent_from(submitted)).map_values(delete_of())
}

/// The writes that turn the stored games of a round into the submitted ones:
/// the updates, then the inserts, then the deletes.  They are the writes of
/// a submission in which every identity carried is that of a stored game of
/// the round; for any other submission nothing is to be written.
pub open spec fn game_writes(round_id: i32, submitted: Seq<Game>, persisted: Seq<Game>) -> Seq<
    Write,
> {
    game_updates(submitted, persisted) + game_inserts(round_id, submitted) + game_deletes(
        submitted,
        persisted,
    )
}

/// The writes that store the games of a round just created.
pub open spec fn new_game_writes(round_id: i32, submitted: Seq<Game>) -> Seq<Write> {
    submitted.map_values(unplayed_insert_of(round_id))
}

/// The writes that delete a round: the tips for its games, then its games,
/// then the round, so that no row is removed while another refers to it.
pub open spec fn delete_round_writes(round_id: i32) -> Seq<Write> {
    seq![
        Write::DeleteTipsOfRound { round_id },
        Write::DeleteGamesOfRound { round_id },
        Write::DeleteRound { round_id },
    ]
}

/// The write that stores a submitted round as a new round.
pub fn round_insert(round: &Round) -> (w: Write)
    ensures
        w == round_insert_of(*round),
{
    Write::InsertRound {
        round_number: round.round_number,
        start_date: round.start_date,
        end_date: round.end_date,
        bonus_points: round.bonus_points,
    }
}

/// The write that replaces the stored round by the submitted one.
pub fn round_update(round_id: i32, round: &Round) -> (w: Write)
    ensures
        w == round_update_of(round_id, *round),
{
    Write::UpdateRound {
        round_id,
        round_number: round.round_number,
        start_date: round.start_date,
        end_date: round.end_date,
        bonus_points: round.bonus_points,
    }
}

/// The writes that store the submitted games as the games of a round just
/// created, each without scores.
pub fn insert_new_games(round_id: i32, submitted: &Vec<Game>) -> (writes: Vec<Write>)
    ensures
        writes@ == new_game_writes(round_id, submitted@),
{
    let mut writes: Vec<Write> = Vec::new();
    let mut k: usize = 0;
    while k < submitted.len()
        invariant
            k <= submitted.len(),
            writes@ == submitted@.take(k as int).map_values(unplayed_insert_of(round_id)),
        decreases submitted.len() - k,
    {
        let s: Game = submitted[k];
        writes.push(
            Write::InsertGame {
                round_id,
                home_team_id: s.home_team_id,
                away_team_id: s.away_team_id,
                game_date: s.game_date,
                home_team_score: None,
                away_team_score: None,
            },
        );
        assert(writes@ =~= submitted@.take(k + 1).map_values(unplayed_insert_of(round_id)));
        k = k + 1;
    }
    assert(submitted@.take(submitted.len() as int) =~= submitted@);
    writes
}

/// The writes that delete a round.
pub fn delete_round_plan(round_id: i32) -> (writes: Vec<Write>)
    ensures
        writes@ == delete_round_writes(round_id),
{
    let mut writes: Vec<Write> = Vec::new();
    writes.push(Write::DeleteTipsOfRound { round_id });
    writes.push(Write::DeleteGamesOfRound { round_id });
    writes.push(Write::DeleteRound { round_id });
    assert(writes@ =~= delete_round_writes(round_id));
    writes
}

/// The identities that the games carry.
fn identities(games: &Vec<Game>) -> (ids: HashSet<i32>)
    ensures
        forall|id: i32| ids@.contains(id) <==> has_id(games@, Some(id)),
{
    broadcast use group_hash_axioms;

    let mut ids: HashSet<i32> = HashSet::new();
    let mut k: usize = 0;
    while k < games.len()
        invariant
            k <= games.len(),
            forall|id: i32| ids@.contains(id) <==> has_id(games@.take(k as int), Some(id)),
        decreases games.len() - k,
    {
        let ghost before = ids@;
        let g: Game = games[k];
        match g.game_id {
            Some(id) => {
                ids.insert(id);
            },
            None => {},
        }
        proof {
            let shorter = games@.take(k as int);
            let longer = games@.take(k + 1);
            assert forall|id: i32| ids@.contains(id) <==> has_id(longer, Some(id)) by {
                if has_id(longer, Some(id)) {
                    let j = choose|j: int|
                        0 <= j < longer.len() && (#[trigger] longer[j]).game_id == Some(id);
                    if j < k {
                        assert(shorter[j].game_id == Some(id));
                    }
                }
                if before.contains(id) {
                    let j = choose|j: int|
                        0 <= j < shorter.len() && (#[trigger] shorter[j]).game_id == Some(id);
                    assert(longer[j].game_id == Some(id));
                }
                if g.game_id == Some(id) {
                    assert(longer[k as int].game_id == Some(id));
                }
            }
        }
        k = k + 1;
    }
    assert(games@.take(games.len() as int) =~= games@);
    ids
}

/// Whether the submitted game names a game that can be written: it carries
/// no identity, or the identity of a stored game of the round.
pub open spec fn names_known_game(s: Game, persisted: Seq<Game>) -> bool {
    s.game_id is None || has_id(persisted, s.game_id)
}

/// The identity carried by the first submitted game whose identity no stored
/// game of the round has, if there is such a game.
pub open spec fn first_unknown(submitted: Seq<Game>, persisted: Seq<Game>) -> Option<i32>
    decreases submitted.len(),
{
    if submitted.len() == 0 {
        None
    } else {
        match first_unknown(submitted.drop_last(), persisted) {
            Some(id) => Some(id),
            None => if names_known_game(submitted.last(), persisted) {
                None
            } else {
                submitted.last().game_id
            },
        }
    }
}

/// There is no unknown identity exactly when every submitted game names a
/// known game; and the one found is carried by a submitted game that names
/// no known game, while every game before that one does.
pub proof fn lemma_first_unknown(submitted: Seq<Game>, persisted: Seq<Game>)
    ensures
        match first_unknown(submitted, persisted) {
            Some(id) => exists|k: int|
                {
                    &&& 0 <= k < submitted.len()
                    &&& (#[trigger] submitted[k]).game_id == Some(id)
                    &&& !has_id(persisted, Some(id))
                    &&& forall|j: int| 0 <= j < k ==> names_known_game(#[trigger] submitted[j], persisted)
                },
            None => forall|k: int|
                0 <= k < submitted.len() ==> names_known_game(#[trigger] submitted[k], persisted),
        },
    decreases submitted.len(),
{
    if submitted.len() > 0 {
        let front = submitted.drop_last();
        lemma_first_unknown(front, persisted);
        match first_unknown(front, persisted) {
            Some(id) => {
                let k = choose|k: int|
                    {
                        &&& 0 <= k < front.len()
                        &&& (#[trigger] front[k]).game_id == Some(id)
                        &&& !has_id(persisted, Some(id))
                        &&& forall|j: int| 0 <= j < k ==> names_known_game(#[trigger] front[j], persisted)
                    };
                assert(submitted[k].game_id == Some(id));
                assert forall|j: int| 0 <= j < k implies names_known_game(
                    #[trigger] submitted[j],
                    persisted,
                ) by {
                    assert(front[j] == submitted[j]);
                }
            },
            None => {
                assert forall|j: int| 0 <= j < front.len() implies names_known_game(
                    #[trigger] submitted[j],
                    persisted,
                ) by {
                    assert(front[j] == submitted[j]);
                }
                if !names_known_game(submitted.last(), persisted) {
                    let k = submitted.len() - 1;
                    assert(submitted[k].game_id == submitted.last().game_id);
                }
            },
        }
    }
}

/// The text of the failure to find a game.
pub open spec fn game_not_found_text(game_id: i32) -> Seq<char> {
    "Game with ID "@ + decimal_text(game_id as int) + " not found"@
}

/// The failure to find a game.
pub fn game_not_found(game_id: i32) -> (e: ApiError)
    ensures
        e@ == ApiErrorView::NotFound(game_not_found_text(game_id)),
{
    let number = decimal(game_id as i64);
    let mut text = String::from_str("Game with ID ");
    text.append(number.as_str());
    text.append(" not found");
    ApiError::NotFound(text)
}

/// Finds the first submitted game that carries an identity which no stored
/// game of the round has, and gives that identity.  Such a game asks for the
/// update of a game that does not exist, so nothing must be written for the
/// submission.
pub fn first_unknown_game(submitted: &Vec<Game>, persisted: &Vec<Game>) -> (id: Option<i32>)
    ensures
        id == first_unknown(submitted@, persisted@),
        match id {
            Some(id) => exists|k: int|
                {
                    &&& 0 <= k < submitted.len()
                    &&& (#[trigger] submitted[k]).game_id == Some(id)
                    &&& !has_id(persisted@, Some(id))
                    &&& forall|j: int|
                        0 <= j < k ==> names_known_game(#[trigger] submitted[j], persisted@)
                },
            None => forall|k: int|
                0 <= k < submitted.len() ==> names_known_game(#[trigger] submitted[k], persisted@),
        },
{
    broadcast use group_hash_axioms;

    let stored_ids = identities(persisted);
    let mut k: usize = 0;
    assert(submitted@.take(0) =~= Seq::<Game>::empty());
    while k < submitted.len()
        invariant
            k <= submitted.len(),
            forall|id: i32| stored_ids@.contains(id) <==> has_id(persisted@, Some(id)),
            first_unknown(submitted@.take(k as int), persisted@) is None,
        decreases submitted.len() - k,
    {
        proof {
            assert(submitted@.take(k + 1).drop_last() =~= submitted@.take(k as int));
            assert(submitted@.take(k + 1).last() == submitted@[k as int]);
        }
        match submitted[k].game_id {
            Some(id) => {
                if !stored_ids.contains(&id) {
                    proof {
                        lemma_first_unknown_stays(submitted@, persisted@, k + 1);
                        lemma_first_unknown(submitted@, persisted@);
                    }
                    return Some(id);
                }
            },
            None => {},
        }
        k = k + 1;
    }
    proof {
        assert(submitted@.take(submitted.len() as int) =~= submitted@);
        lemma_first_unknown(submitted@, persisted@);
    }
    None
}

/// An unknown identity found among the first games is the one found however
/// many games follow.
proof fn lemma_first_unknown_stays(submitted: Seq<Game>, persisted: Seq<Game>, k: int)
    requires
        0 <= k <= submitted.len(),
        first_unknown(submitted.take(k), persisted) is Some,
    ensures
        first_unknown(submitted, persisted) == first_unknown(submitted.take(k), persisted),
    decreases submitted.len() - k,
{
    if k < submitted.len() {
        assert(submitted.drop_last().take(k) =~= submitted.take(k));
        lemma_first_unknown_stays(submitted.drop_last(), persisted, k);
    } else {
        assert(submitted.take(k) =~= submitted);
    }
}

/// Works out the writes that turn the stored games of a round into the
/// submitted ones.  A submitted game that carries the identity of a stored
/// game of the round replaces that game's teams, date and scores; one without
/// an identity becomes a new game of the round; a stored game whose identity
/// no submitted game carries is removed.  Where a submitted game carries an
/// identity which no stored game of the round has, there is no game to
/// update: no write is given, and the failure names the first such identity.
pub fn reconcile_games(round_id: i32, submitted: &Vec<Game>, persisted: &Vec<Game>) -> (r: Result<
    Vec<Write>,
    ApiError,
>)
    ensures
        match first_unknown(submitted@, persisted@) {
            Some(id) => r matches Err(e) && e@ == ApiErrorView::NotFound(game_not_found_text(id)),
            None => r matches Ok(writes) && writes@ == game_writes(
                round_id,
                submitted@,
                persisted@,
            ),
        },
{
    match first_unknown_game(submitted, persisted) {
        Some(id) => Err(game_not_found(id)),
        None => Ok(game_writes_of(round_id, submitted, persisted)),
    }
}

/// The updates, inserts and deletes of a reconciliation.
fn game_writes_of(round_id: i32, submitted: &Vec<Game>, persisted: &Vec<Game>) -> (writes: Vec<
    Write,
>)
    ensures
        writes@ == game_writes(round_id, submitted@, persisted@),
{
    broadcast use group_hash_axioms;

    let stored_ids = identities(persisted);
    let submitted_ids = identities(submitted);
    let mut writes: Vec<Write> = Vec::new();
    let ghost replaces = replaces_one_of(persisted@);
    let ghost absent = is_absent_from(submitted@);
    let mut k: usize = 0;
    proof {
        assert(submitted@.take(0) =~= Seq::<Game>::empty());
        reveal(Seq::filter);
        assert(writes@ =~= submitted@.take(0).filter(replaces).map_values(update_of()));
    }
    while k < submitted.len()
        invariant
            k <= submitted.len(),
            replaces == replaces_one_of(persisted@),
            forall|id: i32| stored_ids@.contains(id) <==> has_id(persisted@, Some(id)),
            writes@ == submitted@.take(k as int).filter(replaces).map_values(update_of()),
        decreases submitted.len() - k,
    {
        let s: Game = submitted[k];
        let replace = match s.game_id {
            Some(id) => stored_ids.contains(&id),
            None => false,
        };
        proof {
            assert(submitted@.take(k + 1) =~= submitted@.take(k as int).push(s));
            lemma_filter_push(submitted@.take(k as int), s, replaces);
            assert(replace == replaces(s));
        }
        if replace {
            let ghost kept = submitted@.take(k as int).filter(replaces);
            writes.push(
                Write::UpdateGame {
                    game_id: s.game_id.unwrap(),
                    home_team_id: s.home_team_id,
                    away_team_id: s.away_team_id,
                    game_date: s.game_date,
                    home_team_score: s.home_team_score,
                    away_team_score: s.away_team_score,
                },
            );
            assert(writes@ =~= kept.push(s).map_values(update_of()));
        }
        k = k + 1;
    }
    assert(submitted@.take(submitted.len() as int) =~= submitted@);
    let ghost updates = writes@;
    k = 0;
    proof {
        assert(submitted@.take(0) =~= Seq::<Game>::empty());
        reveal(Seq::filter);
        assert(writes@ =~= updates + submitted@.take(0).filter(is_new()).map_values(
            insert_of(round_id),
        ));
    }
    while k < submitted.len()
        invariant
            k <= submitted.len(),
            updates == game_updates(submitted@, persisted@),
            writes@ == updates + submitted@.take(k as int).filter(is_new()).map_values(
                insert_of(round_id),
            ),
        decreases submitted.len() - k,
    {
        let s: Game = submitted[k];
        proof {
            assert(submitted@.take(k + 1) =~= submitted@.take(k as int).push(s));
            lemma_filter_push(submitted@.take(k as int), s, is_new());
        }
        if s.game_id.is_none() {
            let ghost kept = submitted@.take(k as int).filter(is_new());
            writes.push(
                Write::InsertGame {
                    round_id,
                    home_team_id: s.home_team_id,
                    away_team_id: s.away_team_id,
                    game_date: s.game_date,
                    home_team_score: s.home_team_score,
                    away_team_score: s.away_team_score,
                },
            );
            assert(writes@ =~= updates + kept.push(s).map_values(insert_of(round_id)));
        }
        k = k + 1;
    }
    assert(submitted@.take(submitted.len() as int) =~= submitted@);
    let ghost upserts = writes@;
    k = 0;
    proof {
        assert(persisted@.take(0) =~= Seq::<Game>::empty());
        reveal(Seq::filter);
        assert(writes@ =~= upserts + persisted@.take(0).filter(absent).map_values(delete_of()));
    }
    while k < persisted.len()
        invariant
            k <= persisted.len(),
            absent == is_absent_from(submitted@),
            forall|id: i32| submitted_ids@.contains(id) <==> has_id(submitted@, Some(id)),
            upserts == game_updates(submitted@, persisted@) + game_inserts(round_id, submitted@),
            writes@ == upserts + persisted@.take(k as int).filter(absent).map_values(delete_of()),
        decreases persisted.len() - k,
    {
        let p: Game = persisted[k];
        let remove = match p.game_id {
            Some(id) => !submitted_ids.contains(&id),
            None => false,
        };
        proof {
            assert(persisted@.take(k + 1) =~= persisted@.take(k as int).push(p));
            lemma_filter_push(persisted@.take(k as int), p, absent);
            assert(remove == absent(p));
        }
        if remove {
            let ghost kept = persisted@.take(k as int).filter(absent);
            writes.push(Write::DeleteGame { game_id: p.game_id.unwrap() });
            assert(writes@ =~= upserts + kept.push(p).map_values(delete_of()));
        }
        k = k + 1;
    }
    assert(persisted@.take(persisted.len() as int) =~= persisted@);
    writes
}

/// The text of the failure to find a round.
pub open spec fn round_not_found_text(round_id: i32) -> Seq<char> {
    "Round with ID "@ + decimal_text(round_id as int) + " not found"@
}

/// The failure to find a round.
pub fn round_not_found(round_id: i32) -> (e: ApiError)
    ensures
        e@ == ApiErrorView::NotFound(round_not_found_text(round_id)),
{
    let number = decimal(round_id as i64);
    let mut text = String::from_str("Round with ID ");
    text.append(number.as_str());
    text.append(" not found");
    ApiError::NotFound(text)
}

/// Creates a round with its games, or changes nothing.  The submitted round
/// is validated against the stored rounds first.  Then the round is stored
/// under a new identity, and each submitted game as a game of that round
/// under a new identity and without scores, whatever scores it carries.
pub fn add_round(store: &mut Store, new_round: &NewRound, teams: &Vec<Team>) -> (r: Result<
    Round,
    ApiError,
>)
    ensures
        match new_round_violation(new_round.round, new_round.games@, old(store)@.rounds) {
            Some(v) => (r matches Err(e) && e@ == ApiErrorView::Invalid(violation_text(v, teams@)))
                && final(store)@ == old(store)@,
            None => match old(store)@.first_refusal(
                create_writes(old(store)@, new_round.round, new_round.games@),
            ) {
                Some(w) => (r matches Err(e) && e@ == ApiErrorView::Db(refusal_text(w)))
                    && final(store)@ == old(store)@,
                None => (r matches Ok(round) && round == created_round(
                    old(store)@,
                    new_round.round,
                )) && final(store)@ == created(old(store)@, new_round.round, new_round.games@),
            },
        },
        r is Ok <==> new_round_violation(new_round.round, new_round.games@, old(store)@.rounds) is None
            && creation_is_admitted(old(store)@, new_round.games@.len()),
        old(store)@.wf() ==> final(store)@.wf(),
{
    match validate_new(new_round, &store.rounds, teams) {
        Err(e) => {
            return Err(e);
        },
        Ok(_) => {},
    }
    let ghost before = store@;
    let ghost first = round_insert_of(new_round.round);
    let ghost rest = new_game_writes(before.next_round_id as i32, new_round.games@);
    proof {
        lemma_create_effect(before, new_round.round, new_round.games@);
        before.lemma_apply_one(first);
        before.lemma_apply_all_concat(seq![first], rest);
        before.lemma_first_refusal_concat(seq![first], rest);
        before.lemma_first_refusal(create_writes(before, new_round.round, new_round.games@));
        if before.wf() && creation_is_admitted(before, new_round.games@.len()) {
            lemma_created_keeps_rules(before, new_round.round, new_round.games@);
        }
    }
    let mut work = store.duplicate();
    let id: i32 = match work.apply(&round_insert(&new_round.round)) {
        Ok(Some(id)) => id,
        Ok(None) => vstd::pervasive::unreached(),
        Err(e) => {
            return Err(e);
        },
    };
    let games = insert_new_games(id, &new_round.games);
    match work.run(&games) {
        Err(e) => {
            return Err(e);
        },
        Ok(_) => {},
    }
    *store = work;
    Ok(
        Round {
            round_id: Some(id),
            round_number: new_round.round.round_number,
            start_date: new_round.round.start_date,
            end_date: new_round.round.end_date,
            bonus_points: new_round.round.bonus_points,
        },
    )
}

/// Whether the stored round can be replaced by the submitted one: the
/// submitted round carries an identity and breaks no rule, the round with
/// that identity is stored, every identity that a submitted game carries is
/// that of a stored game of the round, and the reconciliation of the games
/// is admitted.
pub open spec fn update_is_due(t: Tables, round: Round, submitted: Seq<Game>) -> bool {
    match round.round_id {
        Some(round_id) => {
            &&& existing_round_violation(round, round_id, submitted, t.rounds) is None
            &&& t.has_round(round_id)
            &&& first_unknown(submitted, t.games_of_round(round_id)) is None
            &&& reconcile_is_admitted(t, round_id, submitted)
        },
        None => false,
    }
}

/// Replaces a stored round and its games by the submitted ones, or changes
/// nothing.  The submitted round must carry the identity of the round it
/// replaces and is validated against the other stored rounds first.  The
/// round must be stored, and every identity that a submitted game carries
/// must be that of a stored game of the round: a round or a game that is not
/// found is a failure.  Then number, dates and bonus of the round are
/// replaced and its games are reconciled with the submitted ones.
pub fn update_round(store: &mut Store, new_round: &NewRound, teams: &Vec<Team>) -> (r: Result<
    (),
    ApiError,
>)
    ensures
        match new_round.round.round_id {
            None => (r matches Err(e) && e@ == ApiErrorView::Error("No round id, can't update"@))
                && final(store)@ == old(store)@,
            Some(round_id) => match existing_round_violation(
                new_round.round,
                round_id,
                new_round.games@,
                old(store)@.rounds,
            ) {
                Some(v) => (r matches Err(e) && e@ == ApiErrorView::Invalid(
                    violation_text(v, teams@),
                )) && final(store)@ == old(store)@,
                None => if !old(store)@.has_round(round_id) {
                    (r matches Err(e) && e@ == ApiErrorView::NotFound(
                        round_not_found_text(round_id),
                    )) && final(store)@ == old(store)@
                } else {
                    match first_unknown(
                        new_round.games@,
                        old(store)@.games_of_round(round_id),
                    ) {
                        Some(id) => (r matches Err(e) && e@ == ApiErrorView::NotFound(
                            game_not_found_text(id),
                        )) && final(store)@ == old(store)@,
                        None => match old(store)@.first_refusal(
                            update_writes(
                                old(store)@,
                                round_id,
                                new_round.round,
                                new_round.games@,
                            ),
                        ) {
                            Some(w) => (r matches Err(e) && e@ == ApiErrorView::Db(
                                refusal_text(w),
                            )) && final(store)@ == old(store)@,
                            None => r is Ok && final(store)@ == old(store)@.apply_all(
                                update_writes(
                                    old(store)@,
                                    round_id,
                                    new_round.round,
                                    new_round.games@,
                                ),
                            ),
                        },
                    }
                },
            },
        },
        old(store)@.games_keyed() ==> (r is Ok <==> update_is_due(
            old(store)@,
            new_round.round,
            new_round.games@,
        )),
        r is Ok && old(store)@.games_keyed() ==> final(store)@ == updated(
            old(store)@,
            new_round.round.round_id.unwrap(),
            new_round.round,
            new_round.games@,
        ),
        r is Ok && old(store)@.games_keyed() && carried_once(new_round.games@) ==> final(store)@
            .games_of_round(new_round.round.round_id.unwrap()).len() == new_round.games@.len(),
        old(store)@.wf() ==> final(store)@.wf(),
{
    match validate_existing(new_round, &store.rounds, teams) {
        Err(e) => {
            return Err(e);
        },
        Ok(_) => {},
    }
    let round_id: i32 = match new_round.round.round_id {
        Some(id) => id,
        None => {
            return Err(ApiError::Error(String::from_str("No round id, can't update")));
        },
    };
    if !store.has_round(round_id) {
        return Err(round_not_found(round_id));
    }
    let mut writes: Vec<Write> = Vec::new();
    writes.push(round_update(round_id, &new_round.round));
    let persisted = store.games_of_round(round_id);
    let mut rest = match reconcile_games(round_id, &new_round.games, &persisted) {
        Ok(rest) => rest,
        Err(e) => {
            return Err(e);
        },
    };
    writes.append(&mut rest);
    proof {
        let before = store@;
        let all = update_writes(before, round_id, new_round.round, new_round.games@);
        assert(writes@ =~= all);
        before.lemma_first_refusal(all);
        if before.games_keyed() {
            lemma_update_admission(before, round_id, new_round.round, new_round.games@);
        }
        if before.games_keyed() && before.admits_all(all) {
            let first = round_update_of(round_id, new_round.round);
            let games = game_writes(round_id, new_round.games@, before.games_of_round(round_id));
            before.lemma_apply_one(first);
            before.lemma_apply_all_concat(seq![first], games);
            let t0 = before.apply(first);
            assert(t0.games_of_round(round_id) == before.games_of_round(round_id));
            lemma_admitted_has_identities(t0, round_id, new_round.games@);
            lemma_update_effect(before, round_id, new_round.round, new_round.games@);
            lemma_update_diff(before, round_id, new_round.round, new_round.games@);
            if before.wf() {
                lemma_updated_keeps_rules(before, round_id, new_round.round, new_round.games@);
            }
        }
    }
    store.run(&writes)
}

/// Deletes a round, or changes nothing: the tips for its games, its games
/// and the round itself are removed, in that order.
pub fn delete_round(store: &mut Store, round_id: i32) -> (r: Result<(), ApiError>)
    ensures
        if old(store)@.has_round(round_id) {
            r is Ok && final(store)@ == without_round(old(store)@, round_id)
        } else {
            (r matches Err(e) && e@ == ApiErrorView::NotFound(round_not_found_text(round_id)))
                && final(store)@ == old(store)@
        },
        old(store)@.wf() ==> final(store)@.wf(),
{
    if !store.has_round(round_id) {
        return Err(round_not_found(round_id));
    }
    let writes = delete_round_plan(round_id);
    proof {
        lemma_delete_round_cascade(store@, round_id);
        store@.lemma_first_refusal(writes@);
    }
    store.run(&writes)
}

/// The stored round with the highest number; of several with that number,
/// the one stored first.
pub open spec fn is_last_round(last: Option<Round>, rounds: Seq<Round>) -> bool {
    match last {
        None => rounds.len() == 0,
        Some(r) => exists|i: int|
            {
                &&& 0 <= i < rounds.len()
                &&& #[trigger] rounds[i] == r
                &&& forall|j: int| 0 <= j < i ==> (#[trigger] rounds[j]).round_number < r.round_number
                &&& forall|j: int|
                    i <= j < rounds.len() ==> (#[trigger] rounds[j]).round_number <= r.round_number
            },
    }
}

/// The round with the highest number.
pub fn last_round(rounds: &Vec<Round>) -> (last: Option<Round>)
    ensures
        is_last_round(last, rounds@),
{
    if rounds.len() == 0 {
        return None;
    }
    let mut best: usize = 0;
    let mut i: usize = 1;
    while i < rounds.len()
        invariant
            1 <= i <= rounds.len(),
            best < i,
            forall|j: int| 0 <= j < best ==> (#[trigger] rounds[j]).round_number < rounds[best as int].round_number,
            forall|j: int|
                best <= j < i ==> (#[trigger] rounds[j]).round_number <= rounds[best as int].round_number,
        decreases rounds.len() - i,
    {
        if rounds[i].round_number > rounds[best].round_number {
            best = i;
        }
        i = i + 1;
    }
    Some(rounds[best])
}

/// Whether a round can follow the round a week later: the next number
/// exists, and the calendar holds both dates seven days on.
pub open spec fn can_be_followed(last: Round) -> bool {
    &&& last.round_number < i32::MAX
    &&& last.start_date@ <= last.end_date@
    &&& is_day_number(last.start_date@ + 7)
    &&& is_day_number(last.end_date@ + 7)
}

/// Whether a round can follow the round a week later.
pub fn can_follow(last: &Round) -> (yes: bool)
    ensures
        yes == can_be_followed(*last),
{
    let first: i64 = last.start_date.day_number() as i64;
    let end: i64 = last.end_date.day_number() as i64;
    last.round_number < i32::MAX && first <= end && first + 7 <= MAX_DAY_NUMBER as i64 && end + 7
        <= MAX_DAY_NUMBER as i64
}

/// Whether `template` is the template for the round after `last`, with the
/// teams taken in the given order: without a last round, the default round
/// and no games; else a round with the next number, a week later, with the
/// same bonus, and the fixtures of the teams, none of them stored or assigned
/// to a round yet.
pub open spec fn is_template(template: NewRound, last: Option<Round>, order: Seq<i32>) -> bool {
    match last {
        None => {
            &&& template.round.round_id is None
            &&& template.round.round_number == 0
            &&& template.round.start_date@ == EPOCH_DAY_NUMBER
            &&& template.round.end_date@ == EPOCH_DAY_NUMBER
            &&& template.round.bonus_points == 0
            &&& template.games@.len() == 0
        },
        Some(r) => {
            &&& template.round.round_id is None
            &&& template.round.round_number == r.round_number + 1
            &&& template.round.start_date@ == r.start_date@ + 7
            &&& template.round.end_date@ == r.end_date@ + 7
            &&& template.round.bonus_points == r.bonus_points
            &&& template.games@.len() == order.len() / 2
            &&& forall|k: int|
                0 <= k < template.games@.len() ==> (#[trigger] template.games@[k]).round_id is None
                    && is_fixture_of_pair(
                    template.games@[k],
                    k,
                    order,
                    template.round.start_date,
                    template.round.end_date,
                )
        },
    }
}

/// The template for the round after `last`, with the teams taken in the
/// given order.
pub fn template_in_order(last: Option<Round>, order: &Vec<i32>) -> (template: NewRound)
    requires
        last matches Some(r) ==> can_be_followed(r),
    ensures
        is_template(template, last, order@),
{
    match last {
        None => NewRound::default(),
        Some(r) => {
            let start: Date = r.start_date.plus_days(7).unwrap();
            let end: Date = r.end_date.plus_days(7).unwrap();
            let allocated = allocate_in_order(-1, order, start, end);
            let mut games: Vec<Game> = Vec::new();
            let mut k: usize = 0;
            while k < allocated.len()
                invariant
                    k <= allocated.len(),
                    games.len() == k,
                    forall|j: int|
                        0 <= j < k ==> (#[trigger] games[j]).round_id is None && is_fixture_of_pair(
                            games[j],
                            j,
                            order@,
                            start,
                            end,
                        ),
                    forall|j: int|
                        0 <= j < allocated.len() ==> is_fixture_of_pair(
                            #[trigger] allocated[j],
                            j,
                            order@,
                            start,
                            end,
                        ),
                decreases allocated.len() - k,
            {
                let g: Game = allocated[k];
                games.push(
                    Game {
                        game_id: None,
                        round_id: None,
                        home_team_id: g.home_team_id,
                        away_team_id: g.away_team_id,
                        game_date: g.game_date,
                        home_team_score: None,
                        away_team_score: None,
                    },
                );
                k = k + 1;
            }
            NewRound {
                round: Round {
                    round_id: None,
                    round_number: r.round_number + 1,
                    start_date: start,
                    end_date: end,
                    bonus_points: r.bonus_points,
                },
                games,
            }
        },
    }
}

/// The template for the next round: the round after the last one, a week
/// later, with the teams of the roster shuffled and paired off.
pub fn template_round(last: Option<Round>, teams: &Vec<Team>) -> (template: NewRound)
    requires
        all_stored(teams@),
        last matches Some(r) ==> can_be_followed(r),
    ensures
        exists|order: Seq<i32>|
            order.to_multiset() == roster_ids(teams@).to_multiset() && #[trigger] is_template(
                template,
                last,
                order,
            ),
{
    let mut order: Vec<i32> = team_ids(teams);
    let mut rng = thread_rng();
    shuffle(&mut order, &mut rng);
    let template = template_in_order(last, &order);
    assert(is_template(template, last, order@));
    template
}

/// The first stored round with the identity, if there is one.
pub open spec fn round_of(rounds: Seq<Round>, round_id: i32) -> Option<Round>
    decreases rounds.len(),
{
    if rounds.len() == 0 {
        None
    } else if rounds[0].round_id == Some(round_id) {
        Some(rounds[0])
    } else {
        round_of(rounds.drop_first(), round_id)
    }
}

/// The first stored round with the identity.
pub fn find_round(rounds: &Vec<Round>, round_id: i32) -> (found: Option<Round>)
    ensures
        found == round_of(rounds@, round_id),
{
    let mut i: usize = 0;
    assert(rounds@.skip(0) =~= rounds@);
    while i < rounds.len()
        invariant
            i <= rounds.len(),
            round_of(rounds@, round_id) == round_of(rounds@.skip(i as int), round_id),
        decreases rounds.len() - i,
    {
        let r: Round = rounds[i];
        let same = match r.round_id {
            Some(id) => id == round_id,
            None => false,
        };
        if same {
            return Some(r);
        }
        assert(rounds@.skip(i as int).drop_first() =~= rounds@.skip(i + 1));
        i = i + 1;
    }
    None
}

/// The keys that put games in the order of their dates, the earliest first.
pub open spec fn date_keys(games: Seq<Game>) -> Seq<i64> {
    Seq::new(games.len(), |k: int| (-games[k].game_date@) as i64)
}

/// The keys that put rounds in the order of their numbers, the lowest first.
pub open spec fn number_keys(rounds: Seq<Round>) -> Seq<i64> {
    Seq::new(rounds.len(), |i: int| (-rounds[i].round_number) as i64)
}

/// The games in the order of their dates, the earliest first, and games of
/// one day in the order in which they are listed.
pub fn by_date(games: &Vec<Game>) -> (sorted: Vec<Game>)
    ensures
        is_arranged(sorted@, games@, date_keys(games@)),
{
    let mut keys: Vec<i64> = Vec::new();
    let mut k: usize = 0;
    while k < games.len()
        invariant
            k <= games.len(),
            keys@ == date_keys(games@).take(k as int),
        decreases games.len() - k,
    {
        let day: i32 = games[k].game_date.day_number();
        keys.push(-(day as i64));
        assert(keys@ =~= date_keys(games@).take(k + 1));
        k = k + 1;
    }
    assert(keys@ =~= date_keys(games@));
    arrange(games, &keys)
}

/// The stored rounds in the order of their numbers, the lowest first.
pub fn list(store: &Store) -> (rounds: Vec<Round>)
    ensures
        is_arranged(rounds@, store@.rounds, number_keys(store@.rounds)),
{
    let mut keys: Vec<i64> = Vec::new();
    let mut i: usize = 0;
    while i < store.rounds.len()
        invariant
            i <= store.rounds.len(),
            keys@ == number_keys(store@.rounds).take(i as int),
        decreases store.rounds.len() - i,
    {
        keys.push(-(store.rounds[i].round_number as i64));
        assert(keys@ =~= number_keys(store@.rounds).take(i + 1));
        i = i + 1;
    }
    assert(keys@ =~= number_keys(store@.rounds));
    arrange(&store.rounds, &keys)
}

/// A stored round with its games in the order of their dates.
pub fn get_round(store: &Store, round_id: i32) -> (r: Result<NewRound, ApiError>)
    ensures
        match round_of(store@.rounds, round_id) {
            Some(round) => r matches Ok(found) && found.round == round && is_arranged(
                found.games@,
                store@.games_of_round(round_id),
                date_keys(store@.games_of_round(round_id)),
            ),
            None => r matches Err(e) && e@ == ApiErrorView::NotFound(
                round_not_found_text(round_id),
            ),
        },
{
    match find_round(&store.rounds, round_id) {
        Some(round) => {
            let games = store.games_of_round(round_id);
            Ok(NewRound { round, games: by_date(&games) })
        },
        None => Err(round_not_found(round_id)),
    }
}

} // verus!
