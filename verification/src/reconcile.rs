//! What reconciling the stored games of a round with a submitted list does
//! to the tables.

use crate::effects::all_delete_games;
use crate::effects::all_insert_games;
use crate::effects::all_update_games;
use crate::effects::deletes_key;
use crate::effects::edit_all;
use crate::effects::edited_by;
use crate::effects::inserted_games;
use crate::effects::lemma_deletes_effect;
use crate::effects::lemma_edited_keeps_key;
use crate::effects::lemma_inserts_effect;
use crate::effects::lemma_updates_effect;
use crate::effects::no_tips_lost;
use crate::effects::rounds_are_stored;
use crate::effects::survives_deletes;
use crate::game::Game;
use crate::rounds::delete_of;
use crate::rounds::game_deletes;
use crate::rounds::game_inserts;
use crate::rounds::game_updates;
use crate::rounds::game_writes;
use crate::rounds::has_id;
use crate::rounds::insert_of;
use crate::rounds::is_absent_from;
use crate::rounds::is_new;
use crate::rounds::replaces_one_of;
use crate::rounds::update_of;
use crate::seqs::lemma_filter_agree;
use crate::seqs::lemma_filter_keeps_all;
use crate::seqs::lemma_filter_membership;
use crate::seqs::lemma_filter_of_map;
use crate::seqs::lemma_filter_push;
use crate::seqs::lemma_filter_twice;
use crate::store::edited_game;
use crate::store::inside_round;
use crate::store::outside_round;
use crate::store::Tables;
use crate::store::Write;
use vstd::prelude::*;

verus! {

/// The last of the submitted games that carries the identity.
pub open spec fn last_carrying(submitted: Seq<Game>, id: Option<i32>) -> Game
    decreases submitted.len(),
{
    if submitted.len() == 0 {
        arbitrary()
    } else if submitted.last().game_id == id {
        submitted.last()
    } else {
        last_carrying(submitted.drop_last(), id)
    }
}

/// The test that a stored game passes when the reconciliation of the round
/// keeps it: it is a game of another round, or a submitted game carries its
/// identity.
pub open spec fn stays(round_id: i32, submitted: Seq<Game>) -> spec_fn(Game) -> bool {
    |g: Game| g.round_id != Some(round_id) || has_id(submitted, g.game_id)
}

/// The change that the reconciliation of the round makes to a stored game
/// that it keeps: a game of the round takes teams, date and scores of the
/// last submitted game that carries its identity.
pub open spec fn takes_submitted(round_id: i32, submitted: Seq<Game>) -> spec_fn(Game) -> Game {
    |g: Game|
        if g.round_id == Some(round_id) {
            edited_game(g, last_carrying(submitted, g.game_id))
        } else {
            g
        }
}

/// The tables after the stored games of the round have been reconciled with
/// the submitted ones: stored games of the round that no submitted game
/// names are gone, the others have taken what was submitted for them, and the
/// submitted games without an identity follow as new games of the round.
pub open spec fn reconciled(t: Tables, round_id: i32, submitted: Seq<Game>) -> Tables {
    Tables {
        games: t.games.filter(stays(round_id, submitted)).map_values(
            takes_submitted(round_id, submitted),
        ) + inserted_games(game_inserts(round_id, submitted), t.next_game_id),
        next_game_id: t.next_game_id + submitted.filter(is_new()).len(),
        ..t
    }
}

/// Whether a store that keeps its references whole accepts the
/// reconciliation: where a game is new, the round is stored and enough
/// identities are left; and no game that is removed has a tip.
pub open spec fn reconcile_is_admitted(t: Tables, round_id: i32, submitted: Seq<Game>) -> bool {
    &&& submitted.filter(is_new()).len() > 0 ==> t.has_round(round_id) && t.next_game_id
        + submitted.filter(is_new()).len() <= i32::MAX
    &&& forall|k: int|
        0 <= k < t.games.len() && (#[trigger] t.games[k]).round_id == Some(round_id) && !has_id(
            submitted,
            t.games[k].game_id,
        ) ==> !t.game_has_tips(t.games[k].game_id.unwrap())
}

/// A run of updates made from submitted games gives a stored game what the
/// last submitted game with its identity carries, and leaves it alone where
/// there is none.
proof fn lemma_edited_by_submitted(subs: Seq<Game>, g: Game)
    requires
        forall|k: int| 0 <= k < subs.len() ==> (#[trigger] subs[k]).game_id is Some,
    ensures
        edited_by(subs.map_values(update_of()), g) == if has_id(subs, g.game_id) {
            edited_game(g, last_carrying(subs, g.game_id))
        } else {
            g
        },
    decreases subs.len(),
{
    let updates = subs.map_values(update_of());
    if subs.len() > 0 {
        let front = subs.drop_last();
        lemma_edited_by_submitted(front, g);
        lemma_edited_keeps_key(front.map_values(update_of()), g);
        assert(updates.drop_last() =~= front.map_values(update_of()));
        let s = subs.last();
        assert(updates.last() == update_of()(s));
        assert(updates.last().game_fields().game_id == s.game_id);
        if has_id(front, g.game_id) {
            let k = choose|k: int|
                0 <= k < front.len() && (#[trigger] front[k]).game_id == g.game_id;
            assert(subs[k].game_id == g.game_id);
        }
        if has_id(subs, g.game_id) && s.game_id != g.game_id {
            let k = choose|k: int| 0 <= k < subs.len() && (#[trigger] subs[k]).game_id == g.game_id;
            assert(front[k].game_id == g.game_id);
        }
        if s.game_id == g.game_id {
            assert(subs[subs.len() - 1].game_id == g.game_id);
        }
    }
}

/// Filtering the submitted games with a test that every game with the
/// identity passes does not change which is the last game with the identity.
proof fn lemma_last_carrying_filter(
    submitted: Seq<Game>,
    test: spec_fn(Game) -> bool,
    id: Option<i32>,
)
    requires
        id is Some,
        forall|k: int|
            0 <= k < submitted.len() && (#[trigger] submitted[k]).game_id == id ==> test(
                submitted[k],
            ),
    ensures
        has_id(submitted.filter(test), id) == has_id(submitted, id),
        has_id(submitted, id) ==> last_carrying(submitted.filter(test), id) == last_carrying(
            submitted,
            id,
        ),
    decreases submitted.len(),
{
    reveal(Seq::filter);
    if submitted.len() > 0 {
        let front = submitted.drop_last();
        let s = submitted.last();
        assert forall|k: int| 0 <= k < front.len() && (#[trigger] front[k]).game_id == id implies test(
            front[k],
        ) by {
            assert(front[k] == submitted[k]);
        }
        lemma_last_carrying_filter(front, test, id);
        assert(front.push(s) =~= submitted);
        lemma_filter_push(front, s, test);
        let kept = front.filter(test);
        if has_id(front, id) {
            let k = choose|k: int| 0 <= k < front.len() && (#[trigger] front[k]).game_id == id;
            assert(submitted[k].game_id == id);
        }
        if has_id(submitted, id) && s.game_id != id {
            let k = choose|k: int|
                0 <= k < submitted.len() && (#[trigger] submitted[k]).game_id == id;
            assert(front[k].game_id == id);
        }
        if s.game_id == id {
            assert(submitted[submitted.len() - 1].game_id == id);
            assert(test(submitted[submitted.len() - 1]));
            assert(kept.push(s)[kept.len() as int].game_id == id);
            assert(kept.push(s).drop_last() =~= kept);
        } else if test(s) {
            assert(kept.push(s).drop_last() =~= kept);
            if has_id(kept, id) {
                let k = choose|k: int| 0 <= k < kept.len() && (#[trigger] kept[k]).game_id == id;
                assert(kept.push(s)[k].game_id == id);
            }
            if has_id(kept.push(s), id) {
                let k = choose|k: int|
                    0 <= k < kept.push(s).len() && (#[trigger] kept.push(s)[k]).game_id == id;
                assert(kept[k].game_id == id);
            }
        }
    }
}

/// A game of the tables is a stored game of the round exactly when its round
/// is the round.
proof fn lemma_games_of_round(t: Tables, round_id: i32, g: Game)
    ensures
        t.games_of_round(round_id).contains(g) <==> t.games.contains(g) && g.round_id == Some(
            round_id,
        ),
{
    lemma_filter_membership(t.games, inside_round(round_id), g);
}

/// Where identities are keys, a game of the tables is removed by the deletes
/// of the reconciliation exactly when it does not stay.
proof fn lemma_deleted_or_stays(t: Tables, round_id: i32, submitted: Seq<Game>, i: int)
    requires
        t.games_keyed(),
        0 <= i < t.games.len(),
    ensures
        survives_deletes(game_deletes(submitted, t.games_of_round(round_id)))(t.games[i]) == stays(
            round_id,
            submitted,
        )(t.games[i]),
{
    let g = t.games[i];
    let persisted = t.games_of_round(round_id);
    let dropped = persisted.filter(is_absent_from(submitted));
    let deletes = game_deletes(submitted, persisted);
    assert(t.games.contains(g));
    lemma_games_of_round(t, round_id, g);
    lemma_filter_membership(persisted, is_absent_from(submitted), g);
    if deletes_key(deletes, g.game_id) {
        let k = choose|k: int|
            0 <= k < deletes.len() && #[trigger] deletes[k] == (Write::DeleteGame {
                game_id: g.game_id.unwrap(),
            });
        let p = dropped[k];
        assert(deletes[k] == delete_of()(p));
        assert(dropped.contains(p));
        lemma_filter_membership(persisted, is_absent_from(submitted), p);
        lemma_games_of_round(t, round_id, p);
        let j = choose|j: int| 0 <= j < t.games.len() && t.games[j] == p;
        assert(t.games[j].game_id == t.games[i].game_id);
        assert(i == j);
    }
    if !stays(round_id, submitted)(g) {
        assert(dropped.contains(g));
        let k = choose|k: int| 0 <= k < dropped.len() && dropped[k] == g;
        assert(deletes[k] == Write::DeleteGame { game_id: g.game_id.unwrap() });
    }
}

/// Where identities are keys, the updates of the reconciliation give a game
/// that stays what the reconciliation says it takes.
proof fn lemma_updated_takes_submitted(t: Tables, round_id: i32, submitted: Seq<Game>, i: int)
    requires
        t.games_keyed(),
        0 <= i < t.games.len(),
        stays(round_id, submitted)(t.games[i]),
    ensures
        edit_all(game_updates(submitted, t.games_of_round(round_id)))(t.games[i])
            == takes_submitted(round_id, submitted)(t.games[i]),
{
    let g = t.games[i];
    let persisted = t.games_of_round(round_id);
    let test = replaces_one_of(persisted);
    let subs = submitted.filter(test);
    assert forall|k: int| 0 <= k < subs.len() implies (#[trigger] subs[k]).game_id is Some by {
        submitted.lemma_filter_pred(test, k);
    }
    lemma_edited_by_submitted(subs, g);
    assert(t.games.contains(g));
    lemma_games_of_round(t, round_id, g);
    if g.round_id == Some(round_id) {
        let x = choose|x: int| 0 <= x < persisted.len() && persisted[x] == g;
        assert(persisted[x].game_id == g.game_id);
        assert(has_id(persisted, g.game_id));
        lemma_last_carrying_filter(submitted, test, g.game_id);
    } else {
        if has_id(subs, g.game_id) {
            let k = choose|k: int| 0 <= k < subs.len() && (#[trigger] subs[k]).game_id == g.game_id;
            submitted.lemma_filter_pred(test, k);
            let x = choose|x: int|
                0 <= x < persisted.len() && (#[trigger] persisted[x]).game_id == g.game_id;
            let p = persisted[x];
            assert(persisted.contains(p));
            lemma_games_of_round(t, round_id, p);
            let j = choose|j: int| 0 <= j < t.games.len() && t.games[j] == p;
            assert(t.games[j].game_id == t.games[i].game_id);
            assert(i == j);
        }
    }
}

/// Where identities are keys and enough of them are left, the writes of a
/// reconciliation turn the tables into the reconciled tables: stored games
/// of other rounds are untouched, stored games of the round that a submitted
/// game names keep their identity and take what was submitted, stored games
/// of the round that no submitted game names are removed, and submitted
/// games without an identity are stored as new games of the round.  A store
/// that keeps its references whole accepts the writes exactly when the
/// reconciliation is admitted.
pub proof fn lemma_reconcile_effect(t: Tables, round_id: i32, submitted: Seq<Game>)
    requires
        t.games_keyed(),
        t.next_game_id + submitted.filter(is_new()).len() <= i32::MAX,
    ensures
        t.apply_all(game_writes(round_id, submitted, t.games_of_round(round_id))) == reconciled(
            t,
            round_id,
            submitted,
        ),
        t.admits_all(game_writes(round_id, submitted, t.games_of_round(round_id)))
            <==> reconcile_is_admitted(t, round_id, submitted),
{
    let persisted = t.games_of_round(round_id);
    let updates = game_updates(submitted, persisted);
    let inserts = game_inserts(round_id, submitted);
    let deletes = game_deletes(submitted, persisted);
    let news = submitted.filter(is_new());
    let dropped = persisted.filter(is_absent_from(submitted));
    assert(all_update_games(updates));
    assert(all_insert_games(inserts));
    assert(all_delete_games(deletes));
    t.lemma_apply_all_concat(updates, inserts);
    t.lemma_apply_all_concat(updates + inserts, deletes);
    lemma_updates_effect(t, updates);
    let t1 = t.apply_all(updates);
    lemma_inserts_effect(t1, inserts);
    let t2 = t1.apply_all(inserts);
    lemma_deletes_effect(t2, deletes);
    let t3 = t2.apply_all(deletes);
    let edit = edit_all(updates);
    let keep = survives_deletes(deletes);
    let stay = stays(round_id, submitted);
    let take = takes_submitted(round_id, submitted);
    let added = inserted_games(inserts, t.next_game_id);
    // the new games are not among those removed
    assert forall|k: int| 0 <= k < added.len() implies keep(#[trigger] added[k]) by {
        let a = added[k];
        if deletes_key(deletes, a.game_id) {
            let d = choose|d: int|
                0 <= d < deletes.len() && #[trigger] deletes[d] == (Write::DeleteGame {
                    game_id: a.game_id.unwrap(),
                });
            let p = dropped[d];
            assert(deletes[d] == delete_of()(p));
            assert(dropped.contains(p));
            lemma_filter_membership(persisted, is_absent_from(submitted), p);
            lemma_games_of_round(t, round_id, p);
            let j = choose|j: int| 0 <= j < t.games.len() && t.games[j] == p;
            assert(t.games[j].game_id.unwrap() < t.next_game_id);
        }
    }
    lemma_filter_keeps_all(added, keep);
    Seq::filter_distributes_over_add(t1.games, added, keep);
    // removing after editing is editing after removing
    assert forall|i: int| 0 <= i < t.games.len() implies keep(edit(#[trigger] t.games[i])) == keep(
        t.games[i],
    ) by {
        lemma_edited_keeps_key(updates, t.games[i]);
    }
    lemma_filter_of_map(t.games, edit, keep);
    assert forall|i: int| 0 <= i < t.games.len() implies keep(#[trigger] t.games[i]) == stay(
        t.games[i],
    ) by {
        lemma_deleted_or_stays(t, round_id, submitted, i);
    }
    lemma_filter_agree(t.games, keep, stay);
    let staying = t.games.filter(stay);
    assert forall|x: int| 0 <= x < staying.len() implies edit(#[trigger] staying[x]) == take(
        staying[x],
    ) by {
        let g = staying[x];
        assert(staying.contains(g));
        lemma_filter_membership(t.games, stay, g);
        let i = choose|i: int| 0 <= i < t.games.len() && t.games[i] == g;
        lemma_updated_takes_submitted(t, round_id, submitted, i);
    }
    assert(staying.map_values(edit) =~= staying.map_values(take));
    assert(t3.games == reconciled(t, round_id, submitted).games);
    assert(t3 == reconciled(t, round_id, submitted));
    // what the store accepts
    if inserts.len() > 0 {
        assert(inserts[0].game_fields().round_id == Some(round_id));
        if rounds_are_stored(t1, inserts) {
            assert(t1.has_round(inserts[0].game_fields().round_id.unwrap()));
        }
        if t.has_round(round_id) {
            assert forall|k: int| 0 <= k < inserts.len() implies t1.has_round(
                (#[trigger] inserts[k]).game_fields().round_id.unwrap(),
            ) by {
                assert(inserts[k] == insert_of(round_id)(news[k]));
            }
        }
    }
    if no_tips_lost(t2, deletes) {
        assert forall|k: int|
            0 <= k < t.games.len() && (#[trigger] t.games[k]).round_id == Some(round_id) && !has_id(
                submitted,
                t.games[k].game_id,
            ) implies !t.game_has_tips(t.games[k].game_id.unwrap()) by {
            let g = t.games[k];
            assert(t.games.contains(g));
            lemma_games_of_round(t, round_id, g);
            lemma_filter_membership(persisted, is_absent_from(submitted), g);
            let d = choose|d: int| 0 <= d < dropped.len() && dropped[d] == g;
            assert(deletes[d] == delete_of()(g));
            assert(!t2.game_has_tips(deletes[d]->DeleteGame_game_id));
        }
    }
    if forall|k: int|
        0 <= k < t.games.len() && (#[trigger] t.games[k]).round_id == Some(round_id) && !has_id(
            submitted,
            t.games[k].game_id,
        ) ==> !t.game_has_tips(t.games[k].game_id.unwrap()) {
        assert forall|d: int| 0 <= d < deletes.len() implies !t2.game_has_tips(
            (#[trigger] deletes[d])->DeleteGame_game_id,
        ) by {
            let p = dropped[d];
            assert(deletes[d] == delete_of()(p));
            assert(dropped.contains(p));
            lemma_filter_membership(persisted, is_absent_from(submitted), p);
            lemma_games_of_round(t, round_id, p);
            let j = choose|j: int| 0 <= j < t.games.len() && t.games[j] == p;
            assert(t.games[j].round_id == Some(round_id));
        }
    }
}

/// The test that a stored game passes when a submitted game carries its
/// identity.
pub open spec fn is_named_in(submitted: Seq<Game>) -> spec_fn(Game) -> bool {
    |g: Game| has_id(submitted, g.game_id)
}

/// After the reconciliation, the games of other rounds are those that were
/// stored, and the games of the round are exactly the stored games of the
/// round that a submitted game names, each with what was submitted for it,
/// followed by the new games.
pub proof fn lemma_reconciled_round(t: Tables, round_id: i32, submitted: Seq<Game>)
    ensures
        reconciled(t, round_id, submitted).games.filter(outside_round(round_id)) == t.games.filter(
            outside_round(round_id),
        ),
        reconciled(t, round_id, submitted).games_of_round(round_id) == t.games_of_round(
            round_id,
        ).filter(is_named_in(submitted)).map_values(takes_submitted(round_id, submitted))
            + inserted_games(game_inserts(round_id, submitted), t.next_game_id),
{
    let stay = stays(round_id, submitted);
    let take = takes_submitted(round_id, submitted);
    let inside = inside_round(round_id);
    let outside = outside_round(round_id);
    let named = is_named_in(submitted);
    let staying = t.games.filter(stay);
    let inserts = game_inserts(round_id, submitted);
    let added = inserted_games(inserts, t.next_game_id);
    let news = submitted.filter(is_new());
    Seq::filter_distributes_over_add(staying.map_values(take), added, inside);
    Seq::filter_distributes_over_add(staying.map_values(take), added, outside);
    assert forall|k: int| 0 <= k < added.len() implies inside(#[trigger] added[k]) && !outside(
        added[k],
    ) by {
        assert(inserts[k] == insert_of(round_id)(news[k]));
    }
    lemma_filter_keeps_all(added, inside);
    crate::seqs::lemma_filter_keeps_none(added, outside);
    // the change does not touch the round of a game
    lemma_filter_of_map(staying, take, inside);
    lemma_filter_of_map(staying, take, outside);
    // the games of the round that stay are those of the round that are named
    let inside_named = |g: Game| inside(g) && named(g);
    assert forall|i: int| 0 <= i < t.games.len() implies inside_named(#[trigger] t.games[i]) == (
    stay(t.games[i]) && inside(t.games[i])) by {}
    lemma_filter_twice(t.games, stay, inside, inside_named);
    assert forall|i: int| 0 <= i < t.games.len() implies inside_named(#[trigger] t.games[i]) == (
    inside(t.games[i]) && named(t.games[i])) by {}
    lemma_filter_twice(t.games, inside, named, inside_named);
    // the games of other rounds all stay, unchanged
    assert forall|i: int| 0 <= i < t.games.len() implies outside(#[trigger] t.games[i]) == (stay(
        t.games[i],
    ) && outside(t.games[i])) by {}
    lemma_filter_twice(t.games, stay, outside, outside);
    let others = staying.filter(outside);
    assert forall|x: int| 0 <= x < others.len() implies take(#[trigger] others[x]) == others[x] by {
        staying.lemma_filter_pred(outside, x);
    }
    assert(others.map_values(take) =~= others);
    assert(staying.map_values(take).filter(outside) + Seq::<Game>::empty() =~= staying.map_values(
        take,
    ).filter(outside));
}

/// A store that accepts the writes of a reconciliation has an identity left
/// for every new game.
pub proof fn lemma_admitted_has_identities(t: Tables, round_id: i32, submitted: Seq<Game>)
    requires
        t.next_game_id <= i32::MAX,
        t.admits_all(game_writes(round_id, submitted, t.games_of_round(round_id))),
    ensures
        t.next_game_id + submitted.filter(is_new()).len() <= i32::MAX,
{
    let persisted = t.games_of_round(round_id);
    let updates = game_updates(submitted, persisted);
    let inserts = game_inserts(round_id, submitted);
    let deletes = game_deletes(submitted, persisted);
    assert(all_update_games(updates));
    assert(all_insert_games(inserts));
    t.lemma_apply_all_concat(updates, inserts);
    t.lemma_apply_all_concat(updates + inserts, deletes);
    lemma_updates_effect(t, updates);
    lemma_inserts_effect(t.apply_all(updates), inserts);
}

} // verus!
