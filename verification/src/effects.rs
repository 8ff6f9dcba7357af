//! What runs of writes of one kind do to the tables.

use crate::game::Game;
use crate::seqs::lemma_filter_twice;
use crate::store::edited_game;
use crate::store::game_edit;
use crate::store::other_game;
use crate::store::Tables;
use crate::store::Write;
use vstd::prelude::*;

verus! {

/// Whether every write of the run stores a new game.
pub open spec fn all_insert_games(writes: Seq<Write>) -> bool {
    forall|k: int| 0 <= k < writes.len() ==> (#[trigger] writes[k]) is InsertGame
}

/// Whether every write of the run replaces a game.
pub open spec fn all_update_games(writes: Seq<Write>) -> bool {
    forall|k: int| 0 <= k < writes.len() ==> (#[trigger] writes[k]) is UpdateGame
}

/// Whether every write of the run removes a game.
pub open spec fn all_delete_games(writes: Seq<Write>) -> bool {
    forall|k: int| 0 <= k < writes.len() ==> (#[trigger] writes[k]) is DeleteGame
}

/// The games that a run of inserts stores, the first of them under the
/// identity `first_id` and each further one under the next.
pub open spec fn inserted_games(writes: Seq<Write>, first_id: int) -> Seq<Game> {
    Seq::new(
        writes.len(),
        |k: int| Game { game_id: Some((first_id + k) as i32), ..writes[k].game_fields() },
    )
}

/// Whether the round of every game that the run stores is stored.
pub open spec fn rounds_are_stored(t: Tables, writes: Seq<Write>) -> bool {
    forall|k: int|
        0 <= k < writes.len() ==> t.has_round(
            (#[trigger] writes[k]).game_fields().round_id.unwrap(),
        )
}

/// A run of inserts appends its games, under identities that follow one
/// another.  The store accepts it when the rounds of the games are stored
/// and enough identities are left.
pub proof fn lemma_inserts_effect(t: Tables, writes: Seq<Write>)
    requires
        all_insert_games(writes),
    ensures
        t.apply_all(writes) == (Tables {
            games: t.games + inserted_games(writes, t.next_game_id),
            next_game_id: t.next_game_id + writes.len(),
            ..t
        }),
        t.admits_all(writes) <==> writes.len() == 0 || (t.next_game_id + writes.len() <= i32::MAX
            && rounds_are_stored(t, writes)),
    decreases writes.len(),
{
    if writes.len() == 0 {
        assert(t.games + inserted_games(writes, t.next_game_id) =~= t.games);
    } else {
        let front = writes.drop_last();
        lemma_inserts_effect(t, front);
        let mid = t.apply_all(front);
        let w = writes.last();
        assert(w is InsertGame);
        assert(mid.games.push(Game { game_id: Some(mid.next_game_id as i32), ..w.game_fields() })
            =~= t.games + inserted_games(writes, t.next_game_id));
        assert(mid.has_round(w.game_fields().round_id.unwrap()) == t.has_round(
            w.game_fields().round_id.unwrap(),
        ));
        if rounds_are_stored(t, writes) {
            assert forall|k: int| 0 <= k < front.len() implies t.has_round(
                (#[trigger] front[k]).game_fields().round_id.unwrap(),
            ) by {
                assert(front[k] == writes[k]);
            }
            assert(t.has_round(writes[writes.len() - 1].game_fields().round_id.unwrap()));
        }
        if front.len() == 0 || rounds_are_stored(t, front) {
            if t.has_round(w.game_fields().round_id.unwrap()) {
                assert forall|k: int| 0 <= k < writes.len() implies t.has_round(
                    (#[trigger] writes[k]).game_fields().round_id.unwrap(),
                ) by {
                    if k < front.len() {
                        assert(front[k] == writes[k]);
                    }
                }
            }
        }
    }
}

/// The game after a run of updates: each update that carries the game's
/// identity replaces teams, date and scores.
pub open spec fn edited_by(updates: Seq<Write>, g: Game) -> Game
    decreases updates.len(),
{
    if updates.len() == 0 {
        g
    } else {
        let before = edited_by(updates.drop_last(), g);
        let last = updates.last().game_fields();
        if before.game_id == last.game_id {
            edited_game(before, last)
        } else {
            before
        }
    }
}

/// The change that a run of updates makes to each game.
pub open spec fn edit_all(updates: Seq<Write>) -> spec_fn(Game) -> Game {
    |g: Game| edited_by(updates, g)
}

/// A run of updates changes each game by itself, and the store accepts it.
pub proof fn lemma_updates_effect(t: Tables, writes: Seq<Write>)
    requires
        all_update_games(writes),
    ensures
        t.apply_all(writes) == (Tables { games: t.games.map_values(edit_all(writes)), ..t }),
        t.admits_all(writes),
    decreases writes.len(),
{
    if writes.len() == 0 {
        assert(t.games.map_values(edit_all(writes)) =~= t.games);
    } else {
        let front = writes.drop_last();
        lemma_updates_effect(t, front);
        let mid = t.apply_all(front);
        let w = writes.last();
        assert(w is UpdateGame);
        let id = w.game_fields().game_id.unwrap();
        assert(mid.apply(w).games == mid.games.map_values(game_edit(id, w.game_fields())));
        assert(mid.games.map_values(game_edit(id, w.game_fields())) =~= t.games.map_values(
            edit_all(writes),
        ));
    }
}

/// A run of updates leaves the identity and the round of a game alone.
pub proof fn lemma_edited_keeps_key(updates: Seq<Write>, g: Game)
    ensures
        edited_by(updates, g).game_id == g.game_id,
        edited_by(updates, g).round_id == g.round_id,
    decreases updates.len(),
{
    if updates.len() > 0 {
        lemma_edited_keeps_key(updates.drop_last(), g);
    }
}

/// Whether one of the deletes removes the game with this identity.
pub open spec fn deletes_key(deletes: Seq<Write>, id: Option<i32>) -> bool {
    id is Some && exists|k: int|
        0 <= k < deletes.len() && #[trigger] deletes[k] == (Write::DeleteGame {
            game_id: id.unwrap(),
        })
}

/// The test that a game passes when none of the deletes removes it.
pub open spec fn survives_deletes(deletes: Seq<Write>) -> spec_fn(Game) -> bool {
    |g: Game| !deletes_key(deletes, g.game_id)
}

/// Whether none of the games that the deletes remove has a tip.
pub open spec fn no_tips_lost(t: Tables, deletes: Seq<Write>) -> bool {
    forall|k: int|
        0 <= k < deletes.len() ==> !t.game_has_tips((#[trigger] deletes[k])->DeleteGame_game_id)
}

/// A run of deletes removes the games whose identities it names.  The store
/// accepts it when none of them has a tip.
pub proof fn lemma_deletes_effect(t: Tables, writes: Seq<Write>)
    requires
        all_delete_games(writes),
    ensures
        t.apply_all(writes) == (Tables { games: t.games.filter(survives_deletes(writes)), ..t }),
        t.admits_all(writes) <==> no_tips_lost(t, writes),
    decreases writes.len(),
{
    if writes.len() == 0 {
        crate::seqs::lemma_filter_keeps_all(t.games, survives_deletes(writes));
    } else {
        let front = writes.drop_last();
        lemma_deletes_effect(t, front);
        let mid = t.apply_all(front);
        let w = writes.last();
        assert(w is DeleteGame);
        let id = w->DeleteGame_game_id;
        assert(w == Write::DeleteGame { game_id: id });
        assert forall|i: int| 0 <= i < t.games.len() implies survives_deletes(writes)(
            #[trigger] t.games[i],
        ) == (survives_deletes(front)(t.games[i]) && other_game(id)(t.games[i])) by {
            let g = t.games[i];
            if deletes_key(writes, g.game_id) {
                let k = choose|k: int|
                    0 <= k < writes.len() && #[trigger] writes[k] == (Write::DeleteGame {
                        game_id: g.game_id.unwrap(),
                    });
                if k < front.len() {
                    assert(front[k] == writes[k]);
                }
            }
            if deletes_key(front, g.game_id) {
                let k = choose|k: int|
                    0 <= k < front.len() && #[trigger] front[k] == (Write::DeleteGame {
                        game_id: g.game_id.unwrap(),
                    });
                assert(writes[k] == front[k]);
            }
            if g.game_id == Some(id) {
                assert(writes[writes.len() - 1] == Write::DeleteGame { game_id: id });
            }
        }
        lemma_filter_twice(
            t.games,
            survives_deletes(front),
            other_game(id),
            survives_deletes(writes),
        );
        if no_tips_lost(t, writes) {
            assert forall|k: int| 0 <= k < front.len() implies !t.game_has_tips(
                (#[trigger] front[k])->DeleteGame_game_id,
            ) by {
                assert(front[k] == writes[k]);
            }
            assert(!t.game_has_tips(writes[writes.len() - 1]->DeleteGame_game_id));
        }
        if no_tips_lost(t, front) && !t.game_has_tips(id) {
            assert forall|k: int| 0 <= k < writes.len() implies !t.game_has_tips(
                (#[trigger] writes[k])->DeleteGame_game_id,
            ) by {
                if k < front.len() {
                    assert(front[k] == writes[k]);
                }
            }
        }
        assert(mid.game_has_tips(id) == t.game_has_tips(id));
    }
}

} // verus!
