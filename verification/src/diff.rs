//! What replacing a stored round by a submitted one comes to, said of the
//! round as a whole.

use crate::effects::inserted_games;
use crate::game::Game;
use crate::integrity::lemma_last_carrying_place;
use crate::integrity::updated;
use crate::integrity::with_round;
use crate::reconcile::is_named_in;
use crate::reconcile::last_carrying;
use crate::reconcile::lemma_reconciled_round;
use crate::reconcile::takes_submitted;
use crate::round::Round;
use crate::rounds::first_unknown;
use crate::rounds::game_inserts;
use crate::rounds::has_id;
use crate::rounds::insert_of;
use crate::rounds::is_new;
use crate::rounds::lemma_first_unknown;
use crate::rounds::names_known_game;
use crate::seqs::lemma_filter_membership;
use crate::seqs::lemma_filter_places;
use crate::seqs::lemma_filter_split;
use crate::store::inside_round;
use crate::store::outside_round;
use crate::store::Tables;
use vstd::prelude::*;

verus! {

/// Whether no two submitted games carry the same identity.
pub open spec fn carried_once(submitted: Seq<Game>) -> bool {
    forall|j: int, k: int|
        0 <= j < k < submitted.len() && (#[trigger] submitted[j]).game_id is Some
            ==> submitted[j].game_id != (#[trigger] submitted[k]).game_id
}

/// The test that a submitted game passes when it carries an identity.
pub open spec fn carries_identity() -> spec_fn(Game) -> bool {
    |s: Game| s.game_id is Some
}

/// The identity of a game.
pub open spec fn identity_of() -> spec_fn(Game) -> Option<i32> {
    |g: Game| g.game_id
}

/// Whether the stored game has the teams, the date and the scores of the
/// submitted one.
pub open spec fn has_fields_of(g: Game, s: Game) -> bool {
    &&& g.home_team_id == s.home_team_id
    &&& g.away_team_id == s.away_team_id
    &&& g.game_date == s.game_date
    &&& g.home_team_score == s.home_team_score
    &&& g.away_team_score == s.away_team_score
}

/// Whether the stored game is what one of the submitted games asks for: it
/// has that game's teams, date and scores, and its identity if that game
/// carries one.
pub open spec fn is_as_submitted(g: Game, submitted: Seq<Game>) -> bool {
    exists|k: int|
        0 <= k < submitted.len() && has_fields_of(g, #[trigger] submitted[k]) && (
        submitted[k].game_id is None || submitted[k].game_id == g.game_id)
}

/// The stored games of the round that a submitted game names are as many as
/// the submitted games that carry an identity, where none is carried twice
/// and none is unknown.
proof fn lemma_named_count(t: Tables, round_id: i32, submitted: Seq<Game>)
    requires
        t.games_keyed(),
        first_unknown(submitted, t.games_of_round(round_id)) is None,
        carried_once(submitted),
    ensures
        t.games_of_round(round_id).filter(is_named_in(submitted)).len() == submitted.filter(
            carries_identity(),
        ).len(),
{
    let persisted = t.games_of_round(round_id);
    let named = persisted.filter(is_named_in(submitted));
    let carriers = submitted.filter(carries_identity());
    let stored_at = lemma_filter_places(t.games, inside_round(round_id));
    let named_at = lemma_filter_places(persisted, is_named_in(submitted));
    let carried_at = lemma_filter_places(submitted, carries_identity());
    let left = named.map_values(identity_of());
    let right = carriers.map_values(identity_of());
    lemma_first_unknown(submitted, persisted);
    assert forall|a: int, b: int| 0 <= a < b < left.len() implies left[a] != left[b] by {
        let x = stored_at[named_at[a]];
        let y = stored_at[named_at[b]];
        assert(named_at[a] < named_at[b]);
        assert(x < y);
        assert(named[a] == t.games[x]);
        assert(named[b] == t.games[y]);
        assert(t.games[x].game_id != t.games[y].game_id);
    }
    assert forall|a: int, b: int| 0 <= a < b < right.len() implies right[a] != right[b] by {
        submitted.lemma_filter_pred(carries_identity(), a);
        assert(carried_at[a] < carried_at[b]);
        assert(carriers[a] == submitted[carried_at[a]]);
        assert(carriers[b] == submitted[carried_at[b]]);
    }
    assert forall|x: Option<i32>| left.contains(x) <==> right.contains(x) by {
        if left.contains(x) {
            let a = choose|a: int| 0 <= a < left.len() && left[a] == x;
            persisted.lemma_filter_pred(is_named_in(submitted), a);
            assert(has_id(submitted, x));
            let k = choose|k: int| 0 <= k < submitted.len() && (#[trigger] submitted[k]).game_id == x;
            assert(submitted.contains(submitted[k]));
            lemma_filter_membership(submitted, carries_identity(), submitted[k]);
            let b = choose|b: int| 0 <= b < carriers.len() && carriers[b] == submitted[k];
            assert(right[b] == x);
        }
        if right.contains(x) {
            let b = choose|b: int| 0 <= b < right.len() && right[b] == x;
            submitted.lemma_filter_pred(carries_identity(), b);
            let s = submitted[carried_at[b]];
            assert(carriers[b] == s);
            assert(names_known_game(s, persisted));
            assert(has_id(persisted, x));
            let i = choose|i: int| 0 <= i < persisted.len() && (#[trigger] persisted[i]).game_id == x;
            assert(has_id(submitted, persisted[i].game_id)) by {
                assert(submitted[carried_at[b]].game_id == x);
            }
            assert(persisted.contains(persisted[i]));
            lemma_filter_membership(persisted, is_named_in(submitted), persisted[i]);
            let a = choose|a: int| 0 <= a < named.len() && named[a] == persisted[i];
            assert(left[a] == x);
        }
    }
    assert(left.to_set() =~= right.to_set());
    left.unique_seq_to_set();
    right.unique_seq_to_set();
}

/// What replacing a round comes to.  Where identities are keys, every
/// identity that a submitted game carries is that of a stored game of the
/// round, and enough identities are left:
///
/// - the round keeps its identity and has the submitted number, dates and
///   bonus, and the other rounds, the tips and the games of other rounds are
///   untouched;
/// - the identities of the round's games are exactly those that the
///   submitted games carry, together with one new identity for each
///   submitted game that carries none, and no stored game had a new one;
/// - every game of the round is what one of the submitted games asks for;
/// - so, where no identity is carried twice, the round has as many games as
///   were submitted, and the stored game with an identity has the teams,
///   date and scores of the submitted game that carries it.
pub proof fn lemma_update_diff(t: Tables, round_id: i32, round: Round, submitted: Seq<Game>)
    requires
        t.games_keyed(),
        first_unknown(submitted, t.games_of_round(round_id)) is None,
        t.next_game_id + submitted.filter(is_new()).len() <= i32::MAX,
    ensures
        ({
            let after = updated(t, round_id, round, submitted);
            let games = after.games_of_round(round_id);
            let news = submitted.filter(is_new()).len();
            &&& after.rounds.len() == t.rounds.len()
            &&& forall|i: int|
                0 <= i < t.rounds.len() ==> #[trigger] after.rounds[i] == if t.rounds[i].round_id
                    == Some(round_id) {
                    Round { round_id: Some(round_id), ..round }
                } else {
                    t.rounds[i]
                }
            &&& after.tips == t.tips
            &&& after.games.filter(outside_round(round_id)) == t.games.filter(
                outside_round(round_id),
            )
            &&& forall|id: i32|
                #![trigger has_id(games, Some(id))]
                has_id(games, Some(id)) <==> has_id(submitted, Some(id)) || t.next_game_id <= id
                    < t.next_game_id + news
            &&& forall|id: i32| t.next_game_id <= id ==> !#[trigger] t.has_game(id)
            &&& forall|a: int|
                0 <= a < games.len() ==> (#[trigger] games[a]).round_id == Some(round_id)
                    && is_as_submitted(games[a], submitted)
            &&& carried_once(submitted) ==> games.len() == submitted.len()
            &&& carried_once(submitted) ==> forall|a: int, k: int|
                0 <= a < games.len() && 0 <= k < submitted.len() && (#[trigger] games[a]).game_id
                    == (#[trigger] submitted[k]).game_id ==> has_fields_of(games[a], submitted[k])
        }),
{
    let t0 = with_round(t, round_id, round);
    let after = updated(t, round_id, round, submitted);
    let games = after.games_of_round(round_id);
    let persisted = t.games_of_round(round_id);
    assert(t0.games_of_round(round_id) == persisted);
    let named = persisted.filter(is_named_in(submitted));
    let take = takes_submitted(round_id, submitted);
    let news = submitted.filter(is_new());
    let inserts = game_inserts(round_id, submitted);
    let added = inserted_games(inserts, t.next_game_id);
    lemma_reconciled_round(t0, round_id, submitted);
    lemma_first_unknown(submitted, persisted);
    let new_at = lemma_filter_places(submitted, is_new());
    assert(games == named.map_values(take) + added);
    let kept = named.len() as int;
    // each game of the round afterwards
    assert forall|a: int| 0 <= a < kept implies {
        let g = #[trigger] games[a];
        &&& g.game_id == named[a].game_id
        &&& g.round_id == Some(round_id)
        &&& has_id(submitted, g.game_id)
        &&& is_as_submitted(g, submitted)
    } by {
        let p = named[a];
        assert(games[a] == take(p));
        persisted.lemma_filter_pred(is_named_in(submitted), a);
        assert(named.contains(p));
        lemma_filter_membership(persisted, is_named_in(submitted), p);
        lemma_filter_membership(t.games, inside_round(round_id), p);
        let k = lemma_last_carrying_place(submitted, p.game_id);
        assert(submitted[k] == last_carrying(submitted, p.game_id));
        assert(has_fields_of(games[a], submitted[k]));
    }
    assert forall|a: int| kept <= a < games.len() implies {
        let g = #[trigger] games[a];
        &&& g.game_id == Some((t.next_game_id + a - kept) as i32)
        &&& g.round_id == Some(round_id)
        &&& is_as_submitted(g, submitted)
    } by {
        let m = a - kept;
        assert(games[a] == added[m]);
        assert(inserts[m] == insert_of(round_id)(news[m]));
        submitted.lemma_filter_pred(is_new(), m);
        assert(news[m] == submitted[new_at[m]]);
        assert(has_fields_of(games[a], submitted[new_at[m]]));
    }
    // the identities of the stored games were given out before
    assert forall|id: i32| t.next_game_id <= id implies !#[trigger] t.has_game(id) by {
        if t.has_game(id) {
            let k = choose|k: int| 0 <= k < t.games.len() && (#[trigger] t.games[k]).game_id == Some(id);
            assert(t.games[k].game_id.unwrap() < t.next_game_id);
        }
    }
    // the identities of the round's games afterwards
    assert forall|id: i32|
        #![trigger has_id(games, Some(id))]
        has_id(games, Some(id)) <==> has_id(submitted, Some(id)) || t.next_game_id <= id
            < t.next_game_id + news.len() by {
        if has_id(games, Some(id)) {
            let a = choose|a: int| 0 <= a < games.len() && (#[trigger] games[a]).game_id == Some(id);
            if a < kept {
                assert(has_id(submitted, games[a].game_id));
            }
        }
        if has_id(submitted, Some(id)) {
            let k = choose|k: int|
                0 <= k < submitted.len() && (#[trigger] submitted[k]).game_id == Some(id);
            assert(names_known_game(submitted[k], persisted));
            let i = choose|i: int|
                0 <= i < persisted.len() && (#[trigger] persisted[i]).game_id == Some(id);
            assert(has_id(submitted, persisted[i].game_id));
            assert(persisted.contains(persisted[i]));
            lemma_filter_membership(persisted, is_named_in(submitted), persisted[i]);
            let a = choose|a: int| 0 <= a < named.len() && named[a] == persisted[i];
            assert(games[a].game_id == Some(id));
        }
        if t.next_game_id <= id < t.next_game_id + news.len() {
            let a = kept + (id - t.next_game_id);
            assert(games[a].game_id == Some(id));
        }
    }
    // the count, and which submitted game a stored game follows
    if carried_once(submitted) {
        lemma_named_count(t, round_id, submitted);
        lemma_filter_split(submitted, is_new(), carries_identity());
        assert forall|a: int, k: int|
            0 <= a < games.len() && 0 <= k < submitted.len() && (#[trigger] games[a]).game_id == (
            #[trigger] submitted[k]).game_id implies has_fields_of(games[a], submitted[k]) by {
            let id = submitted[k].game_id;
            assert(names_known_game(submitted[k], persisted));
            let i = choose|i: int| 0 <= i < persisted.len() && (#[trigger] persisted[i]).game_id == id;
            assert(persisted.contains(persisted[i]));
            lemma_filter_membership(t.games, inside_round(round_id), persisted[i]);
            let x = choose|x: int| 0 <= x < t.games.len() && t.games[x] == persisted[i];
            assert(t.games[x].game_id.unwrap() < t.next_game_id);
            if a < kept {
                let from = lemma_last_carrying_place(submitted, named[a].game_id);
                assert(submitted[from] == last_carrying(submitted, named[a].game_id));
                assert(games[a] == take(named[a]));
                persisted.lemma_filter_pred(is_named_in(submitted), a);
                assert(named.contains(named[a]));
                lemma_filter_membership(persisted, is_named_in(submitted), named[a]);
                lemma_filter_membership(t.games, inside_round(round_id), named[a]);
                assert(from == k);
            }
        }
    }
}

} // verus!
