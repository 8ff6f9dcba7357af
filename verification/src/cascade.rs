//! What deleting a round does to the tables.

use crate::rounds::delete_round_writes;
use crate::seqs::lemma_filter_places;
use crate::store::game_is_in_round;
use crate::store::other_round;
use crate::store::outside_round;
use crate::store::tip_outside_round;
use crate::store::Tables;
use crate::store::Write;
use vstd::prelude::*;

verus! {

/// The tables after the three writes that delete a round.
pub open spec fn without_round(t: Tables, round_id: i32) -> Tables {
    Tables {
        rounds: t.rounds.filter(other_round(round_id)),
        games: t.games.filter(outside_round(round_id)),
        tips: t.tips.filter(tip_outside_round(t.games, round_id)),
        ..t
    }
}

/// Applying three writes is applying them one after the other.
pub proof fn lemma_apply_three(t: Tables, a: Write, b: Write, c: Write)
    ensures
        t.apply_all(seq![a, b, c]) == t.apply(a).apply(b).apply(c),
        t.admits_all(seq![a, b, c]) == (t.admits(a) && t.apply(a).admits(b) && t.apply(a).apply(
            b,
        ).admits(c)),
{
    let abc = seq![a, b, c];
    let ab = seq![a, b];
    let one = seq![a];
    assert(abc.drop_last() =~= ab);
    assert(ab.drop_last() =~= one);
    assert(one.drop_last() =~= Seq::<Write>::empty());
    assert(t.apply_all(Seq::<Write>::empty()) == t);
    assert(t.apply_all(one) == t.apply(a));
    assert(t.apply_all(ab) == t.apply(a).apply(b));
    assert(t.admits_all(Seq::<Write>::empty()));
    assert(t.admits_all(one) == t.admits(a));
    assert(t.admits_all(ab) == (t.admits(a) && t.apply(a).admits(b)));
}

/// Deleting a round removes the tips for its games, its games and the round
/// itself, and nothing else.  Each of the three writes is accepted by a
/// store that keeps its references whole, because the rows that refer to a
/// row are gone before the row is removed.  Tables that keep their rules
/// before keep them afterwards.
pub proof fn lemma_delete_round_cascade(t: Tables, round_id: i32)
    ensures
        t.admits_all(delete_round_writes(round_id)),
        t.apply_all(delete_round_writes(round_id)) == without_round(t, round_id),
        !without_round(t, round_id).has_round(round_id),
        !without_round(t, round_id).round_has_games(round_id),
        forall|x: int|
            0 <= x < without_round(t, round_id).tips.len() ==> !game_is_in_round(
                t.games,
                (#[trigger] without_round(t, round_id).tips[x]).game_id,
                round_id,
            ),
        t.wf() ==> without_round(t, round_id).wf(),
{
    let a = Write::DeleteTipsOfRound { round_id };
    let b = Write::DeleteGamesOfRound { round_id };
    let c = Write::DeleteRound { round_id };
    lemma_apply_three(t, a, b, c);
    let after = without_round(t, round_id);
    let t1 = t.apply(a);
    let t2 = t1.apply(b);
    assert(t2.apply(c) == after);
    assert forall|x: int| 0 <= x < after.tips.len() implies !game_is_in_round(
        t.games,
        (#[trigger] after.tips[x]).game_id,
        round_id,
    ) by {
        t.tips.lemma_filter_pred(tip_outside_round(t.games, round_id), x);
    }
    assert(!t1.round_has_tips(round_id));
    assert forall|k: int| 0 <= k < after.games.len() implies (#[trigger] after.games[k]).round_id
        != Some(round_id) by {
        t.games.lemma_filter_pred(outside_round(round_id), k);
    }
    assert(!t2.round_has_games(round_id));
    assert forall|i: int| 0 <= i < after.rounds.len() implies (#[trigger] after.rounds[i]).round_id
        != Some(round_id) by {
        t.rounds.lemma_filter_pred(other_round(round_id), i);
    }
    if t.wf() {
        lemma_delete_keeps_rules(t, round_id);
    }
}

proof fn lemma_delete_keeps_rules(t: Tables, round_id: i32)
    requires
        t.wf(),
    ensures
        without_round(t, round_id).wf(),
{
    let after = without_round(t, round_id);
    let round_at = lemma_filter_places(t.rounds, other_round(round_id));
    let game_at = lemma_filter_places(t.games, outside_round(round_id));
    let tip_at = lemma_filter_places(t.tips, tip_outside_round(t.games, round_id));
    assert forall|i: int| 0 <= i < after.rounds.len() implies {
        let r = #[trigger] after.rounds[i];
        &&& r.round_id is Some
        &&& r.round_id.unwrap() < after.next_round_id
        &&& r.round_number > 0
        &&& r.start_date@ <= r.end_date@
    } by {
        assert(after.rounds[i] == t.rounds[round_at[i]]);
    }
    assert forall|i: int, j: int| 0 <= i < j < after.rounds.len() implies (
    #[trigger] after.rounds[i]).round_id != (#[trigger] after.rounds[j]).round_id
        && after.rounds[i].round_number != after.rounds[j].round_number by {
        assert(after.rounds[i] == t.rounds[round_at[i]]);
        assert(after.rounds[j] == t.rounds[round_at[j]]);
        assert(round_at[i] < round_at[j]);
    }
    assert(after.rounds_wf());
    assert forall|k: int| 0 <= k < after.games.len() implies (#[trigger] after.games[k]).game_id is Some
        && after.games[k].game_id.unwrap() < after.next_game_id by {
        assert(after.games[k] == t.games[game_at[k]]);
    }
    assert forall|j: int, k: int| 0 <= j < k < after.games.len() implies (
    #[trigger] after.games[j]).game_id != (#[trigger] after.games[k]).game_id by {
        assert(after.games[j] == t.games[game_at[j]]);
        assert(after.games[k] == t.games[game_at[k]]);
        assert(game_at[j] < game_at[k]);
    }
    assert(after.games_keyed());
    assert forall|k: int| 0 <= k < after.games.len() implies (
    #[trigger] after.games[k]).home_team_id != after.games[k].away_team_id && after.round_holds(
        after.games[k],
    ) by {
        let g = after.games[k];
        assert(g == t.games[game_at[k]]);
        t.games.lemma_filter_pred(outside_round(round_id), k);
        assert(t.round_holds(g));
        let i = choose|i: int|
            0 <= i < t.rounds.len() && (#[trigger] t.rounds[i]).round_id == g.round_id
                && t.rounds[i].holds_date(g.game_date);
        let r = t.rounds[i];
        assert(other_round(round_id)(r));
        let i2 = choose|i2: int| 0 <= i2 < round_at.len() && #[trigger] round_at[i2] == i;
        assert(after.rounds[i2] == r);
    }
    assert forall|j: int, k: int|
        0 <= j < k < after.games.len() && (#[trigger] after.games[j]).round_id == (
        #[trigger] after.games[k]).round_id implies !after.games[k].involves(
        after.games[j].home_team_id,
    ) && !after.games[k].involves(after.games[j].away_team_id) by {
        assert(after.games[j] == t.games[game_at[j]]);
        assert(after.games[k] == t.games[game_at[k]]);
        assert(game_at[j] < game_at[k]);
    }
    assert(after.games_wf());
    assert forall|x: int| 0 <= x < after.tips.len() implies after.has_game(
        (#[trigger] after.tips[x]).game_id,
    ) by {
        let tip = after.tips[x];
        assert(tip == t.tips[tip_at[x]]);
        t.tips.lemma_filter_pred(tip_outside_round(t.games, round_id), x);
        assert(t.has_game(tip.game_id));
        let k = choose|k: int|
            0 <= k < t.games.len() && (#[trigger] t.games[k]).game_id == Some(tip.game_id);
        assert(outside_round(round_id)(t.games[k]));
        let k2 = choose|k2: int| 0 <= k2 < game_at.len() && #[trigger] game_at[k2] == k;
        assert(after.games[k2] == t.games[k]);
    }
    assert forall|x: int, y: int| 0 <= x < y < after.tips.len() implies !((
    #[trigger] after.tips[x]).tipper_id == (#[trigger] after.tips[y]).tipper_id
        && after.tips[x].game_id == after.tips[y].game_id) by {
        assert(after.tips[x] == t.tips[tip_at[x]]);
        assert(after.tips[y] == t.tips[tip_at[y]]);
        assert(tip_at[x] < tip_at[y]);
    }
    assert(after.tips_wf());
}

} // verus!
