//! Creating and updating a round: what the writes do to the tables, and that
//! tables which keep their rules before keep them afterwards.

use crate::effects::inserted_games;
use crate::effects::lemma_inserts_effect;
use crate::game::Game;
use crate::reconcile::last_carrying;
use crate::reconcile::lemma_reconcile_effect;
use crate::reconcile::reconcile_is_admitted;
use crate::reconcile::reconciled;
use crate::reconcile::stays;
use crate::reconcile::takes_submitted;
use crate::round::Round;
use crate::rounds::game_inserts;
use crate::rounds::game_writes;
use crate::rounds::has_id;
use crate::rounds::insert_of;
use crate::rounds::is_new;
use crate::rounds::new_game_writes;
use crate::rounds::round_insert_of;
use crate::rounds::round_update_of;
use crate::rounds::unplayed_insert_of;
use crate::seqs::lemma_filter_places;
use crate::store::round_edit;
use crate::store::Tables;
use crate::store::Write;
use crate::validation::all_within;
use crate::validation::existing_round_violation;
use crate::validation::lemma_games_pass;
use crate::validation::new_round_violation;
use crate::validation::no_team_twice;
use vstd::prelude::*;

verus! {

/// The round as it is stored when it is created: under the next identity.
pub open spec fn created_round(t: Tables, round: Round) -> Round {
    Round { round_id: Some(t.next_round_id as i32), ..round }
}

/// The writes that create a round with its games.
pub open spec fn create_writes(t: Tables, round: Round, submitted: Seq<Game>) -> Seq<Write> {
    seq![round_insert_of(round)] + new_game_writes(t.next_round_id as i32, submitted)
}

/// The tables after a round has been created with its games: the round
/// follows the stored rounds under the next round identity, and the
/// submitted games follow the stored games as games of that round, under
/// identities that follow one another, each without scores.
pub open spec fn created(t: Tables, round: Round, submitted: Seq<Game>) -> Tables {
    Tables {
        rounds: t.rounds.push(created_round(t, round)),
        games: t.games + inserted_games(
            new_game_writes(t.next_round_id as i32, submitted),
            t.next_game_id,
        ),
        next_round_id: t.next_round_id + 1,
        next_game_id: t.next_game_id + submitted.len(),
        ..t
    }
}

/// Whether identities are left for a new round with `n` games.
pub open spec fn creation_is_admitted(t: Tables, n: nat) -> bool {
    t.next_round_id < i32::MAX && (n > 0 ==> t.next_game_id + n <= i32::MAX)
}

/// The writes that create a round turn the tables into the tables with the
/// round created, and a store that keeps its references whole accepts them
/// exactly when identities are left.
pub proof fn lemma_create_effect(t: Tables, round: Round, submitted: Seq<Game>)
    ensures
        t.apply_all(create_writes(t, round, submitted)) == created(t, round, submitted),
        t.admits_all(create_writes(t, round, submitted)) <==> creation_is_admitted(
            t,
            submitted.len(),
        ),
{
    let first = round_insert_of(round);
    let id = t.next_round_id as i32;
    let rest = new_game_writes(id, submitted);
    t.lemma_apply_one(first);
    t.lemma_apply_all_concat(seq![first], rest);
    let t1 = t.apply(first);
    lemma_inserts_effect(t1, rest);
    assert(t1.rounds[t1.rounds.len() - 1].round_id == Some(id));
    assert(t1.has_round(id));
    assert forall|k: int| 0 <= k < rest.len() implies t1.has_round(
        (#[trigger] rest[k]).game_fields().round_id.unwrap(),
    ) by {
        assert(rest[k] == unplayed_insert_of(id)(submitted[k]));
    }
}

/// Creating a round that breaks no rule keeps the rules of the tables.
pub proof fn lemma_created_keeps_rules(t: Tables, round: Round, submitted: Seq<Game>)
    requires
        t.wf(),
        new_round_violation(round, submitted, t.rounds) is None,
        creation_is_admitted(t, submitted.len()),
    ensures
        created(t, round, submitted).wf(),
{
    let after = created(t, round, submitted);
    let id = t.next_round_id as i32;
    let writes = new_game_writes(id, submitted);
    let added = inserted_games(writes, t.next_game_id);
    let old_rounds = t.rounds.len() as int;
    let old_games = t.games.len() as int;
    lemma_games_pass(submitted, round.start_date, round.end_date);
    assert forall|i: int, j: int| 0 <= i < j < after.rounds.len() implies (
    #[trigger] after.rounds[i]).round_id != (#[trigger] after.rounds[j]).round_id
        && after.rounds[i].round_number != after.rounds[j].round_number by {
        if j == old_rounds {
            assert(t.rounds[i].round_number != round.round_number);
        }
    }
    assert(after.rounds_wf());
    assert forall|k: int| old_games <= k < after.games.len() implies {
        let g = #[trigger] after.games[k];
        let s = submitted[k - old_games];
        &&& g.game_id == Some((t.next_game_id + k - old_games) as i32)
        &&& g.round_id == Some(id)
        &&& g.home_team_id == s.home_team_id
        &&& g.away_team_id == s.away_team_id
        &&& g.game_date == s.game_date
    } by {
        assert(after.games[k] == added[k - old_games]);
        assert(writes[k - old_games] == unplayed_insert_of(id)(submitted[k - old_games]));
    }
    assert(after.games_keyed());
    assert forall|k: int| 0 <= k < after.games.len() implies (
    #[trigger] after.games[k]).home_team_id != after.games[k].away_team_id && after.round_holds(
        after.games[k],
    ) by {
        let g = after.games[k];
        if k < old_games {
            assert(g == t.games[k]);
            assert(t.round_holds(g));
            let i = choose|i: int|
                0 <= i < t.rounds.len() && (#[trigger] t.rounds[i]).round_id == g.round_id
                    && t.rounds[i].holds_date(g.game_date);
            assert(after.rounds[i] == t.rounds[i]);
        } else {
            assert(after.rounds[old_rounds] == created_round(t, round));
        }
    }
    assert forall|j: int, k: int|
        0 <= j < k < after.games.len() && (#[trigger] after.games[j]).round_id == (
        #[trigger] after.games[k]).round_id implies !after.games[k].involves(
        after.games[j].home_team_id,
    ) && !after.games[k].involves(after.games[j].away_team_id) by {
        if k < old_games {
            assert(after.games[j] == t.games[j] && after.games[k] == t.games[k]);
        } else if j < old_games {
            let g = t.games[j];
            assert(after.games[j] == g);
            assert(t.round_holds(g));
            let i = choose|i: int|
                0 <= i < t.rounds.len() && (#[trigger] t.rounds[i]).round_id == g.round_id
                    && t.rounds[i].holds_date(g.game_date);
            assert(t.rounds[i].round_id.unwrap() < t.next_round_id);
        } else {
            assert(submitted[k - old_games].involves(submitted[j - old_games].home_team_id)
                == after.games[k].involves(after.games[j].home_team_id));
        }
    }
    assert(after.games_wf());
    assert forall|x: int| 0 <= x < after.tips.len() implies after.has_game(
        (#[trigger] after.tips[x]).game_id,
    ) by {
        let tip = t.tips[x];
        assert(t.has_game(tip.game_id));
        let k = choose|k: int|
            0 <= k < t.games.len() && (#[trigger] t.games[k]).game_id == Some(tip.game_id);
        assert(after.games[k] == t.games[k]);
    }
    assert(after.tips_wf());
}

/// The writes that replace a stored round by a submitted one: the update of
/// the round, then the reconciliation of its games.
pub open spec fn update_writes(t: Tables, round_id: i32, round: Round, submitted: Seq<Game>) -> Seq<
    Write,
> {
    seq![round_update_of(round_id, round)] + game_writes(
        round_id,
        submitted,
        t.games_of_round(round_id),
    )
}

/// The tables after number, dates and bonus of the round have been replaced.
pub open spec fn with_round(t: Tables, round_id: i32, round: Round) -> Tables {
    Tables {
        rounds: t.rounds.map_values(
            round_edit(
                round_id,
                round.round_number,
                round.start_date,
                round.end_date,
                round.bonus_points,
            ),
        ),
        ..t
    }
}

/// The tables after a stored round has been replaced by a submitted one.
pub open spec fn updated(t: Tables, round_id: i32, round: Round, submitted: Seq<Game>) -> Tables {
    reconciled(with_round(t, round_id, round), round_id, submitted)
}

/// Where identities are keys and enough of them are left, the writes that
/// replace a round turn the tables into the updated tables, and a store that
/// keeps its references whole accepts them exactly when the reconciliation
/// is admitted.
pub proof fn lemma_update_effect(t: Tables, round_id: i32, round: Round, submitted: Seq<Game>)
    requires
        t.games_keyed(),
        t.next_game_id + submitted.filter(is_new()).len() <= i32::MAX,
    ensures
        t.apply_all(update_writes(t, round_id, round, submitted)) == updated(
            t,
            round_id,
            round,
            submitted,
        ),
        t.admits_all(update_writes(t, round_id, round, submitted)) <==> reconcile_is_admitted(
            t,
            round_id,
            submitted,
        ),
{
    let first = round_update_of(round_id, round);
    let t0 = with_round(t, round_id, round);
    let rest = game_writes(round_id, submitted, t.games_of_round(round_id));
    t.lemma_apply_one(first);
    t.lemma_apply_all_concat(seq![first], rest);
    assert(t.apply(first) == t0);
    assert(t0.games_of_round(round_id) == t.games_of_round(round_id));
    lemma_reconcile_effect(t0, round_id, submitted);
    assert(t0.has_round(round_id) == t.has_round(round_id)) by {
        if t.has_round(round_id) {
            let i = choose|i: int|
                0 <= i < t.rounds.len() && (#[trigger] t.rounds[i]).round_id == Some(round_id);
            assert(t0.rounds[i].round_id == Some(round_id));
        }
        if t0.has_round(round_id) {
            let i = choose|i: int|
                0 <= i < t0.rounds.len() && (#[trigger] t0.rounds[i]).round_id == Some(round_id);
            assert(t.rounds[i].round_id == Some(round_id));
        }
    }
    assert(forall|id: i32| t0.game_has_tips(id) == t.game_has_tips(id));
}

/// Where identities are keys, a store that keeps its references whole
/// accepts the writes that replace a round exactly when the reconciliation is
/// admitted.
pub proof fn lemma_update_admission(t: Tables, round_id: i32, round: Round, submitted: Seq<Game>)
    requires
        t.games_keyed(),
    ensures
        t.admits_all(update_writes(t, round_id, round, submitted)) <==> reconcile_is_admitted(
            t,
            round_id,
            submitted,
        ),
{
    if t.next_game_id + submitted.filter(is_new()).len() <= i32::MAX {
        lemma_update_effect(t, round_id, round, submitted);
    } else {
        let first = round_update_of(round_id, round);
        let t0 = with_round(t, round_id, round);
        let rest = game_writes(round_id, submitted, t.games_of_round(round_id));
        t.lemma_apply_one(first);
        t.lemma_apply_all_concat(seq![first], rest);
        assert(t.apply(first) == t0);
        assert(t0.games_of_round(round_id) == t.games_of_round(round_id));
        if t0.admits_all(rest) {
            crate::reconcile::lemma_admitted_has_identities(t0, round_id, submitted);
        }
    }
}

/// The last submitted game that carries an identity is one of the submitted
/// games, and it carries the identity.
pub proof fn lemma_last_carrying_place(submitted: Seq<Game>, id: Option<i32>) -> (k: int)
    requires
        has_id(submitted, id),
    ensures
        0 <= k < submitted.len(),
        submitted[k] == last_carrying(submitted, id),
        submitted[k].game_id == id,
    decreases submitted.len(),
{
    if submitted.last().game_id == id {
        submitted.len() - 1
    } else {
        let front = submitted.drop_last();
        let x = choose|x: int| 0 <= x < submitted.len() && (#[trigger] submitted[x]).game_id == id;
        assert(front[x].game_id == id);
        lemma_last_carrying_place(front, id)
    }
}

/// Where each game of the reconciled tables comes from.
pub struct Origins {
    /// For each game that stayed, its place among the stored games.
    pub stored_at: Seq<int>,
    /// For each game of the round, the place among the submitted games of
    /// the game whose teams, date and scores it has. For the games of other
    /// rounds, -1.
    pub submitted_at: Seq<int>,
}

/// Whether the origins are those of the games of the reconciled tables.
pub open spec fn are_origins(o: Origins, t: Tables, round_id: i32, submitted: Seq<Game>) -> bool {
    let after = reconciled(t, round_id, submitted).games;
    let stayed = o.stored_at.len();
    &&& after.len() == stayed + submitted.filter(is_new()).len()
    &&& o.submitted_at.len() == after.len()
    &&& forall|a: int|
        0 <= a < stayed ==> {
            let g = #[trigger] after[a];
            let from = t.games[o.stored_at[a]];
            &&& 0 <= o.stored_at[a] < t.games.len()
            &&& g.game_id == from.game_id
            &&& g.round_id == from.round_id
            &&& g.round_id != Some(round_id) ==> g == from
        }
    &&& forall|a: int, b: int|
        0 <= a < b < stayed ==> #[trigger] o.stored_at[a] < #[trigger] o.stored_at[b]
    &&& forall|i: int|
        0 <= i < t.games.len() && stays(round_id, submitted)(t.games[i]) ==> exists|a: int|
            0 <= a < stayed && #[trigger] o.stored_at[a] == i
    &&& forall|a: int|
        stayed <= a < after.len() ==> (#[trigger] after[a]).round_id == Some(round_id)
            && after[a].game_id == Some((t.next_game_id + a - stayed) as i32)
    &&& forall|a: int|
        0 <= a < after.len() && (#[trigger] after[a]).round_id == Some(round_id) ==> {
            let s = submitted[o.submitted_at[a]];
            &&& 0 <= o.submitted_at[a] < submitted.len()
            &&& after[a].home_team_id == s.home_team_id
            &&& after[a].away_team_id == s.away_team_id
            &&& after[a].game_date == s.game_date
            &&& after[a].home_team_score == s.home_team_score
            &&& after[a].away_team_score == s.away_team_score
            &&& a < stayed ==> s.game_id == after[a].game_id
            &&& a >= stayed ==> s.game_id is None
        }
    &&& forall|a: int, b: int|
        stayed <= a < b < after.len() ==> #[trigger] o.submitted_at[a] < #[trigger] o.submitted_at[b]
}

/// The games of the reconciled tables have origins.
pub proof fn lemma_reconciled_origins(t: Tables, round_id: i32, submitted: Seq<Game>) -> (o:
    Origins)
    requires
        t.games_keyed(),
    ensures
        are_origins(o, t, round_id, submitted),
{
    let stay = stays(round_id, submitted);
    let take = takes_submitted(round_id, submitted);
    let staying = t.games.filter(stay);
    let edited = staying.map_values(take);
    let news = submitted.filter(is_new());
    let inserts = game_inserts(round_id, submitted);
    let added = inserted_games(inserts, t.next_game_id);
    let after = reconciled(t, round_id, submitted).games;
    let stored_at = lemma_filter_places(t.games, stay);
    let new_at = lemma_filter_places(submitted, is_new());
    let stayed = staying.len() as int;
    assert(after.len() == stayed + news.len());
    assert forall|a: int| 0 <= a < stayed implies #[trigger] after[a] == take(
        t.games[stored_at[a]],
    ) by {
        assert(after[a] == edited[a]);
    }
    assert forall|a: int| stayed <= a < after.len() implies {
        let s = news[a - stayed];
        let g = #[trigger] after[a];
        &&& g.round_id == Some(round_id)
        &&& g.game_id == Some((t.next_game_id + a - stayed) as i32)
        &&& g.home_team_id == s.home_team_id
        &&& g.away_team_id == s.away_team_id
        &&& g.game_date == s.game_date
        &&& g.home_team_score == s.home_team_score
        &&& g.away_team_score == s.away_team_score
        &&& s == submitted[new_at[a - stayed]]
        &&& s.game_id is None
    } by {
        assert(after[a] == added[a - stayed]);
        assert(inserts[a - stayed] == insert_of(round_id)(news[a - stayed]));
        submitted.lemma_filter_pred(is_new(), a - stayed);
    }
    let submitted_at = Seq::new(
        after.len(),
        |a: int|
            if a < stayed {
                if t.games[stored_at[a]].round_id == Some(round_id) {
                    choose|k: int|
                        0 <= k < submitted.len() && submitted[k] == last_carrying(
                            submitted,
                            t.games[stored_at[a]].game_id,
                        ) && submitted[k].game_id == t.games[stored_at[a]].game_id
                } else {
                    -1
                }
            } else {
                new_at[a - stayed]
            },
    );
    let o = Origins { stored_at, submitted_at };
    assert forall|a: int|
        0 <= a < after.len() && (#[trigger] after[a]).round_id == Some(round_id) implies {
        let s = submitted[o.submitted_at[a]];
        &&& 0 <= o.submitted_at[a] < submitted.len()
        &&& after[a].home_team_id == s.home_team_id
        &&& after[a].away_team_id == s.away_team_id
        &&& after[a].game_date == s.game_date
        &&& after[a].home_team_score == s.home_team_score
        &&& after[a].away_team_score == s.away_team_score
        &&& a < stayed ==> s.game_id == after[a].game_id
        &&& a >= stayed ==> s.game_id is None
    } by {
        if a < stayed {
            let from = t.games[stored_at[a]];
            assert(after[a] == take(from));
            assert(staying[a] == from);
            t.games.lemma_filter_pred(stay, a);
            assert(stay(from));
            assert(has_id(submitted, from.game_id));
            let k = lemma_last_carrying_place(submitted, from.game_id);
        }
    }
    o
}

/// Replacing a stored round by a submitted one that breaks no rule keeps the
/// rules of the tables, where the store accepts the writes.
pub proof fn lemma_updated_keeps_rules(
    t: Tables,
    round_id: i32,
    round: Round,
    submitted: Seq<Game>,
)
    requires
        t.wf(),
        t.has_round(round_id),
        existing_round_violation(round, round_id, submitted, t.rounds) is None,
        reconcile_is_admitted(t, round_id, submitted),
        t.next_game_id + submitted.filter(is_new()).len() <= i32::MAX,
    ensures
        updated(t, round_id, round, submitted).wf(),
{
    let t0 = with_round(t, round_id, round);
    let after = updated(t, round_id, round, submitted);
    let o = lemma_reconciled_origins(t0, round_id, submitted);
    let stayed = o.stored_at.len() as int;
    lemma_games_pass(submitted, round.start_date, round.end_date);
    assert(no_team_twice(submitted));
    assert(all_within(submitted, round.start_date, round.end_date));
    // the rounds
    let here = choose|i: int|
        0 <= i < t.rounds.len() && (#[trigger] t.rounds[i]).round_id == Some(round_id);
    assert forall|i: int, j: int| 0 <= i < j < after.rounds.len() implies (
    #[trigger] after.rounds[i]).round_id != (#[trigger] after.rounds[j]).round_id
        && after.rounds[i].round_number != after.rounds[j].round_number by {
        assert(t.rounds[i].round_id != t.rounds[j].round_id);
        assert(t.rounds[i].round_number != t.rounds[j].round_number);
    }
    assert(after.rounds_wf());
    assert(after.rounds[here].round_id == Some(round_id));
    assert(after.rounds[here].start_date == round.start_date);
    assert(after.rounds[here].end_date == round.end_date);
    // identities of the games
    assert(after.games == reconciled(t0, round_id, submitted).games);
    assert(t0.games == t.games);
    assert(stayed <= after.games.len());
    assert forall|k: int| 0 <= k < after.games.len() implies (#[trigger] after.games[k]).game_id is Some
        && after.games[k].game_id.unwrap() < after.next_game_id by {
        if k < stayed {
            assert(0 <= o.stored_at[k] < t0.games.len());
            assert(t.games[o.stored_at[k]].game_id is Some);
        } else {
            assert(after.games[k].game_id == Some((t.next_game_id + k - stayed) as i32));
            assert(after.games.len() - stayed == submitted.filter(is_new()).len());
        }
    }
    assert forall|j: int, k: int| 0 <= j < k < after.games.len() implies (
    #[trigger] after.games[j]).game_id != (#[trigger] after.games[k]).game_id by {
        if k < stayed {
            assert(0 <= o.stored_at[j] < t0.games.len());
            assert(0 <= o.stored_at[k] < t0.games.len());
            assert(o.stored_at[j] < o.stored_at[k]);
            assert(t.games[o.stored_at[j]].game_id != t.games[o.stored_at[k]].game_id);
        } else if j < stayed {
            assert(0 <= o.stored_at[j] < t0.games.len());
            assert(t.games[o.stored_at[j]].game_id.unwrap() < t.next_game_id);
            assert(after.games[k].game_id == Some((t.next_game_id + k - stayed) as i32));
        } else {
            assert(after.games[j].game_id == Some((t.next_game_id + j - stayed) as i32));
            assert(after.games[k].game_id == Some((t.next_game_id + k - stayed) as i32));
        }
    }
    assert(after.games_keyed());
    // each game
    assert forall|k: int| 0 <= k < after.games.len() implies (
    #[trigger] after.games[k]).home_team_id != after.games[k].away_team_id && after.round_holds(
        after.games[k],
    ) by {
        let g = after.games[k];
        if g.round_id == Some(round_id) {
            let s = submitted[o.submitted_at[k]];
            assert(s.home_team_id != s.away_team_id);
            assert(round.start_date@ <= s.game_date@ <= round.end_date@);
            assert(after.rounds[here].holds_date(g.game_date));
        } else {
            let from = t.games[o.stored_at[k]];
            assert(g == from);
            assert(t.round_holds(from));
            let i = choose|i: int|
                0 <= i < t.rounds.len() && (#[trigger] t.rounds[i]).round_id == from.round_id
                    && t.rounds[i].holds_date(from.game_date);
            assert(after.rounds[i] == t.rounds[i]);
        }
    }
    // no team twice in a round
    assert forall|j: int, k: int|
        0 <= j < k < after.games.len() && (#[trigger] after.games[j]).round_id == (
        #[trigger] after.games[k]).round_id implies !after.games[k].involves(
        after.games[j].home_team_id,
    ) && !after.games[k].involves(after.games[j].away_team_id) by {
        let gj = after.games[j];
        let gk = after.games[k];
        if gj.round_id == Some(round_id) {
            let sj = o.submitted_at[j];
            let sk = o.submitted_at[k];
            assert(gj.game_id != gk.game_id);
            if k < stayed {
                assert(submitted[sj].game_id != submitted[sk].game_id);
            } else if j < stayed {
                assert(submitted[sj].game_id is Some);
                assert(submitted[sk].game_id is None);
            } else {
                assert(sj < sk);
            }
            assert(sj != sk);
            if sj < sk {
                assert(!submitted[sk].involves(submitted[sj].home_team_id));
                assert(!submitted[sk].involves(submitted[sj].away_team_id));
            } else {
                assert(!submitted[sj].involves(submitted[sk].home_team_id));
                assert(!submitted[sj].involves(submitted[sk].away_team_id));
            }
        } else {
            assert(gj == t.games[o.stored_at[j]]);
            assert(gk == t.games[o.stored_at[k]]);
            assert(o.stored_at[j] < o.stored_at[k]);
        }
    }
    assert(after.games_wf());
    // the tips
    assert forall|x: int| 0 <= x < after.tips.len() implies after.has_game(
        (#[trigger] after.tips[x]).game_id,
    ) by {
        let tip = t.tips[x];
        assert(t.has_game(tip.game_id));
        let i = choose|i: int|
            0 <= i < t.games.len() && (#[trigger] t.games[i]).game_id == Some(tip.game_id);
        if !stays(round_id, submitted)(t.games[i]) {
            assert(t.game_has_tips(t.games[i].game_id.unwrap()));
        }
        let a = choose|a: int| 0 <= a < stayed && #[trigger] o.stored_at[a] == i;
        assert(after.games[a].game_id == Some(tip.game_id));
    }
    assert(after.tips_wf());
}

} // verus!
