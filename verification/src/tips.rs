//! The tip operations: storing the tips of a competitor and reading them
//! back.

use crate::error::ApiError;
use crate::error::ApiErrorView;
use crate::http::Endpoint;
use crate::http::Method;
use crate::http::Route;
use crate::store::game_is_in_round;
use crate::store::is_game_of_round;
use crate::store::Store;
use crate::store::Tables;
use crate::tip::Tip;
use vstd::prelude::*;

verus! {

/// The routes of the tip operations.
pub fn routes() -> (table: Vec<Route>)
    ensures
        table@.len() == 3,
        table@[0].is(Method::Get, "/api/tips/<tipper_id>/<round_id>"@, Endpoint::GetTips),
        table@[1].is(Method::Post, "/api/tips/<_tipper_id>/<_round_id>"@, Endpoint::SaveTips),
        table@[2].is(Method::Get, "/api/tips/exists/round/<round_id>"@, Endpoint::TipsExist),
{
    let mut table: Vec<Route> = Vec::new();
    table.push(
        Route {
            method: Method::Get,
            path: "/api/tips/<tipper_id>/<round_id>",
            endpoint: Endpoint::GetTips,
        },
    );
    table.push(
        Route {
            method: Method::Post,
            path: "/api/tips/<_tipper_id>/<_round_id>",
            endpoint: Endpoint::SaveTips,
        },
    );
    table.push(
        Route {
            method: Method::Get,
            path: "/api/tips/exists/round/<round_id>",
            endpoint: Endpoint::TipsExist,
        },
    );
    table
}

/// Whether a tip must be stored as a new row: the update of the
/// competitor's tip for the game has changed no row, so there was none.
pub fn needs_insert(rows_affected: u64) -> (insert: bool)
    ensures
        insert == (rows_affected == 0),
{
    rows_affected == 0
}

/// Whether the two tips are of the same competitor for the same game.
pub open spec fn same_key(a: Tip, b: Tip) -> bool {
    a.tipper_id == b.tipper_id && a.game_id == b.game_id
}

/// Whether the competitor's tip for the game is among the tips.
pub open spec fn has_tip(tips: Seq<Tip>, tip: Tip) -> bool {
    exists|x: int| 0 <= x < tips.len() && same_key(#[trigger] tips[x], tip)
}

/// The change that saving a tip makes to each stored tip: the tip of the
/// same competitor for the same game takes the team picked.
pub open spec fn repick(tip: Tip) -> spec_fn(Tip) -> Tip {
    |t: Tip|
        if same_key(t, tip) {
            tip
        } else {
            t
        }
}

/// The tips after one tip has been saved: the competitor's tip for the game
/// takes the team picked, or the tip is added where there was none.
pub open spec fn with_tip(tips: Seq<Tip>, tip: Tip) -> Seq<Tip> {
    if has_tip(tips, tip) {
        tips.map_values(repick(tip))
    } else {
        tips.push(tip)
    }
}

/// The tips after the tips have been saved, one after the other.
pub open spec fn with_tips(tips: Seq<Tip>, saved: Seq<Tip>) -> Seq<Tip>
    decreases saved.len(),
{
    if saved.len() == 0 {
        tips
    } else {
        with_tip(with_tips(tips, saved.drop_last()), saved.last())
    }
}

/// Whether every one of the tips is for a stored game.
pub open spec fn all_for_stored_games(t: Tables, saved: Seq<Tip>) -> bool {
    forall|x: int| 0 <= x < saved.len() ==> t.has_game((#[trigger] saved[x]).game_id)
}

/// Saving a tip for a stored game keeps the rules of the tip table.
pub proof fn lemma_with_tip_keeps_rules(t: Tables, tip: Tip)
    requires
        t.tips_wf(),
        t.has_game(tip.game_id),
    ensures
        (Tables { tips: with_tip(t.tips, tip), ..t }).tips_wf(),
{
    let after = Tables { tips: with_tip(t.tips, tip), ..t };
    if has_tip(t.tips, tip) {
        assert forall|x: int| 0 <= x < after.tips.len() implies after.has_game(
            (#[trigger] after.tips[x]).game_id,
        ) by {
            assert(t.has_game(t.tips[x].game_id));
        }
        assert forall|x: int, y: int| 0 <= x < y < after.tips.len() implies !same_key(
            #[trigger] after.tips[x],
            #[trigger] after.tips[y],
        ) by {
            assert(!same_key(t.tips[x], t.tips[y]));
        }
    } else {
        assert forall|x: int| 0 <= x < after.tips.len() implies after.has_game(
            (#[trigger] after.tips[x]).game_id,
        ) by {
            if x < t.tips.len() {
                assert(t.has_game(t.tips[x].game_id));
            }
        }
        assert forall|x: int, y: int| 0 <= x < y < after.tips.len() implies !same_key(
            #[trigger] after.tips[x],
            #[trigger] after.tips[y],
        ) by {
            if y < t.tips.len() {
                assert(!same_key(t.tips[x], t.tips[y]));
            } else {
                assert(!same_key(t.tips[x], tip));
            }
        }
    }
}

/// Saving tips for stored games keeps the rules of the tip table.
pub proof fn lemma_with_tips_keeps_rules(t: Tables, saved: Seq<Tip>)
    requires
        t.tips_wf(),
        all_for_stored_games(t, saved),
    ensures
        (Tables { tips: with_tips(t.tips, saved), ..t }).tips_wf(),
    decreases saved.len(),
{
    if saved.len() > 0 {
        let front = saved.drop_last();
        assert forall|x: int| 0 <= x < front.len() implies t.has_game(
            (#[trigger] front[x]).game_id,
        ) by {
            assert(front[x] == saved[x]);
        }
        lemma_with_tips_keeps_rules(t, front);
        let mid = Tables { tips: with_tips(t.tips, front), ..t };
        assert(t.has_game(saved[saved.len() - 1].game_id));
        assert(mid.has_game(saved.last().game_id));
        lemma_with_tip_keeps_rules(mid, saved.last());
    }
}

/// Stores one tip in the list: as the competitor's tip for the game where
/// there is one, as a new tip otherwise.
fn save_tip(tips: &mut Vec<Tip>, tip: Tip)
    ensures
        final(tips)@ == with_tip(old(tips)@, tip),
{
    let ghost before = tips@;
    let mut found = false;
    let mut x: usize = 0;
    while x < tips.len()
        invariant
            x <= tips.len(),
            tips.len() == before.len(),
            found == has_tip(before.take(x as int), tip),
            forall|j: int| 0 <= j < x ==> tips[j] == repick(tip)(before[j]),
            forall|j: int| x <= j < before.len() ==> tips[j] == before[j],
        decreases tips.len() - x,
    {
        let t: Tip = tips[x];
        proof {
            let shorter = before.take(x as int);
            let longer = before.take(x + 1);
            if has_tip(shorter, tip) {
                let j = choose|j: int| 0 <= j < shorter.len() && same_key(#[trigger] shorter[j], tip);
                assert(same_key(longer[j], tip));
            }
            if has_tip(longer, tip) && !same_key(t, tip) {
                let j = choose|j: int| 0 <= j < longer.len() && same_key(#[trigger] longer[j], tip);
                assert(same_key(shorter[j], tip));
            }
            if same_key(t, tip) {
                assert(same_key(longer[x as int], tip));
            }
        }
        if t.tipper_id == tip.tipper_id && t.game_id == tip.game_id {
            tips.set(x, tip);
            found = true;
        }
        x = x + 1;
    }
    assert(before.take(before.len() as int) =~= before);
    if !found {
        assert(tips@ =~= before);
        tips.push(tip);
    } else {
        assert(tips@ =~= before.map_values(repick(tip)));
    }
}

/// Stores the tips as one transaction.  Each tip replaces the competitor's
/// tip for the game where there is one and is added otherwise.  Where one of
/// the tips is for a game that is not stored, nothing is stored.
pub fn save_tips_for_round(store: &mut Store, tips: &Vec<Tip>) -> (r: Result<(), ApiError>)
    ensures
        if all_for_stored_games(old(store)@, tips@) {
            r is Ok && final(store)@ == (Tables {
                tips: with_tips(old(store)@.tips, tips@),
                ..old(store)@
            })
        } else {
            (r matches Err(e) && e@ == ApiErrorView::Db("the game of the tip is not stored"@))
                && final(store)@ == old(store)@
        },
        old(store)@.wf() ==> final(store)@.wf(),
{
    let mut x: usize = 0;
    while x < tips.len()
        invariant
            x <= tips.len(),
            store@ == old(store)@,
            forall|j: int| 0 <= j < x ==> store@.has_game((#[trigger] tips[j]).game_id),
        decreases tips.len() - x,
    {
        if !store_has_game(store, tips[x].game_id) {
            return Err(ApiError::Db(String::from_str("the game of the tip is not stored")));
        }
        x = x + 1;
    }
    proof {
        if store@.tips_wf() {
            lemma_with_tips_keeps_rules(store@, tips@);
        }
    }
    let ghost before = store.tips@;
    x = 0;
    assert(tips@.take(0) =~= Seq::<Tip>::empty());
    while x < tips.len()
        invariant
            x <= tips.len(),
            store.rounds == old(store).rounds,
            store.games == old(store).games,
            store.next_round_id == old(store).next_round_id,
            store.next_game_id == old(store).next_game_id,
            before == old(store).tips@,
            store.tips@ == with_tips(before, tips@.take(x as int)),
        decreases tips.len() - x,
    {
        proof {
            assert(tips@.take(x + 1).drop_last() =~= tips@.take(x as int));
            assert(tips@.take(x + 1).last() == tips@[x as int]);
        }
        save_tip(&mut store.tips, tips[x]);
        x = x + 1;
    }
    assert(tips@.take(tips.len() as int) =~= tips@);
    Ok(())
}

/// Whether a game with the identity is stored.
pub fn store_has_game(store: &Store, game_id: i32) -> (found: bool)
    ensures
        found == store@.has_game(game_id),
{
    let mut k: usize = 0;
    while k < store.games.len()
        invariant
            k <= store.games.len(),
            forall|j: int| 0 <= j < k ==> (#[trigger] store.games[j]).game_id != Some(game_id),
        decreases store.games.len() - k,
    {
        let same = match store.games[k].game_id {
            Some(id) => id == game_id,
            None => false,
        };
        if same {
            return true;
        }
        k = k + 1;
    }
    false
}

/// The test that a tip passes when it is the competitor's and for a game of
/// the round.
pub open spec fn is_tip_of(t: Tables, tipper_id: i32, round_id: i32) -> spec_fn(Tip) -> bool {
    |tip: Tip| tip.tipper_id == tipper_id && game_is_in_round(t.games, tip.game_id, round_id)
}

/// The competitor's tips for the games of the round.
pub fn get_tips_for_round(store: &Store, tipper_id: i32, round_id: i32) -> (tips: Vec<Tip>)
    ensures
        tips@ == store@.tips.filter(is_tip_of(store@, tipper_id, round_id)),
{
    let ghost test = is_tip_of(store@, tipper_id, round_id);
    let mut tips: Vec<Tip> = Vec::new();
    let mut x: usize = 0;
    proof {
        reveal(Seq::filter);
        assert(store.tips@.take(0).filter(test) =~= Seq::empty());
    }
    while x < store.tips.len()
        invariant
            x <= store.tips.len(),
            test == is_tip_of(store@, tipper_id, round_id),
            tips@ == store.tips@.take(x as int).filter(test),
        decreases store.tips.len() - x,
    {
        let tip: Tip = store.tips[x];
        let wanted = tip.tipper_id == tipper_id && is_game_of_round(
            &store.games,
            tip.game_id,
            round_id,
        );
        proof {
            reveal(Seq::filter);
            assert(store.tips@.take(x + 1).drop_last() =~= store.tips@.take(x as int));
        }
        if wanted {
            tips.push(tip);
        }
        x = x + 1;
    }
    assert(store.tips@.take(store.tips.len() as int) =~= store.tips@);
    tips
}

/// Whether a tip for a game of the round is stored.
pub fn tips_exist(store: &Store, round_id: i32) -> (found: bool)
    ensures
        found == store@.round_has_tips(round_id),
{
    store.round_has_tips(round_id)
}

} // verus!
