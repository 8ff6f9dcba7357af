//! A model of the stored state: the tables of rounds, games and tips, the
//! writes that change them, and what a store that keeps its references whole
//! accepts.

use crate::date::Date;
use crate::error::ApiError;
use crate::error::ApiErrorView;
use crate::game::Game;
use crate::round::Round;
use crate::tip::Tip;
use vstd::prelude::*;

verus! {

/// One write to the tables.
#[derive(Debug, Clone, Copy)]
pub enum Write {
    /// Store a new round under the next round identity.
    InsertRound { round_number: i32, start_date: Date, end_date: Date, bonus_points: i32 },
    /// Replace number, dates and bonus of the round with this identity.
    UpdateRound {
        round_id: i32,
        round_number: i32,
        start_date: Date,
        end_date: Date,
        bonus_points: i32,
    },
    /// Remove the round with this identity.
    DeleteRound { round_id: i32 },
    /// Store a new game of the round under the next game identity.
    InsertGame {
        round_id: i32,
        home_team_id: i32,
        away_team_id: i32,
        game_date: Date,
        home_team_score: Option<i32>,
        away_team_score: Option<i32>,
    },
    /// Replace teams, date and scores of the game with this identity.
    UpdateGame {
        game_id: i32,
        home_team_id: i32,
        away_team_id: i32,
        game_date: Date,
        home_team_score: Option<i32>,
        away_team_score: Option<i32>,
    },
    /// Remove the game with this identity.
    DeleteGame { game_id: i32 },
    /// Remove every game of the round.
    DeleteGamesOfRound { round_id: i32 },
    /// Remove every tip for a game of the round.
    DeleteTipsOfRound { round_id: i32 },
}

/// The tables as values: the rows in the order in which they were stored,
/// and the identities that the next new round and the next new game get.
pub struct Tables {
    pub rounds: Seq<Round>,
    pub games: Seq<Game>,
    pub tips: Seq<Tip>,
    pub next_round_id: int,
    pub next_game_id: int,
}

/// The test that a round passes when it is not the round `round_id`.
pub open spec fn other_round(round_id: i32) -> spec_fn(Round) -> bool {
    |r: Round| r.round_id != Some(round_id)
}

/// The test that a game passes when it is not the game `game_id`.
pub open spec fn other_game(game_id: i32) -> spec_fn(Game) -> bool {
    |g: Game| g.game_id != Some(game_id)
}

/// The test that a game passes when it is not a game of the round.
pub open spec fn outside_round(round_id: i32) -> spec_fn(Game) -> bool {
    |g: Game| g.round_id != Some(round_id)
}

/// The test that a game passes when it is a game of the round.
pub open spec fn inside_round(round_id: i32) -> spec_fn(Game) -> bool {
    |g: Game| g.round_id == Some(round_id)
}

/// Whether the game `game_id` is among the games, as a game of the round.
pub open spec fn game_is_in_round(games: Seq<Game>, game_id: i32, round_id: i32) -> bool {
    exists|k: int|
        0 <= k < games.len() && (#[trigger] games[k]).game_id == Some(game_id)
            && games[k].round_id == Some(round_id)
}

/// The test that a tip passes when it is not for a game of the round.
pub open spec fn tip_outside_round(games: Seq<Game>, round_id: i32) -> spec_fn(Tip) -> bool {
    |t: Tip| !game_is_in_round(games, t.game_id, round_id)
}

/// The round as it is after number, dates and bonus have been replaced.
pub open spec fn edited_round(
    r: Round,
    round_number: i32,
    start_date: Date,
    end_date: Date,
    bonus_points: i32,
) -> Round {
    Round { round_id: r.round_id, round_number, start_date, end_date, bonus_points }
}

/// The game as it is after teams, date and scores have been replaced by
/// those of `to`; it keeps its identity and its round.
pub open spec fn edited_game(g: Game, to: Game) -> Game {
    Game {
        game_id: g.game_id,
        round_id: g.round_id,
        home_team_id: to.home_team_id,
        away_team_id: to.away_team_id,
        game_date: to.game_date,
        home_team_score: to.home_team_score,
        away_team_score: to.away_team_score,
    }
}

/// The change that an update of the round `round_id` makes to each round.
pub open spec fn round_edit(
    round_id: i32,
    round_number: i32,
    start_date: Date,
    end_date: Date,
    bonus_points: i32,
) -> spec_fn(Round) -> Round {
    |r: Round|
        if r.round_id == Some(round_id) {
            edited_round(r, round_number, start_date, end_date, bonus_points)
        } else {
            r
        }
}

/// The change that an update of the game `game_id` makes to each game.
pub open spec fn game_edit(game_id: i32, to: Game) -> spec_fn(Game) -> Game {
    |g: Game|
        if g.game_id == Some(game_id) {
            edited_game(g, to)
        } else {
            g
        }
}

impl Write {
    /// The teams, date and scores that an insert or update of a game
    /// carries, as a game without identity.
    pub open spec fn game_fields(self) -> Game {
        match self {
            Write::InsertGame {
                round_id,
                home_team_id,
                away_team_id,
                game_date,
                home_team_score,
                away_team_score,
            } => Game {
                game_id: None,
                round_id: Some(round_id),
                home_team_id,
                away_team_id,
                game_date,
                home_team_score,
                away_team_score,
            },
            Write::UpdateGame {
                game_id,
                home_team_id,
                away_team_id,
                game_date,
                home_team_score,
                away_team_score,
            } => Game {
                game_id: Some(game_id),
                round_id: None,
                home_team_id,
                away_team_id,
                game_date,
                home_team_score,
                away_team_score,
            },
            _ => arbitrary(),
        }
    }
}

impl Tables {
    /// Whether a round with this identity is stored.
    pub open spec fn has_round(self, round_id: i32) -> bool {
        exists|i: int| 0 <= i < self.rounds.len() && (#[trigger] self.rounds[i]).round_id == Some(round_id)
    }

    /// Whether a game with this identity is stored.
    pub open spec fn has_game(self, game_id: i32) -> bool {
        exists|k: int| 0 <= k < self.games.len() && (#[trigger] self.games[k]).game_id == Some(game_id)
    }

    /// Whether a game of the round is stored.
    pub open spec fn round_has_games(self, round_id: i32) -> bool {
        exists|k: int| 0 <= k < self.games.len() && (#[trigger] self.games[k]).round_id == Some(round_id)
    }

    /// Whether a tip for the game is stored.
    pub open spec fn game_has_tips(self, game_id: i32) -> bool {
        exists|x: int| 0 <= x < self.tips.len() && (#[trigger] self.tips[x]).game_id == game_id
    }

    /// Whether a tip for a game of the round is stored.
    pub open spec fn round_has_tips(self, round_id: i32) -> bool {
        exists|x: int|
            0 <= x < self.tips.len() && game_is_in_round(
                self.games,
                (#[trigger] self.tips[x]).game_id,
                round_id,
            )
    }

    /// The games of the round, in the order in which they are stored.
    pub open spec fn games_of_round(self, round_id: i32) -> Seq<Game> {
        self.games.filter(inside_round(round_id))
    }

    /// Whether a store that keeps its references whole accepts the write: a
    /// new row needs a free identity and, for a game, its round; a row that
    /// others refer to cannot be removed.
    pub open spec fn admits(self, w: Write) -> bool {
        match w {
            Write::InsertRound { .. } => self.next_round_id < i32::MAX,
            Write::UpdateRound { .. } => true,
            Write::DeleteRound { round_id } => !self.round_has_games(round_id),
            Write::InsertGame { round_id, .. } => self.next_game_id < i32::MAX && self.has_round(
                round_id,
            ),
            Write::UpdateGame { .. } => true,
            Write::DeleteGame { game_id } => !self.game_has_tips(game_id),
            Write::DeleteGamesOfRound { round_id } => !self.round_has_tips(round_id),
            Write::DeleteTipsOfRound { .. } => true,
        }
    }

    /// The tables after the write.
    pub open spec fn apply(self, w: Write) -> Tables {
        match w {
            Write::InsertRound { round_number, start_date, end_date, bonus_points } => Tables {
                rounds: self.rounds.push(
                    Round {
                        round_id: Some(self.next_round_id as i32),
                        round_number,
                        start_date,
                        end_date,
                        bonus_points,
                    },
                ),
                next_round_id: self.next_round_id + 1,
                ..self
            },
            Write::UpdateRound { round_id, round_number, start_date, end_date, bonus_points } => Tables {
                rounds: self.rounds.map_values(
                    round_edit(round_id, round_number, start_date, end_date, bonus_points),
                ),
                ..self
            },
            Write::DeleteRound { round_id } => Tables {
                rounds: self.rounds.filter(other_round(round_id)),
                ..self
            },
            Write::InsertGame { .. } => Tables {
                games: self.games.push(
                    Game { game_id: Some(self.next_game_id as i32), ..w.game_fields() },
                ),
                next_game_id: self.next_game_id + 1,
                ..self
            },
            Write::UpdateGame { game_id, .. } => Tables {
                games: self.games.map_values(game_edit(game_id, w.game_fields())),
                ..self
            },
            Write::DeleteGame { game_id } => Tables {
                games: self.games.filter(other_game(game_id)),
                ..self
            },
            Write::DeleteGamesOfRound { round_id } => Tables {
                games: self.games.filter(outside_round(round_id)),
                ..self
            },
            Write::DeleteTipsOfRound { round_id } => Tables {
                tips: self.tips.filter(tip_outside_round(self.games, round_id)),
                ..self
            },
        }
    }

    /// Whether the round of the game is stored and the game is played on one
    /// of its days.
    pub open spec fn round_holds(self, g: Game) -> bool {
        g.round_id is Some && exists|i: int|
            0 <= i < self.rounds.len() && (#[trigger] self.rounds[i]).round_id == g.round_id
                && self.rounds[i].holds_date(g.game_date)
    }

    /// The rules of the round table: every round has an identity that was
    /// given out, a positive number and a first day that is not after its
    /// last; no two rounds share an identity or a number.
    pub open spec fn rounds_wf(self) -> bool {
        &&& 0 <= self.next_round_id <= i32::MAX
        &&& forall|i: int|
            0 <= i < self.rounds.len() ==> {
                let r = #[trigger] self.rounds[i];
                &&& r.round_id is Some
                &&& r.round_id.unwrap() < self.next_round_id
                &&& r.round_number > 0
                &&& r.start_date@ <= r.end_date@
            }
        &&& forall|i: int, j: int|
            0 <= i < j < self.rounds.len() ==> (#[trigger] self.rounds[i]).round_id != (
            #[trigger] self.rounds[j]).round_id && self.rounds[i].round_number
                != self.rounds[j].round_number
    }

    /// The rule that makes identities keys of the game table: every game has
    /// an identity that was given out, and no two games share one.
    pub open spec fn games_keyed(self) -> bool {
        &&& 0 <= self.next_game_id <= i32::MAX
        &&& forall|k: int|
            0 <= k < self.games.len() ==> (#[trigger] self.games[k]).game_id is Some
                && self.games[k].game_id.unwrap() < self.next_game_id
        &&& forall|j: int, k: int|
            0 <= j < k < self.games.len() ==> (#[trigger] self.games[j]).game_id != (
            #[trigger] self.games[k]).game_id
    }

    /// The rules of the game table: identities are keys; every game is
    /// between two different teams, on a day of its round, which is stored;
    /// no team plays twice in a round.
    pub open spec fn games_wf(self) -> bool {
        &&& self.games_keyed()
        &&& forall|k: int|
            0 <= k < self.games.len() ==> (#[trigger] self.games[k]).home_team_id
                != self.games[k].away_team_id && self.round_holds(self.games[k])
        &&& forall|j: int, k: int|
            0 <= j < k < self.games.len() && (#[trigger] self.games[j]).round_id == (
            #[trigger] self.games[k]).round_id ==> !self.games[k].involves(
                self.games[j].home_team_id,
            ) && !self.games[k].involves(self.games[j].away_team_id)
    }

    /// The rules of the tip table: every tip is for a stored game, and no
    /// competitor has two tips for one game.
    pub open spec fn tips_wf(self) -> bool {
        &&& forall|x: int|
            0 <= x < self.tips.len() ==> self.has_game((#[trigger] self.tips[x]).game_id)
        &&& forall|x: int, y: int|
            0 <= x < y < self.tips.len() ==> !((#[trigger] self.tips[x]).tipper_id == (
            #[trigger] self.tips[y]).tipper_id && self.tips[x].game_id == self.tips[y].game_id)
    }

    /// The rules that the tables keep at all times.
    pub open spec fn wf(self) -> bool {
        &&& self.rounds_wf()
        &&& self.games_wf()
        &&& self.tips_wf()
    }

    /// The first of the writes that a store which keeps its references whole
    /// does not accept when they are made one after the other, if any.
    pub open spec fn first_refusal(self, writes: Seq<Write>) -> Option<Write>
        decreases writes.len(),
    {
        if writes.len() == 0 {
            None
        } else {
            match self.first_refusal(writes.drop_last()) {
                Some(w) => Some(w),
                None => if self.apply_all(writes.drop_last()).admits(writes.last()) {
                    None
                } else {
                    Some(writes.last())
                },
            }
        }
    }

    /// The store accepts all of the writes exactly when there is no first
    /// one that it refuses.
    pub proof fn lemma_first_refusal(self, writes: Seq<Write>)
        ensures
            self.first_refusal(writes) is None <==> self.admits_all(writes),
        decreases writes.len(),
    {
        if writes.len() > 0 {
            self.lemma_first_refusal(writes.drop_last());
        }
    }

    /// The first refusal of two runs of writes is that of the first run, or
    /// where there is none, that of the second run after the first.
    pub proof fn lemma_first_refusal_concat(self, a: Seq<Write>, b: Seq<Write>)
        ensures
            self.first_refusal(a + b) == match self.first_refusal(a) {
                Some(w) => Some(w),
                None => self.apply_all(a).first_refusal(b),
            },
        decreases b.len(),
    {
        if b.len() == 0 {
            assert(a + b =~= a);
        } else {
            self.lemma_first_refusal_concat(a, b.drop_last());
            self.lemma_apply_all_concat(a, b.drop_last());
            assert((a + b).drop_last() =~= a + b.drop_last());
            assert((a + b).last() == b.last());
        }
    }

    /// Applying two runs of writes is applying the first, then the second.
    pub proof fn lemma_apply_all_concat(self, a: Seq<Write>, b: Seq<Write>)
        ensures
            self.apply_all(a + b) == self.apply_all(a).apply_all(b),
            self.admits_all(a + b) == (self.admits_all(a) && self.apply_all(a).admits_all(b)),
        decreases b.len(),
    {
        if b.len() == 0 {
            assert(a + b =~= a);
        } else {
            self.lemma_apply_all_concat(a, b.drop_last());
            assert((a + b).drop_last() =~= a + b.drop_last());
            assert((a + b).last() == b.last());
        }
    }

    /// Applying one write as a run of its own.
    pub proof fn lemma_apply_one(self, w: Write)
        ensures
            self.apply_all(seq![w]) == self.apply(w),
            self.admits_all(seq![w]) == self.admits(w),
            self.first_refusal(seq![w]) == if self.admits(w) {
                None
            } else {
                Some(w)
            },
    {
        let one = seq![w];
        assert(one.drop_last() =~= Seq::<Write>::empty());
        assert(self.apply_all(one.drop_last()) == self);
        assert(self.admits_all(one.drop_last()));
        assert(self.first_refusal(one.drop_last()) is None);
    }

    /// A write that is refused after some of the writes is refused however
    /// many writes follow.
    pub proof fn lemma_refusal_stays(self, writes: Seq<Write>, k: int)
        requires
            0 <= k <= writes.len(),
            self.first_refusal(writes.take(k)) is Some,
        ensures
            self.first_refusal(writes) == self.first_refusal(writes.take(k)),
        decreases writes.len() - k,
    {
        if k < writes.len() {
            assert(writes.drop_last().take(k) =~= writes.take(k));
            self.lemma_refusal_stays(writes.drop_last(), k);
        } else {
            assert(writes.take(k) =~= writes);
        }
    }

    /// The identity that the write gives to the row it stores, if it stores
    /// one.
    pub open spec fn new_identity(self, w: Write) -> Option<i32> {
        match w {
            Write::InsertRound { .. } => Some(self.next_round_id as i32),
            Write::InsertGame { .. } => Some(self.next_game_id as i32),
            _ => None,
        }
    }

    /// The tables after the writes, one after the other.
    pub open spec fn apply_all(self, writes: Seq<Write>) -> Tables
        decreases writes.len(),
    {
        if writes.len() == 0 {
            self
        } else {
            self.apply_all(writes.drop_last()).apply(writes.last())
        }
    }

    /// Whether a store that keeps its references whole accepts the writes,
    /// one after the other.
    pub open spec fn admits_all(self, writes: Seq<Write>) -> bool
        decreases writes.len(),
    {
        if writes.len() == 0 {
            true
        } else {
            self.admits_all(writes.drop_last()) && self.apply_all(writes.drop_last()).admits(
                writes.last(),
            )
        }
    }
}

/// The tables of a competition, held in memory.
#[derive(Debug, Clone)]
pub struct Store {
    pub rounds: Vec<Round>,
    pub games: Vec<Game>,
    pub tips: Vec<Tip>,
    pub next_round_id: i32,
    pub next_game_id: i32,
}

impl View for Store {
    type V = Tables;

    open spec fn view(&self) -> Tables {
        Tables {
            rounds: self.rounds@,
            games: self.games@,
            tips: self.tips@,
            next_round_id: self.next_round_id as int,
            next_game_id: self.next_game_id as int,
        }
    }
}

/// The text of the failure of a write that the store does not accept.
pub open spec fn refusal_text(w: Write) -> Seq<char> {
    match w {
        Write::InsertRound { .. } => "no round identity is left"@,
        Write::InsertGame { .. } => "the round of the game is not stored or no game identity is left"@,
        Write::DeleteRound { .. } => "the round still has games"@,
        Write::DeleteGame { .. } => "the game still has tips"@,
        Write::DeleteGamesOfRound { .. } => "a game of the round still has tips"@,
        _ => "the store failed"@,
    }
}

/// Whether the game `game_id` is among the games, as a game of the round.
pub fn is_game_of_round(games: &Vec<Game>, game_id: i32, round_id: i32) -> (found: bool)
    ensures
        found == game_is_in_round(games@, game_id, round_id),
{
    let mut k: usize = 0;
    while k < games.len()
        invariant
            k <= games.len(),
            forall|j: int|
                0 <= j < k ==> !((#[trigger] games[j]).game_id == Some(game_id)
                    && games[j].round_id == Some(round_id)),
        decreases games.len() - k,
    {
        let g: Game = games[k];
        let same_game = match g.game_id {
            Some(id) => id == game_id,
            None => false,
        };
        let same_round = match g.round_id {
            Some(id) => id == round_id,
            None => false,
        };
        if same_game && same_round {
            return true;
        }
        k = k + 1;
    }
    false
}

impl Store {
    /// A store without rows, in which identities start at 1.
    pub fn new() -> (store: Store)
        ensures
            store@ == (Tables {
                rounds: Seq::empty(),
                games: Seq::empty(),
                tips: Seq::empty(),
                next_round_id: 1,
                next_game_id: 1,
            }),
    {
        Store {
            rounds: Vec::new(),
            games: Vec::new(),
            tips: Vec::new(),
            next_round_id: 1,
            next_game_id: 1,
        }
    }

    /// Whether a round with this identity is stored.
    pub fn has_round(&self, round_id: i32) -> (found: bool)
        ensures
            found == self@.has_round(round_id),
    {
        let mut i: usize = 0;
        while i < self.rounds.len()
            invariant
                i <= self.rounds.len(),
                forall|j: int| 0 <= j < i ==> (#[trigger] self.rounds[j]).round_id != Some(round_id),
            decreases self.rounds.len() - i,
        {
            let same = match self.rounds[i].round_id {
                Some(id) => id == round_id,
                None => false,
            };
            if same {
                return true;
            }
            i = i + 1;
        }
        false
    }

    /// Whether a game of the round is stored.
    pub fn round_has_games(&self, round_id: i32) -> (found: bool)
        ensures
            found == self@.round_has_games(round_id),
    {
        let mut k: usize = 0;
        while k < self.games.len()
            invariant
                k <= self.games.len(),
                forall|j: int| 0 <= j < k ==> (#[trigger] self.games[j]).round_id != Some(round_id),
            decreases self.games.len() - k,
        {
            let same = match self.games[k].round_id {
                Some(id) => id == round_id,
                None => false,
            };
            if same {
                return true;
            }
            k = k + 1;
        }
        false
    }

    /// Whether a tip for the game is stored.
    pub fn game_has_tips(&self, game_id: i32) -> (found: bool)
        ensures
            found == self@.game_has_tips(game_id),
    {
        let mut x: usize = 0;
        while x < self.tips.len()
            invariant
                x <= self.tips.len(),
                forall|j: int| 0 <= j < x ==> (#[trigger] self.tips[j]).game_id != game_id,
            decreases self.tips.len() - x,
        {
            if self.tips[x].game_id == game_id {
                return true;
            }
            x = x + 1;
        }
        false
    }

    /// Whether a tip for a game of the round is stored.
    pub fn round_has_tips(&self, round_id: i32) -> (found: bool)
        ensures
            found == self@.round_has_tips(round_id),
    {
        let mut x: usize = 0;
        while x < self.tips.len()
            invariant
                x <= self.tips.len(),
                forall|j: int|
                    0 <= j < x ==> !game_is_in_round(
                        self.games@,
                        (#[trigger] self.tips[j]).game_id,
                        round_id,
                    ),
            decreases self.tips.len() - x,
        {
            if is_game_of_round(&self.games, self.tips[x].game_id, round_id) {
                return true;
            }
            x = x + 1;
        }
        false
    }

    /// The stored games of the round, in the order in which they are stored.
    pub fn games_of_round(&self, round_id: i32) -> (games: Vec<Game>)
        ensures
            games@ == self@.games_of_round(round_id),
    {
        let ghost test = inside_round(round_id);
        let mut games: Vec<Game> = Vec::new();
        let mut k: usize = 0;
        proof {
            reveal(Seq::filter);
            assert(self.games@.take(0).filter(test) =~= Seq::empty());
        }
        while k < self.games.len()
            invariant
                k <= self.games.len(),
                test == inside_round(round_id),
                games@ == self.games@.take(k as int).filter(test),
            decreases self.games.len() - k,
        {
            let g: Game = self.games[k];
            let same = match g.round_id {
                Some(id) => id == round_id,
                None => false,
            };
            proof {
                reveal(Seq::filter);
                assert(self.games@.take(k + 1).drop_last() =~= self.games@.take(k as int));
            }
            if same {
                games.push(g);
            }
            k = k + 1;
        }
        assert(self.games@.take(self.games.len() as int) =~= self.games@);
        games
    }

    /// Whether the store accepts the write.
    pub fn accepts(&self, w: &Write) -> (yes: bool)
        ensures
            yes == self@.admits(*w),
    {
        match w {
            Write::InsertRound { .. } => self.next_round_id < i32::MAX,
            Write::UpdateRound { .. } => true,
            Write::DeleteRound { round_id } => !self.round_has_games(*round_id),
            Write::InsertGame { round_id, .. } => self.next_game_id < i32::MAX && self.has_round(
                *round_id,
            ),
            Write::UpdateGame { .. } => true,
            Write::DeleteGame { game_id } => !self.game_has_tips(*game_id),
            Write::DeleteGamesOfRound { round_id } => !self.round_has_tips(*round_id),
            Write::DeleteTipsOfRound { .. } => true,
        }
    }

    fn edit_rounds(&mut self, round_id: i32, to: Round)
        ensures
            final(self)@ == (Tables {
                rounds: old(self)@.rounds.map_values(
                    round_edit(
                        round_id,
                        to.round_number,
                        to.start_date,
                        to.end_date,
                        to.bonus_points,
                    ),
                ),
                ..old(self)@
            }),
    {
        let ghost before = self.rounds@;
        let ghost edit = round_edit(
            round_id,
            to.round_number,
            to.start_date,
            to.end_date,
            to.bonus_points,
        );
        let mut i: usize = 0;
        while i < self.rounds.len()
            invariant
                i <= self.rounds.len(),
                self.rounds.len() == before.len(),
                self.games == old(self).games,
                self.tips == old(self).tips,
                self.next_round_id == old(self).next_round_id,
                self.next_game_id == old(self).next_game_id,
                edit == round_edit(
                    round_id,
                    to.round_number,
                    to.start_date,
                    to.end_date,
                    to.bonus_points,
                ),
                forall|j: int| 0 <= j < i ==> self.rounds[j] == edit(before[j]),
                forall|j: int| i <= j < before.len() ==> self.rounds[j] == before[j],
            decreases self.rounds.len() - i,
        {
            let r: Round = self.rounds[i];
            let same = match r.round_id {
                Some(id) => id == round_id,
                None => false,
            };
            if same {
                self.rounds.set(
                    i,
                    Round {
                        round_id: r.round_id,
                        round_number: to.round_number,
                        start_date: to.start_date,
                        end_date: to.end_date,
                        bonus_points: to.bonus_points,
                    },
                );
            }
            i = i + 1;
        }
        assert(self.rounds@ =~= before.map_values(edit));
    }

    fn edit_games(&mut self, game_id: i32, to: Game)
        ensures
            final(self)@ == (Tables {
                games: old(self)@.games.map_values(game_edit(game_id, to)),
                ..old(self)@
            }),
    {
        let ghost before = self.games@;
        let ghost edit = game_edit(game_id, to);
        let mut k: usize = 0;
        while k < self.games.len()
            invariant
                k <= self.games.len(),
                self.games.len() == before.len(),
                self.rounds == old(self).rounds,
                self.tips == old(self).tips,
                self.next_round_id == old(self).next_round_id,
                self.next_game_id == old(self).next_game_id,
                edit == game_edit(game_id, to),
                forall|j: int| 0 <= j < k ==> self.games[j] == edit(before[j]),
                forall|j: int| k <= j < before.len() ==> self.games[j] == before[j],
            decreases self.games.len() - k,
        {
            let g: Game = self.games[k];
            let same = match g.game_id {
                Some(id) => id == game_id,
                None => false,
            };
            if same {
                self.games.set(
                    k,
                    Game {
                        game_id: g.game_id,
                        round_id: g.round_id,
                        home_team_id: to.home_team_id,
                        away_team_id: to.away_team_id,
                        game_date: to.game_date,
                        home_team_score: to.home_team_score,
                        away_team_score: to.away_team_score,
                    },
                );
            }
            k = k + 1;
        }
        assert(self.games@ =~= before.map_values(edit));
    }

    fn drop_round(&mut self, round_id: i32)
        ensures
            final(self)@ == (Tables {
                rounds: old(self)@.rounds.filter(other_round(round_id)),
                ..old(self)@
            }),
    {
        let ghost test = other_round(round_id);
        let mut kept: Vec<Round> = Vec::new();
        let mut i: usize = 0;
        proof {
            reveal(Seq::filter);
            assert(self.rounds@.take(0).filter(test) =~= Seq::empty());
        }
        while i < self.rounds.len()
            invariant
                i <= self.rounds.len(),
                test == other_round(round_id),
                kept@ == self.rounds@.take(i as int).filter(test),
            decreases self.rounds.len() - i,
        {
            let r: Round = self.rounds[i];
            let same = match r.round_id {
                Some(id) => id == round_id,
                None => false,
            };
            proof {
                reveal(Seq::filter);
                assert(self.rounds@.take(i + 1).drop_last() =~= self.rounds@.take(i as int));
            }
            if !same {
                kept.push(r);
            }
            i = i + 1;
        }
        assert(self.rounds@.take(self.rounds.len() as int) =~= self.rounds@);
        self.rounds = kept;
    }

    fn drop_game(&mut self, game_id: i32)
        ensures
            final(self)@ == (Tables {
                games: old(self)@.games.filter(other_game(game_id)),
                ..old(self)@
            }),
    {
        let ghost test = other_game(game_id);
        let mut kept: Vec<Game> = Vec::new();
        let mut k: usize = 0;
        proof {
            reveal(Seq::filter);
            assert(self.games@.take(0).filter(test) =~= Seq::empty());
        }
        while k < self.games.len()
            invariant
                k <= self.games.len(),
                test == other_game(game_id),
                kept@ == self.games@.take(k as int).filter(test),
            decreases self.games.len() - k,
        {
            let g: Game = self.games[k];
            let same = match g.game_id {
                Some(id) => id == game_id,
                None => false,
            };
            proof {
                reveal(Seq::filter);
                assert(self.games@.take(k + 1).drop_last() =~= self.games@.take(k as int));
            }
            if !same {
                kept.push(g);
            }
            k = k + 1;
        }
        assert(self.games@.take(self.games.len() as int) =~= self.games@);
        self.games = kept;
    }

    fn drop_games_of_round(&mut self, round_id: i32)
        ensures
            final(self)@ == (Tables {
                games: old(self)@.games.filter(outside_round(round_id)),
                ..old(self)@
            }),
    {
        let ghost test = outside_round(round_id);
        let mut kept: Vec<Game> = Vec::new();
        let mut k: usize = 0;
        proof {
            reveal(Seq::filter);
            assert(self.games@.take(0).filter(test) =~= Seq::empty());
        }
        while k < self.games.len()
            invariant
                k <= self.games.len(),
                test == outside_round(round_id),
                kept@ == self.games@.take(k as int).filter(test),
            decreases self.games.len() - k,
        {
            let g: Game = self.games[k];
            let same = match g.round_id {
                Some(id) => id == round_id,
                None => false,
            };
            proof {
                reveal(Seq::filter);
                assert(self.games@.take(k + 1).drop_last() =~= self.games@.take(k as int));
            }
            if !same {
                kept.push(g);
            }
            k = k + 1;
        }
        assert(self.games@.take(self.games.len() as int) =~= self.games@);
        self.games = kept;
    }

    fn drop_tips_of_round(&mut self, round_id: i32)
        ensures
            final(self)@ == (Tables {
                tips: old(self)@.tips.filter(tip_outside_round(old(self)@.games, round_id)),
                ..old(self)@
            }),
    {
        let ghost test = tip_outside_round(self.games@, round_id);
        let mut kept: Vec<Tip> = Vec::new();
        let mut x: usize = 0;
        proof {
            reveal(Seq::filter);
            assert(self.tips@.take(0).filter(test) =~= Seq::empty());
        }
        while x < self.tips.len()
            invariant
                x <= self.tips.len(),
                test == tip_outside_round(self.games@, round_id),
                kept@ == self.tips@.take(x as int).filter(test),
            decreases self.tips.len() - x,
        {
            let t: Tip = self.tips[x];
            let inside = is_game_of_round(&self.games, t.game_id, round_id);
            proof {
                reveal(Seq::filter);
                assert(self.tips@.take(x + 1).drop_last() =~= self.tips@.take(x as int));
            }
            if !inside {
                kept.push(t);
            }
            x = x + 1;
        }
        assert(self.tips@.take(self.tips.len() as int) =~= self.tips@);
        self.tips = kept;
    }

    /// A copy of the store.
    pub fn duplicate(&self) -> (copy: Store)
        ensures
            copy@ == self@,
    {
        let rounds = self.rounds.clone();
        let games = self.games.clone();
        let tips = self.tips.clone();
        assert(rounds@ =~= self.rounds@);
        assert(games@ =~= self.games@);
        assert(tips@ =~= self.tips@);
        Store {
            rounds,
            games,
            tips,
            next_round_id: self.next_round_id,
            next_game_id: self.next_game_id,
        }
    }

    /// Carries out the write if the store accepts it, and fails without
    /// changing anything if it does not.  A write that stores a new row
    /// returns the row's identity.
    pub fn apply(&mut self, w: &Write) -> (r: Result<Option<i32>, ApiError>)
        ensures
            old(self)@.admits(*w) ==> r == Ok::<Option<i32>, ApiError>(old(self)@.new_identity(*w))
                && final(self)@ == old(self)@.apply(*w),
            !old(self)@.admits(*w) ==> (r matches Err(e) && e@ == ApiErrorView::Db(
                refusal_text(*w),
            )) && final(self)@ == old(self)@,
    {
        if !self.accepts(w) {
            let text = match w {
                Write::InsertRound { .. } => "no round identity is left",
                Write::InsertGame {
                    ..
                } => "the round of the game is not stored or no game identity is left",
                Write::DeleteRound { .. } => "the round still has games",
                Write::DeleteGame { .. } => "the game still has tips",
                Write::DeleteGamesOfRound { .. } => "a game of the round still has tips",
                _ => "the store failed",
            };
            return Err(ApiError::Db(String::from_str(text)));
        }
        match w {
            Write::InsertRound { round_number, start_date, end_date, bonus_points } => {
                let id: i32 = self.next_round_id;
                self.rounds.push(
                    Round {
                        round_id: Some(id),
                        round_number: *round_number,
                        start_date: *start_date,
                        end_date: *end_date,
                        bonus_points: *bonus_points,
                    },
                );
                self.next_round_id = id + 1;
                Ok(Some(id))
            },
            Write::UpdateRound { round_id, round_number, start_date, end_date, bonus_points } => {
                self.edit_rounds(
                    *round_id,
                    Round {
                        round_id: Some(*round_id),
                        round_number: *round_number,
                        start_date: *start_date,
                        end_date: *end_date,
                        bonus_points: *bonus_points,
                    },
                );
                Ok(None)
            },
            Write::DeleteRound { round_id } => {
                self.drop_round(*round_id);
                Ok(None)
            },
            Write::InsertGame {
                round_id,
                home_team_id,
                away_team_id,
                game_date,
                home_team_score,
                away_team_score,
            } => {
                let id: i32 = self.next_game_id;
                self.games.push(
                    Game {
                        game_id: Some(id),
                        round_id: Some(*round_id),
                        home_team_id: *home_team_id,
                        away_team_id: *away_team_id,
                        game_date: *game_date,
                        home_team_score: *home_team_score,
                        away_team_score: *away_team_score,
                    },
                );
                self.next_game_id = id + 1;
                Ok(Some(id))
            },
            Write::UpdateGame {
                game_id,
                home_team_id,
                away_team_id,
                game_date,
                home_team_score,
                away_team_score,
            } => {
                self.edit_games(
                    *game_id,
                    Game {
                        game_id: Some(*game_id),
                        round_id: None,
                        home_team_id: *home_team_id,
                        away_team_id: *away_team_id,
                        game_date: *game_date,
                        home_team_score: *home_team_score,
                        away_team_score: *away_team_score,
                    },
                );
                Ok(None)
            },
            Write::DeleteGame { game_id } => {
                self.drop_game(*game_id);
                Ok(None)
            },
            Write::DeleteGamesOfRound { round_id } => {
                self.drop_games_of_round(*round_id);
                Ok(None)
            },
            Write::DeleteTipsOfRound { round_id } => {
                self.drop_tips_of_round(*round_id);
                Ok(None)
            },
        }
    }
}

impl Store {
    /// Carries out the writes as one transaction: all of them, one after
    /// the other, if the store accepts each in its turn; none of them, with
    /// the failure of the first that it refuses, otherwise.
    pub fn run(&mut self, writes: &Vec<Write>) -> (r: Result<(), ApiError>)
        ensures
            match old(self)@.first_refusal(writes@) {
                None => r is Ok && final(self)@ == old(self)@.apply_all(writes@),
                Some(w) => (r matches Err(e) && e@ == ApiErrorView::Db(refusal_text(w)))
                    && final(self)@ == old(self)@,
            },
    {
        let mut work = self.duplicate();
        let mut k: usize = 0;
        assert(writes@.take(0) =~= Seq::<Write>::empty());
        while k < writes.len()
            invariant
                k <= writes.len(),
                self@ == old(self)@,
                work@ == self@.apply_all(writes@.take(k as int)),
                self@.first_refusal(writes@.take(k as int)) is None,
            decreases writes.len() - k,
        {
            proof {
                assert(writes@.take(k + 1).drop_last() =~= writes@.take(k as int));
                assert(writes@.take(k + 1).last() == writes@[k as int]);
            }
            match work.apply(&writes[k]) {
                Ok(_) => {},
                Err(e) => {
                    proof {
                        self@.lemma_refusal_stays(writes@, k + 1);
                    }
                    return Err(e);
                },
            }
            k = k + 1;
        }
        assert(writes@.take(writes.len() as int) =~= writes@);
        *self = work;
        Ok(())
    }
}

} // verus!
