//! Tips: one competitor's pick for one game.

use vstd::prelude::*;

verus! {

/// The team that a competitor picked to win a game; `team_id` is `None` while
/// no pick has been made.
#[derive(Debug, Clone, Copy, PartialEq, Eq, Structural)]
pub struct Tip {
    pub tipper_id: i32,
    pub game_id: i32,
    pub team_id: Option<i32>,
}

} // verus!
