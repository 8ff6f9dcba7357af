//! The team operations of the HTTP interface.

use crate::error::ApiError;
use crate::error::ApiErrorView;
use crate::game::Game;
use crate::http::Endpoint;
use crate::http::Method;
use crate::http::Route;
use vstd::prelude::*;

verus! {

/// The routes of the team operations.
pub fn routes() -> (table: Vec<Route>)
    ensures
        table@.len() == 4,
        table@[0].is(Method::Get, "/api/teams"@, Endpoint::ListTeams),
        table@[1].is(Method::Post, "/api/teams"@, Endpoint::AddTeam),
        table@[2].is(Method::Put, "/api/teams"@, Endpoint::UpdateTeam),
        table@[3].is(Method::Delete, "/api/teams/<id>"@, Endpoint::DeleteTeam),
{
    let mut table: Vec<Route> = Vec::new();
    table.push(Route { method: Method::Get, path: "/api/teams", endpoint: Endpoint::ListTeams });
    table.push(Route { method: Method::Post, path: "/api/teams", endpoint: Endpoint::AddTeam });
    table.push(Route { method: Method::Put, path: "/api/teams", endpoint: Endpoint::UpdateTeam });
    table.push(
        Route { method: Method::Delete, path: "/api/teams/<id>", endpoint: Endpoint::DeleteTeam },
    );
    table
}

/// What an update that changed this many rows means: one row is what was
/// asked for, none that there is no such team, more that the store is not in
/// order.
pub fn update(rows_affected: u64) -> (r: Result<(), ApiError>)
    ensures
        rows_affected == 1 ==> r is Ok,
        rows_affected == 0 ==> (r matches Err(e) && e@ == ApiErrorView::NotFound(
            "Row not found"@,
        )),
        rows_affected > 1 ==> (r matches Err(e) && e@ == ApiErrorView::Error("Unexpected row count"@)),
{
    if rows_affected == 0 {
        Err(ApiError::NotFound(String::from_str("Row not found")))
    } else if rows_affected == 1 {
        Ok(())
    } else {
        Err(ApiError::Error(String::from_str("Unexpected row count")))
    }
}

/// Whether the team plays in one of the games.
pub open spec fn plays_in(games: Seq<Game>, team_id: i32) -> bool {
    exists|k: int| 0 <= k < games.len() && (#[trigger] games[k]).involves(team_id)
}

/// Whether the team may be deleted: it plays in none of the games.
pub fn can_delete(team_id: i32, games: &Vec<Game>) -> (yes: bool)
    ensures
        yes == !plays_in(games@, team_id),
{
    let mut k: usize = 0;
    while k < games.len()
        invariant
            k <= games.len(),
            forall|j: int| 0 <= j < k ==> !(#[trigger] games[j]).involves(team_id),
        decreases games.len() - k,
    {
        if games[k].home_team_id == team_id || games[k].away_team_id == team_id {
            return false;
        }
        k = k + 1;
    }
    true
}

} // verus!
