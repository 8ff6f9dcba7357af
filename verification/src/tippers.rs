//! The competitor operations of the HTTP interface.

use crate::error::ApiError;
use crate::error::ApiErrorView;
use crate::http::Endpoint;
use crate::http::Method;
use crate::http::Route;
use crate::tipper::Tipper;
use vstd::prelude::*;

verus! {

/// The routes of the competitor operations.
pub fn routes() -> (table: Vec<Route>)
    ensures
        table@.len() == 5,
        table@[0].is(Method::Get, "/api/tippers"@, Endpoint::ListTippers),
        table@[1].is(Method::Post, "/api/tippers"@, Endpoint::AddTipper),
        table@[2].is(Method::Put, "/api/tippers"@, Endpoint::UpdateTipper),
        table@[3].is(Method::Delete, "/api/tippers/<id>"@, Endpoint::DeleteTipper),
        table@[4].is(Method::Get, "/api/tippers/<id>"@, Endpoint::GetTipper),
{
    let mut table: Vec<Route> = Vec::new();
    table.push(Route { method: Method::Get, path: "/api/tippers", endpoint: Endpoint::ListTippers });
    table.push(Route { method: Method::Post, path: "/api/tippers", endpoint: Endpoint::AddTipper });
    table.push(
        Route { method: Method::Put, path: "/api/tippers", endpoint: Endpoint::UpdateTipper },
    );
    table.push(
        Route {
            method: Method::Delete,
            path: "/api/tippers/<id>",
            endpoint: Endpoint::DeleteTipper,
        },
    );
    table.push(
        Route { method: Method::Get, path: "/api/tippers/<id>", endpoint: Endpoint::GetTipper },
    );
    table
}

/// What an update that changed this many rows means: one row is what was
/// asked for, none that there is no such competitor, more that the store is
/// not in order.
pub fn update(rows_affected: u64) -> (r: Result<(), ApiError>)
    ensures
        rows_affected == 1 ==> r is Ok,
        rows_affected == 0 ==> (r matches Err(e) && e@ == ApiErrorView::NotFound(
            "Row not found"@,
        )),
        rows_affected > 1 ==> (r matches Err(e) && e@ == ApiErrorView::Error("Multiple rows updated"@)),
{
    if rows_affected == 0 {
        Err(ApiError::NotFound(String::from_str("Row not found")))
    } else if rows_affected == 1 {
        Ok(())
    } else {
        Err(ApiError::Error(String::from_str("Multiple rows updated")))
    }
}

/// What reading a competitor back means: the competitor, or that there is
/// none.
pub fn get(found: Option<Tipper>) -> (r: Result<Tipper, ApiError>)
    ensures
        match found {
            Some(tipper) => r == Ok::<Tipper, ApiError>(tipper),
            None => r matches Err(e) && e@ == ApiErrorView::NotFound("Tipper not found"@),
        },
{
    match found {
        Some(tipper) => Ok(tipper),
        None => Err(ApiError::NotFound(String::from_str("Tipper not found"))),
    }
}

} // verus!
