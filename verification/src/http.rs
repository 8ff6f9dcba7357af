//! The shape of the HTTP interface: which request reaches which operation.

use vstd::prelude::*;

verus! {

/// The method of a request.
#[derive(Clone, Copy, Debug, PartialEq, Eq, Structural)]
pub enum Method {
    Get,
    Post,
    Put,
    Delete,
}

/// An operation that a request can ask for.
#[derive(Clone, Copy, Debug, PartialEq, Eq, Structural)]
pub enum Endpoint {
    ListRounds,
    AddRound,
    UpdateRound,
    DeleteRound,
    GetRound,
    TemplateRound,
    ListTeams,
    AddTeam,
    UpdateTeam,
    DeleteTeam,
    ListTippers,
    AddTipper,
    UpdateTipper,
    DeleteTipper,
    GetTipper,
    TipsExist,
    GetTips,
    SaveTips,
    Leaderboard,
    RoundScores,
}

/// One line of the routing table.  A part of the path in angle brackets
/// stands for a number given in the request.
#[derive(Clone, Copy, Debug)]
pub struct Route {
    pub method: Method,
    pub path: &'static str,
    pub endpoint: Endpoint,
}

impl Route {
    /// Whether this line sends requests with `method` for `path` to `endpoint`.
    pub open spec fn is(self, method: Method, path: Seq<char>, endpoint: Endpoint) -> bool {
        self.method == method && self.path@ == path && self.endpoint == endpoint
    }
}

} // verus!
