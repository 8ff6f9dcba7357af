//! Teams of the competition.

use vstd::prelude::*;

verus! {

/// A team: its identity once stored, its display name and its short nickname.
/// `can_delete` is derived by the store (a team that appears in no game may be
/// deleted) and is absent where it was not asked for.
#[derive(Debug, Clone)]
pub struct Team {
    pub id: Option<i32>,
    pub name: String,
    pub nickname: String,
    pub can_delete: Option<bool>,
}

impl PartialEq for Team {
    /// Teams are compared by identity alone.
    fn eq(&self, other: &Self) -> (r: bool) {
        self.id == other.id
    }
}

impl vstd::std_specs::cmp::PartialEqSpecImpl for Team {
    open spec fn obeys_eq_spec() -> bool {
        true
    }

    open spec fn eq_spec(&self, other: &Self) -> bool {
        self.id == other.id
    }
}

} // verus!
