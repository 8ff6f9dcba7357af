//! Competitors, called tippers.

use vstd::prelude::*;

verus! {

/// A competitor: identity once stored, display name and contact address.
#[derive(Debug, Clone)]
pub struct Tipper {
    pub id: Option<i32>,
    pub name: String,
    pub email: String,
}

} // verus!
