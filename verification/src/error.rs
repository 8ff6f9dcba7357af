//! What can go wrong, as the caller is told it.

use vstd::prelude::*;

verus! {

/// A failure of an operation, with the text to show to the user.
#[derive(Debug, Clone)]
pub enum ApiError {
    /// The store rejected or failed an operation.
    Db(String),
    /// The request cannot be carried out as it stands.
    Error(String),
    /// A rule of the competition is broken; nothing was written.
    Invalid(String),
    /// What the request refers to does not exist.
    NotFound(String),
}

/// An `ApiError` with its text as a sequence of characters.
pub enum ApiErrorView {
    Db(Seq<char>),
    Error(Seq<char>),
    Invalid(Seq<char>),
    NotFound(Seq<char>),
}

impl ApiErrorView {
    /// The text of the failure.
    pub open spec fn message(self) -> Seq<char> {
        match self {
            ApiErrorView::Db(m) => m,
            ApiErrorView::Error(m) => m,
            ApiErrorView::Invalid(m) => m,
            ApiErrorView::NotFound(m) => m,
        }
    }

    /// The HTTP status that stands for the failure.
    pub open spec fn status(self) -> int {
        match self {
            ApiErrorView::NotFound(_) => 404,
            ApiErrorView::Error(_) => 500,
            ApiErrorView::Invalid(_) => 400,
            ApiErrorView::Db(_) => 409,
        }
    }
}

impl View for ApiError {
    type V = ApiErrorView;

    open spec fn view(&self) -> ApiErrorView {
        match self {
            ApiError::Db(m) => ApiErrorView::Db(m@),
            ApiError::Error(m) => ApiErrorView::Error(m@),
            ApiError::Invalid(m) => ApiErrorView::Invalid(m@),
            ApiError::NotFound(m) => ApiErrorView::NotFound(m@),
        }
    }
}

impl ApiError {
    /// The HTTP status to answer with: 404 for what was not found, 400 for a
    /// broken rule, 409 for a failure of the store, 500 otherwise.
    pub fn status(&self) -> (code: u16)
        ensures
            code == self@.status(),
    {
        match self {
            ApiError::NotFound(_) => 404,
            ApiError::Error(_) => 500,
            ApiError::Invalid(_) => 400,
            ApiError::Db(_) => 409,
        }
    }

    /// The text of the failure.
    pub fn message(&self) -> (text: String)
        ensures
            text@ == self@.message(),
    {
        match self {
            ApiError::Db(m) => m.clone(),
            ApiError::Error(m) => m.clone(),
            ApiError::Invalid(m) => m.clone(),
            ApiError::NotFound(m) => m.clone(),
        }
    }
}

} // verus!
