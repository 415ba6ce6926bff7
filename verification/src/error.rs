//! The errors of the skill.

use vstd::prelude::*;

use crate::text::owned;

verus! {

/// Why a request was not answered.
#[derive(Debug, Clone, PartialEq, Eq)]
pub enum BrowserError {
    InvalidInput(String),
    MissingConfig(String),
    RequestFailed(String),
    ParseFailed(String),
}

/// An error with its message as a sequence of characters.
pub enum ErrorView {
    InvalidInput(Seq<char>),
    MissingConfig(Seq<char>),
    RequestFailed(Seq<char>),
    ParseFailed(Seq<char>),
}

impl View for BrowserError {
    type V = ErrorView;

    open spec fn view(&self) -> ErrorView {
        match self {
            BrowserError::InvalidInput(message) => ErrorView::InvalidInput(message@),
            BrowserError::MissingConfig(message) => ErrorView::MissingConfig(message@),
            BrowserError::RequestFailed(message) => ErrorView::RequestFailed(message@),
            BrowserError::ParseFailed(message) => ErrorView::ParseFailed(message@),
        }
    }
}

impl ErrorView {
    /// The message of an error.
    pub open spec fn message(self) -> Seq<char> {
        match self {
            ErrorView::InvalidInput(message) => message,
            ErrorView::MissingConfig(message) => message,
            ErrorView::RequestFailed(message) => message,
            ErrorView::ParseFailed(message) => message,
        }
    }
}

/// The model of a result with a string.
pub open spec fn text_outcome(result: Result<String, BrowserError>) -> Result<
    Seq<char>,
    ErrorView,
> {
    match result {
        Ok(text) => Ok(text@),
        Err(error) => Err(error@),
    }
}

/// The model of a result with a value that has a view.
pub open spec fn outcome<T: View>(result: Result<T, BrowserError>) -> Result<T::V, ErrorView> {
    match result {
        Ok(value) => Ok(value@),
        Err(error) => Err(error@),
    }
}

impl BrowserError {
    /// The message of the error.
    pub fn to_string(&self) -> (message: String)
        ensures
            message@ == self@.message(),
    {
        match self {
            BrowserError::InvalidInput(message) => owned(message.as_str()),
            BrowserError::MissingConfig(message) => owned(message.as_str()),
            BrowserError::RequestFailed(message) => owned(message.as_str()),
            BrowserError::ParseFailed(message) => owned(message.as_str()),
        }
    }
}

} // verus!
