//! The failures that resolving and activating an account can end in.

use vstd::prelude::*;

verus! {

/// What can go wrong while an account is resolved and activated.
#[derive(Debug, PartialEq, Eq)]
pub enum Error {
    /// No account of the store carries the requested alias.
    UnknownAccount(String),
    /// A parameter that was asked for is absent from the parameter map.
    MissingParameter(String),
    /// The provider tool could not be launched, or ended unsuccessfully.
    CommandFailed(String),
}

/// An [`Error`] with the text it carries as a sequence of characters.
pub enum ErrorView {
    UnknownAccount(Seq<char>),
    MissingParameter(Seq<char>),
    CommandFailed(Seq<char>),
}

impl View for Error {
    type V = ErrorView;

    open spec fn view(&self) -> ErrorView {
        match *self {
            Error::UnknownAccount(alias) => ErrorView::UnknownAccount(alias@),
            Error::MissingParameter(name) => ErrorView::MissingParameter(name@),
            Error::CommandFailed(text) => ErrorView::CommandFailed(text@),
        }
    }
}

/// A result with its value and its error taken by their views.
pub open spec fn result_view<T: View>(r: Result<T, Error>) -> Result<T::V, ErrorView> {
    match r {
        Ok(value) => Ok(value@),
        Err(e) => Err(e@),
    }
}

} // verus!
