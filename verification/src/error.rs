//! The errors of the driver.

use vstd::prelude::*;

verus! {

/// What can go wrong while driving a chain.
#[derive(Debug, PartialEq, Eq)]
pub enum Error {
    /// A line could not be driven or read, or a delay could not be taken.
    Pin,
    /// The chain did not behave as the operation presumes of its state.
    State,
    /// The scanned position held no identification code.
    IdCodeNotFound,
    /// The chain has no device at the requested index.
    TapNoValid,
    /// Any other failure, carrying its own description.
    Other(String),
}

impl Error {
    /// The text that describes this error to a person.
    pub open spec fn text(&self) -> Seq<char> {
        match self {
            Error::Pin => "Pin Operation Error"@,
            Error::State => "Not Valid State"@,
            Error::IdCodeNotFound => "Not Valid IdCode"@,
            Error::TapNoValid => "Select Tap No Found"@,
            Error::Other(s) => s@,
        }
    }

    /// Renders the error as text.
    pub fn message(&self) -> (s: String)
        ensures
            s@ == self.text(),
    {
        match self {
            Error::Pin => "Pin Operation Error".to_owned(),
            Error::State => "Not Valid State".to_owned(),
            Error::IdCodeNotFound => "Not Valid IdCode".to_owned(),
            Error::TapNoValid => "Select Tap No Found".to_owned(),
            Error::Other(s) => s.clone(),
        }
    }
}

} // verus!
