//! Why the engine could not answer.
use vstd::prelude::*;

verus! {

/// An error of the engine.
#[derive(Debug)]
pub enum Error {
    /// SQLite failed, with what it reported.
    Sqlite(String),
    /// The database is not as the engine needs it.
    Bad(String),
    /// The caller asked for something that makes no sense.
    BadInput(String),
    /// The caller's position in the log is gone.
    ResyncRequired,
}

/// The model of an error.
pub enum ErrorView {
    Sqlite(Seq<char>),
    Bad(Seq<char>),
    BadInput(Seq<char>),
    ResyncRequired,
}

impl View for Error {
    type V = ErrorView;

    open spec fn view(&self) -> ErrorView {
        match self {
            Error::Sqlite(s) => ErrorView::Sqlite(s@),
            Error::Bad(s) => ErrorView::Bad(s@),
            Error::BadInput(s) => ErrorView::BadInput(s@),
            Error::ResyncRequired => ErrorView::ResyncRequired,
        }
    }
}

} // verus!
