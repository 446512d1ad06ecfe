//! What can go wrong while a bundle is loaded or fingerprinted.

use vstd::prelude::*;

verus! {

/// Why a bundle could not be loaded: its files could not be read, or the parser rejected
/// them. A reload that meets either leaves the bundle in use where it is.
#[derive(Debug)]
pub enum ReloadError {
    /// Reading `path` failed with the message `error`.
    Io { path: String, error: String },
    /// The parser rejected the bundle.
    Parse(String),
}

/// A [`ReloadError`] by its texts.
pub enum ErrorView {
    Io { path: Seq<char>, error: Seq<char> },
    Parse(Seq<char>),
}

impl View for ReloadError {
    type V = ErrorView;

    open spec fn view(&self) -> ErrorView {
        match self {
            ReloadError::Io { path, error } => ErrorView::Io { path: path@, error: error@ },
            ReloadError::Parse(reason) => ErrorView::Parse(reason@),
        }
    }
}

/// A result by the views of its error; the value is taken as it is.
pub open spec fn outcome<T>(result: Result<T, ReloadError>) -> Result<T, ErrorView> {
    match result {
        Ok(value) => Ok(value),
        Err(error) => Err(error@),
    }
}

/// What contracts say of an error, and of a result that may be one, they say of its kind and its
/// texts.
pub proof fn law_error_views_show_the_texts<T>(
    path: String,
    error: String,
    reason: String,
    value: T,
    failure: ReloadError,
)
    ensures
        (ReloadError::Io { path, error })@ == (ErrorView::Io { path: path@, error: error@ }),
        ReloadError::Parse(reason)@ == ErrorView::Parse(reason@),
        outcome(Ok::<T, ReloadError>(value)) == Ok::<T, ErrorView>(value),
        outcome(Err::<T, ReloadError>(failure)) == Err::<T, ErrorView>(failure@),
{
}

impl ReloadError {
    /// The message that describes the error to an operator.
    pub fn message(&self) -> (text: String)
        ensures
            text@ == match self@ {
                ErrorView::Io { path, error } => "bundle I/O on `"@ + path + "`: "@ + error,
                ErrorView::Parse(reason) => "bundle parse failed: "@ + reason,
            },
    {
        match self {
            ReloadError::Io { path, error } => "bundle I/O on `".to_string().concat(
                path.as_str(),
            ).concat("`: ").concat(error.as_str()),
            ReloadError::Parse(reason) => "bundle parse failed: ".to_string().concat(
                reason.as_str(),
            ),
        }
    }
}

} // verus!
