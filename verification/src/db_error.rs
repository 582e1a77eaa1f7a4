//! The error type of the store.

use vstd::prelude::*;

verus! {

/// `std::io::Error`, carried through unchanged in `DbError::Io`.
#[verifier::external_type_specification]
#[verifier::external_body]
pub struct ExIoError(std::io::Error);

/// What can go wrong with a request to the store.
#[derive(Debug)]
pub enum DbError {
    /// The log file could not be read or written.
    Io(std::io::Error),
    /// The command could not be understood; holds the offending text or what was missing.
    ParseError(String),
    /// The key is not in the store.
    KeyNotFound(String),
}

/// The model of a `DbError`: the I/O error is kept opaque.
pub enum ErrorView {
    Io,
    ParseError(Seq<char>),
    KeyNotFound(Seq<char>),
}

impl View for DbError {
    type V = ErrorView;

    open spec fn view(&self) -> ErrorView {
        match self {
            DbError::Io(_) => ErrorView::Io,
            DbError::ParseError(s) => ErrorView::ParseError(s@),
            DbError::KeyNotFound(s) => ErrorView::KeyNotFound(s@),
        }
    }
}

/// The message of an error whose text is known: a parse error or a missing key.
/// The message of an I/O error also holds the system's text for it.
pub open spec fn known_message(e: ErrorView) -> Option<Seq<char>> {
    match e {
        ErrorView::Io => None,
        ErrorView::ParseError(s) => Some("Encountered error in parsing: "@ + s),
        ErrorView::KeyNotFound(s) => Some("Key not found: "@ + s),
    }
}

/// `ToString::to_string` on an I/O error: its `Display` text.  That text
/// comes from the operating system, so nothing is stated of it.
#[verifier::external_body]
fn io_error_text(e: &std::io::Error) -> String {
    e.to_string()
}

/// The message of an I/O error whose system text is `text`.
pub fn io_message(text: &str) -> (r: String)
    ensures
        r@ == "I/O Error Occured: "@ + text@,
{
    let mut r = "I/O Error Occured: ".to_owned();
    r.append(text);
    r
}

impl DbError {
    /// The human-readable message of the error.  For an I/O error it is
    /// `io_message` of the error's system text.
    pub fn message(&self) -> (r: String)
        ensures
            known_message(self@) matches Some(m) ==> r@ == m,
            self@ is Io ==> exists|t: Seq<char>| r@ == "I/O Error Occured: "@ + t,
    {
        match self {
            DbError::Io(e) => {
                let t = io_error_text(e);
                io_message(t.as_str())
            },
            DbError::ParseError(s) => {
                let mut r = "Encountered error in parsing: ".to_owned();
                r.append(s.as_str());
                r
            },
            DbError::KeyNotFound(s) => {
                let mut r = "Key not found: ".to_owned();
                r.append(s.as_str());
                r
            },
        }
    }
}

} // verus!
