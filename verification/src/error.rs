//! Diagnostics: the error type of the library and the text it prints.
use vstd::prelude::*;

use crate::strutil::{decimal, decimal_string, push_str};

verus! {

#[verifier::external_type_specification]
#[verifier::external_body]
pub struct ExIoError(std::io::Error);

/// Errors of parsing, planning and building.
#[derive(Debug)]
pub enum KageError {
    Parse { file: String, line: u32, col: u32, msg: String },
    Build { msg: String },
    Io { path: Option<String>, source: std::io::Error },
}

pub type Result<T> = core::result::Result<T, KageError>;

/// What an error holds, as plain values (the operating-system error of an
/// `Io` error is left out).
pub enum ErrorView {
    Parse { file: Seq<char>, line: u32, col: u32, msg: Seq<char> },
    Build { msg: Seq<char> },
    Io { path: Option<Seq<char>> },
}

impl View for KageError {
    type V = ErrorView;

    open spec fn view(&self) -> ErrorView {
        match self {
            KageError::Parse { file, line, col, msg } => ErrorView::Parse {
                file: file@,
                line: *line,
                col: *col,
                msg: msg@,
            },
            KageError::Build { msg } => ErrorView::Build { msg: msg@ },
            KageError::Io { path, source } => ErrorView::Io {
                path: match path {
                    Some(p) => Some(p@),
                    None => None,
                },
            },
        }
    }
}

/// The `Parse` error view for a location and message.
pub open spec fn parse_error(file: Seq<char>, line: u32, col: u32, msg: Seq<char>) -> ErrorView {
    ErrorView::Parse { file, line, col, msg }
}

/// The `Build` error view for a message.
pub open spec fn build_error(msg: Seq<char>) -> ErrorView {
    ErrorView::Build { msg }
}

/// The text of a `Parse` error: `file:line:col: msg`.
pub open spec fn parse_error_text(file: Seq<char>, line: u32, col: u32, msg: Seq<char>) -> Seq<
    char,
> {
    file + ":"@ + decimal(line as nat) + ":"@ + decimal(col as nat) + ": "@ + msg
}

/// The text of a `Build` error: `mold: msg`.
pub open spec fn build_error_text(msg: Seq<char>) -> Seq<char> {
    "mold: "@ + msg
}

/// `text` is the message of an error with view `e`; of an `Io` error only the
/// prefix is fixed, the rest is the system's text of the underlying error.
pub open spec fn is_message_of(e: ErrorView, text: Seq<char>) -> bool {
    match e {
        ErrorView::Parse { file, line, col, msg } => text == parse_error_text(file, line, col, msg),
        ErrorView::Build { msg } => text == build_error_text(msg),
        ErrorView::Io { path } => exists|t: Seq<char>| text == io_prefix(path) + t,
    }
}

/// The text before the system's text in the message of an `Io` error.
pub open spec fn io_prefix(path: Option<Seq<char>>) -> Seq<char> {
    match path {
        Some(p) => "mold: "@ + p + ": "@,
        None => "mold: "@,
    }
}

/// The text of an operating-system error (`<std::io::Error as Display>::fmt`).
/// It depends on the system, so nothing is stated of it.
#[verifier::external_body]
fn io_error_text(e: &std::io::Error) -> String {
    format!("{}", e)
}

impl KageError {
    pub fn parse(file: &str, line: u32, col: u32, msg: String) -> (r: Self)
        ensures
            r@ == parse_error(file@, line, col, msg@),
    {
        KageError::Parse { file: file.to_owned(), line, col, msg }
    }

    pub fn build(msg: String) -> (r: Self)
        ensures
            r@ == build_error(msg@),
    {
        KageError::Build { msg }
    }

    pub fn io(path: &str, source: std::io::Error) -> (r: Self)
        ensures
            r@ == (ErrorView::Io { path: Some(path@) }),
            r matches KageError::Io { source: kept, .. } && kept == source,
    {
        KageError::Io { path: Some(path.to_owned()), source }
    }

    /// An I/O error that is tied to no path.
    pub fn io_unnamed(source: std::io::Error) -> (r: Self)
        ensures
            r@ == (ErrorView::Io { path: None }),
            r == (KageError::Io { path: None, source }),
    {
        KageError::Io { path: None, source }
    }

    /// The text shown to the user for this error.
    pub fn message(&self) -> (r: String)
        ensures
            is_message_of(self@, r@),
    {
        match self {
            KageError::Parse { file, line, col, msg } => {
                let mut s = file.clone();
                push_str(&mut s, ":");
                let l = decimal_string(*line as u128);
                push_str(&mut s, l.as_str());
                push_str(&mut s, ":");
                let c = decimal_string(*col as u128);
                push_str(&mut s, c.as_str());
                push_str(&mut s, ": ");
                push_str(&mut s, msg.as_str());
                assert(l@ == decimal(*line as nat));
                assert(c@ == decimal(*col as nat));
                assert(s@ == file@ + ":"@ + l@ + ":"@ + c@ + ": "@ + msg@);
                assert(self@ == ErrorView::Parse { file: file@, line: *line, col: *col, msg: msg@ });
                assert(s@ == parse_error_text(file@, *line, *col, msg@));
                assert(is_message_of(self@, s@));
                s
            },
            KageError::Build { msg } => {
                let mut s = String::new();
                push_str(&mut s, "mold: ");
                push_str(&mut s, msg.as_str());
                assert(s@ == "mold: "@ + msg@);
                assert(is_message_of(self@, s@));
                s
            },
            KageError::Io { path, source } => {
                let t = io_error_text(source);
                let mut s = String::new();
                push_str(&mut s, "mold: ");
                match path {
                    Some(p) => {
                        push_str(&mut s, p.as_str());
                        push_str(&mut s, ": ");
                        push_str(&mut s, t.as_str());
                        assert(s@ == "mold: "@ + p@ + ": "@ + t@);
                        assert(s@ == io_prefix(Some(p@)) + t@);
                    },
                    None => {
                        push_str(&mut s, t.as_str());
                        assert(s@ == "mold: "@ + t@);
                        assert(s@ == io_prefix(None) + t@);
                    },
                }
                s
            },
        }
    }
}

} // verus!
