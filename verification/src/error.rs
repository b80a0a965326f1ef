//! Failures that belong to a place in the file system.

use vstd::prelude::*;
use vstd::string::StringExecFns;
use crate::number::{decimal, decimal_text, Brightness, ParseError};
use crate::text::glue;

verus! {

/// What went wrong at a path.
#[derive(Debug, PartialEq, Eq)]
pub enum Cause {
    /// The operating system refused; its message is kept.
    Io(String),
    /// The path ends in no name.
    NoName,
    /// The path leads to no directory.
    NotDirectory,
    /// A file does not hold a brightness value.
    Parse(ParseError),
    /// The device reports a brightness above its own maximum.
    Integrity { brightness: Brightness, max_brightness: Brightness },
}

/// A `Cause` as a mathematical value.
pub enum CauseView {
    Io(Seq<char>),
    NoName,
    NotDirectory,
    Parse(ParseError),
    Integrity { brightness: Brightness, max_brightness: Brightness },
}

impl View for Cause {
    type V = CauseView;

    open spec fn view(&self) -> CauseView {
        match *self {
            Cause::Io(message) => CauseView::Io(message@),
            Cause::NoName => CauseView::NoName,
            Cause::NotDirectory => CauseView::NotDirectory,
            Cause::Parse(e) => CauseView::Parse(e),
            Cause::Integrity { brightness, max_brightness } => CauseView::Integrity {
                brightness,
                max_brightness,
            },
        }
    }
}

/// A failure together with the path at which it happened.
#[derive(Debug, PartialEq, Eq)]
pub struct PathError {
    pub cause: Cause,
    pub path: String,
}

/// A `PathError` as a mathematical value.
pub struct PathErrorView {
    pub cause: CauseView,
    pub path: Seq<char>,
}

impl View for PathError {
    type V = PathErrorView;

    open spec fn view(&self) -> PathErrorView {
        PathErrorView { cause: self.cause@, path: self.path@ }
    }
}

impl DeepView for PathError {
    type V = PathErrorView;

    open spec fn deep_view(&self) -> PathErrorView {
        self@
    }
}

/// The words for a failed reading of a number.
pub open spec fn parse_error_text(e: ParseError) -> Seq<char> {
    match e {
        ParseError::Empty => "cannot parse integer from empty string"@,
        ParseError::InvalidDigit => "invalid digit found in string"@,
        ParseError::Overflow => "number too large to fit in target type"@,
    }
}

/// The words for a cause.
pub open spec fn cause_text(c: CauseView) -> Seq<char> {
    match c {
        CauseView::Io(message) => message,
        CauseView::NoName => "path has no name component"@,
        CauseView::NotDirectory => "not a directory"@,
        CauseView::Parse(e) => parse_error_text(e),
        CauseView::Integrity { brightness, max_brightness } => "brightness = "@ + decimal(
            brightness as nat,
        ) + " > max_brightness = "@ + decimal(max_brightness as nat),
    }
}

/// The words for a failure: the cause, then the path in double quotes.
pub open spec fn path_error_text(e: PathErrorView) -> Seq<char> {
    cause_text(e.cause) + ": \""@ + e.path + "\""@
}

impl Cause {
    /// The words for the cause.
    pub fn message(&self) -> (r: String)
        ensures
            r@ == cause_text(self@),
    {
        match self {
            Cause::Io(message) => message.clone(),
            Cause::NoName => String::from_str("path has no name component"),
            Cause::NotDirectory => String::from_str("not a directory"),
            Cause::Parse(ParseError::Empty) => String::from_str(
                "cannot parse integer from empty string",
            ),
            Cause::Parse(ParseError::InvalidDigit) => String::from_str(
                "invalid digit found in string",
            ),
            Cause::Parse(ParseError::Overflow) => String::from_str(
                "number too large to fit in target type",
            ),
            Cause::Integrity { brightness, max_brightness } => {
                let b = decimal_text(*brightness as u32);
                let m = decimal_text(*max_brightness as u32);
                let head = glue("brightness = ", b.as_str());
                let mid = glue(head.as_str(), " > max_brightness = ");
                glue(mid.as_str(), m.as_str())
            },
        }
    }
}

impl PathError {
    /// The failure `cause` at `path`.
    pub fn new(cause: Cause, path: String) -> (r: Self)
        ensures
            r.cause == cause,
            r.path == path,
    {
        PathError { cause, path }
    }

    /// The words for the failure.
    pub fn message(&self) -> (r: String)
        ensures
            r@ == path_error_text(self@),
    {
        let cause = self.cause.message();
        let head = glue(cause.as_str(), ": \"");
        let mid = glue(head.as_str(), self.path.as_str());
        glue(mid.as_str(), "\"")
    }
}

} // verus!
