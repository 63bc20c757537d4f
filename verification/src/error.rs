//! Errors of parsing, reading and scaling `.lab` files, and their messages.

use vstd::prelude::*;
use vstd::std_specs::convert::FromSpecImpl;
use vstd::string::StringExecFns;

use crate::number::{dec, push_decimal};

verus! {

/// `std::io::Error`, carried by `ReadError` and never looked into.
#[verifier::external_type_specification]
#[verifier::external_body]
pub struct ExIoError(std::io::Error);

/// An error produced while parsing a `.lab` file.
#[derive(Debug, Clone, PartialEq, Eq)]
pub struct ParseError {
    /// 1-indexed line number the error occurred on
    pub line: usize,
    /// what went wrong on that line
    pub kind: ParseErrorKind,
}

/// The specific kind of parse failure.
#[derive(Debug, Clone, PartialEq, Eq)]
#[non_exhaustive]
pub enum ParseErrorKind {
    /// the line is empty or has invalid label syntax
    InvalidLabel(String),
    /// a field that looked like a time could not be parsed as an integer
    InvalidTime(String),
    /// the start time is greater than the end time
    StartAfterEnd {
        /// parsed start time, in 100ns units
        start: u64,
        /// parsed end time, in 100ns units
        end: u64,
    },
}

/// What a `ParseErrorKind` says, with its texts as character sequences.
pub enum KindModel {
    InvalidLabel(Seq<char>),
    InvalidTime(Seq<char>),
    StartAfterEnd(u64, u64),
}

/// What a `ParseError` says.
pub struct ErrorModel {
    pub line: usize,
    pub kind: KindModel,
}

impl View for ParseErrorKind {
    type V = KindModel;

    open spec fn view(&self) -> KindModel {
        match self {
            ParseErrorKind::InvalidLabel(s) => KindModel::InvalidLabel(s@),
            ParseErrorKind::InvalidTime(s) => KindModel::InvalidTime(s@),
            ParseErrorKind::StartAfterEnd { start, end } => KindModel::StartAfterEnd(*start, *end),
        }
    }
}

impl View for ParseError {
    type V = ErrorModel;

    open spec fn view(&self) -> ErrorModel {
        ErrorModel { line: self.line, kind: self.kind@ }
    }
}

/// The message of a parse error: the line number, then what went wrong.
pub open spec fn parse_error_message(e: ErrorModel) -> Seq<char> {
    "line "@ + dec(e.line as nat) + ": "@ + match e.kind {
        KindModel::InvalidLabel(s) => "invalid label: "@ + s,
        KindModel::InvalidTime(s) => "invalid time value `"@ + s + "`"@,
        KindModel::StartAfterEnd(start, end) => "start time "@ + dec(start as nat)
            + " is after end time "@ + dec(end as nat),
    }
}

impl ParseError {
    /// The error's message, as it is displayed.
    pub fn to_string(&self) -> (r: String)
        ensures
            r@ == parse_error_message(self@),
    {
        let mut s = String::new();
        s.append("line ");
        push_decimal(&mut s, self.line as u64);
        s.append(": ");
        match &self.kind {
            ParseErrorKind::InvalidLabel(t) => {
                s.append("invalid label: ");
                s.append(t.as_str());
            },
            ParseErrorKind::InvalidTime(t) => {
                s.append("invalid time value `");
                s.append(t.as_str());
                s.append("`");
            },
            ParseErrorKind::StartAfterEnd { start, end } => {
                s.append("start time ");
                push_decimal(&mut s, *start);
                s.append(" is after end time ");
                push_decimal(&mut s, *end);
            },
        }
        proof {
            let e = self@;
            match e.kind {
                KindModel::InvalidLabel(t) => {
                    assert(s@ == "line "@ + dec(e.line as nat) + ": "@ + ("invalid label: "@ + t));
                },
                KindModel::InvalidTime(t) => {
                    assert(s@ == "line "@ + dec(e.line as nat) + ": "@ + ("invalid time value `"@
                        + t + "`"@));
                },
                KindModel::StartAfterEnd(a, b) => {
                    assert(s@ == "line "@ + dec(e.line as nat) + ": "@ + ("start time "@ + dec(
                        a as nat,
                    ) + " is after end time "@ + dec(b as nat)));
                },
            }
        }
        s
    }
}

/// An error produced while scaling label timestamps.
#[derive(Debug, Clone, Copy, PartialEq, Eq)]
#[non_exhaustive]
pub enum ScaleError {
    /// the scaling factor is not a finite number
    NonFiniteFactor,
    /// the scaling factor is negative
    NegativeFactor,
}

/// The message of a scale error.
pub open spec fn scale_error_message(e: ScaleError) -> Seq<char> {
    match e {
        ScaleError::NonFiniteFactor => "scale factor must be finite"@,
        ScaleError::NegativeFactor => "scale factor must not be negative"@,
    }
}

impl ScaleError {
    /// The error's message, as it is displayed.
    pub fn to_string(&self) -> (r: String)
        ensures
            r@ == scale_error_message(*self),
    {
        match self {
            ScaleError::NonFiniteFactor => String::from_str("scale factor must be finite"),
            ScaleError::NegativeFactor => String::from_str("scale factor must not be negative"),
        }
    }
}

/// An error produced while reading a `.lab` from a reader or path.
#[derive(Debug)]
#[non_exhaustive]
pub enum ReadError {
    /// an io error occurred while reading
    Io(std::io::Error),
    /// the contents were read but could not be parsed
    Parse(ParseError),
}

/// The text that `std::io::Error` displays.
///
/// Formats the error with `{}`. Nothing is stated of the text: for an
/// operating-system error it comes from the system.
#[verifier::external_body]
fn io_error_text(e: &std::io::Error) -> String {
    format!("{e}")
}

impl ReadError {
    /// The error's message, as it is displayed: a parse error's message after
    /// `parse error: `, the i/o error's own text after `i/o error: `.
    pub fn to_string(&self) -> (r: String)
        ensures
            match self {
                ReadError::Parse(e) => r@ == "parse error: "@ + parse_error_message(e@),
                ReadError::Io(_) => exists|t: Seq<char>| r@ == "i/o error: "@ + t,
            },
    {
        match self {
            ReadError::Io(e) => {
                let mut s = String::from_str("i/o error: ");
                let t = io_error_text(e);
                s.append(t.as_str());
                s
            },
            ReadError::Parse(e) => {
                let mut s = String::from_str("parse error: ");
                let t = e.to_string();
                s.append(t.as_str());
                s
            },
        }
    }
}

impl From<std::io::Error> for ReadError {
    fn from(e: std::io::Error) -> (r: Self) {
        ReadError::Io(e)
    }
}

impl FromSpecImpl<std::io::Error> for ReadError {
    open spec fn obeys_from_spec() -> bool {
        true
    }

    open spec fn from_spec(e: std::io::Error) -> Self {
        ReadError::Io(e)
    }
}

impl From<ParseError> for ReadError {
    fn from(e: ParseError) -> (r: Self) {
        ReadError::Parse(e)
    }
}

impl FromSpecImpl<ParseError> for ReadError {
    open spec fn obeys_from_spec() -> bool {
        true
    }

    open spec fn from_spec(e: ParseError) -> Self {
        ReadError::Parse(e)
    }
}

} // verus!
