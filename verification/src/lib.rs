//! Reading, writing and manipulating HTK `.lab` label files.
//!
//! Each line of a `.lab` file is a labelled time segment, with times in
//! units of 100 ns. Parsing is tolerant: start and end times are optional, a
//! trailing numeric score may follow the label text, and blank lines and
//! extra whitespace are ignored. Label text may be written in double quotes,
//! a backslash taking the next character literally; it is written so when it
//! would not read back otherwise, and a label with an end but no start is
//! written with an empty quoted start marker (`"" <end> <text>`).

pub mod error;
pub mod file;
pub mod label;
pub mod number;
pub mod seconds;
pub mod syntax;
pub mod text;

pub use error::{ParseError, ParseErrorKind, ReadError, ScaleError};
pub use file::LabFile;
pub use label::{parse_time, Label};

use vstd::prelude::*;

verus! {

/// Number of HTK time units (100 ns) in one second.
pub const UNITS_PER_SECOND: u64 = 10_000_000;

} // verus!
