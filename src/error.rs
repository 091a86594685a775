//! Errors of the library.

use vstd::prelude::*;

verus! {

/// What went wrong, one variant per kind of failure.
#[derive(Debug, PartialEq, Eq)]
pub enum Error {
    /// Malformed bytes: invalid XML syntax, invalid UTF-8 or an unknown
    /// entity reference. Fatal for the stream.
    Lexical,
    /// Unbalanced tags or an undeclared namespace prefix: a structural
    /// error, fatal for the stream.
    Unbalanced,
    /// An element that does not match the schema it is read as.
    ParseError(&'static str),
    /// An integer attribute that is not a number, and why.
    ParseIntError(&'static str),
}

} // verus!
