//! Error values reported by the parsing and resolution paths.

use vstd::prelude::*;
use crate::Position;

verus! {

/// A failure of parsing or resolution.
///
/// `Invalid` and `Ambiguity` carry the position at which the row shape could
/// not be reconciled, together with a short cause.  `Io` wraps a failure of
/// the byte source, propagated unchanged.
#[derive(Debug, PartialEq, Eq)]
pub enum CsvError {
    Io(String),
    Ambiguity(Position, &'static str),
    Invalid(Position, &'static str),
}

} // verus!
