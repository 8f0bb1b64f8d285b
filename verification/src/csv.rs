//! Parsing of possibly-malformed CSV byte buffers.
//!
//! There are several algorithms for robust parsing, with different tradeoffs
//! between the errors they can handle and the cost of handling them.  Prefer
//! the simplest algorithm that meets your needs: the simple ones are
//! deterministic and easy to reason about, while the resolution path can
//! handle ambiguous input but may pick an admissible interpretation that is
//! not the original data.

pub mod easy;
pub mod mask;
pub mod medium;
