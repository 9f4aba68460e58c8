//! Per-key statistics over a flat corpus of `key;value` lines.
//!
//! The input is one byte buffer holding the whole corpus: one record per
//! line, a station name, a `;`, and a decimal reading with one fractional
//! digit. A single left-to-right pass splits the buffer into records without
//! copying — every key and value is a span into the buffer — the records are
//! grouped by key content, and each group is summarized by the minimum,
//! maximum and median of its values in exact fixed-point arithmetic.
//!
//! Loading the corpus, progress display and printing are the caller's side;
//! the library takes the buffer and hands back the finished table, or the
//! error of the first malformed line or undecodable value.

use vstd::prelude::*;

pub mod aggregate;
pub mod fixed;
pub mod pipeline;
pub mod scan;
pub mod stats;

verus! {

/// The ways a run over a buffer can fail.
///
/// The scanner aborts with `MalformedRecord` when a line breaks the
/// `key;value` shape; the statistics stage aborts with `NotANumber` when a
/// value's bytes are not a decimal numeral with exactly one fractional digit,
/// and with `OutOfRange` when a well-formed numeral does not fit the
/// fixed-point machine representation.
#[derive(Clone, Copy, Debug, PartialEq, Eq, Structural)]
pub enum Error {
    /// A line ended (or the buffer ran out) before a `;` was seen, or a line
    /// had an empty key.
    MalformedRecord,
    /// A value's bytes do not match `[-]?[0-9]+\.[0-9]`.
    NotANumber,
    /// A value is a well-formed numeral but its fixed-point magnitude does
    /// not fit in the 64-bit representation.
    OutOfRange,
}

} // verus!
