//! Snake_case text normalization.
//!
//! Converts arbitrary text into canonical snake_case: lowercase alphanumeric
//! words joined by single underscores, with no leading, trailing or doubled
//! separator. Two engines share one algorithm shape: [`ascii`] classifies
//! single bytes and discards everything outside the ASCII alphabet, while
//! [`unicode`] classifies whole codepoints with full Unicode case and
//! category semantics.

use vstd::prelude::*;

pub mod ascii;
pub mod unicode;

verus! {

/// Where a left-to-right scan stands inside the current word.
///
/// A word is rewritten as an acronym run (uppercase letters and digits,
/// lowercased) followed by a lowercase run (lowercase letters and digits,
/// kept verbatim). `Boundary` means the next alphanumeric character starts
/// a new word.
pub enum Phase {
    /// Between words: the next alphanumeric character opens a new word.
    Boundary,
    /// Inside the leading acronym run of a word.
    Acronym,
    /// Inside the trailing lowercase run of a word.
    Lower,
}

/// The outcome of a conversion: either the input was already canonical and
/// the caller keeps its own storage, or a fresh buffer was produced.
pub enum Converted<T> {
    /// The input is already in canonical form; no buffer was allocated.
    Borrowed,
    /// The input needed rewriting; this is the canonical result.
    Owned(Vec<T>),
}

impl<T> Converted<T> {
    /// The sequence a caller ends up with, given the input it passed in.
    pub open spec fn result(self, input: Seq<T>) -> Seq<T> {
        match self {
            Converted::Borrowed => input,
            Converted::Owned(v) => v@,
        }
    }
}

} // verus!
