//! What can go wrong while a database or a hit file is read and compiled.

use vstd::prelude::*;

verus! {

/// A fatal fault in the input. An unresolved classification is not among them: it is
/// an ordinary outcome, reported by [`crate::typing::Classification`].
#[derive(Debug, Clone, PartialEq, Eq)]
pub enum TypingError {
    /// A row of the profile table holds a field that should be a number and is not.
    /// `row` counts from the header row, which is row 0; `field` is the field without the
    /// white space around it.
    MalformedProfileRow { row: usize, field: String },
    /// A hit record has no `locus-allele` identifier, or its allele or score is not a
    /// number. `row` counts the records from 0, the header row left aside; `field` is the
    /// field as read.
    MalformedHitRecord { row: usize, field: String },
    /// An allele vector does not have one entry per locus of the schema.
    ProfileLengthMismatch { expected: usize, found: usize },
    /// The tab-separated text itself could not be read; `reason` is the reader's message.
    UnreadableTable { reason: String },
}

} // verus!
