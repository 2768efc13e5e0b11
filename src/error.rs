//! Why reading or writing a container failed.
use vstd::prelude::*;

verus! {

/// The kinds of failure when reading or writing a container.
#[derive(Debug, Clone, Copy, PartialEq, Eq, Structural)]
pub enum PriError {
    /// The data does not start with one of the recognized version tags.
    UnrecognizedMagic,
    /// A reserved field does not hold its fixed value.
    ReservedFieldMismatch,
    /// The file footer or a section footer disagrees with what the header declared.
    FooterMismatch,
    /// A section's declared length is impossible or disagrees with its footer.
    SectionLengthMismatch,
    /// The data ends before a structure that it declares.
    UnexpectedEnd,
    /// The container is too large for the 16- and 32-bit fields of the format.
    TooLarge,
}

} // verus!
