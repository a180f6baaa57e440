//! The ways in which a text can fail to be a changeset.

use vstd::prelude::*;

verus! {

/// Why a text could not be decoded into a changeset.
#[derive(Debug, PartialEq, Eq)]
pub enum DecodeError {
    /// The text does not begin with the delimiter line.
    MissingFrontmatter,
    /// No second delimiter closes the metadata block.
    UnterminatedFrontmatter,
    /// The metadata block is not a mapping from names to texts; the value is
    /// the reader's own diagnostic.
    MalformedMetadata(String),
    /// A metadata value is none of `major`, `minor`, `patch`; the value is
    /// the offending text.
    UnrecognizedBumpKind(String),
}

/// A `DecodeError` as a mathematical value.
pub ghost enum DecodeErrorView {
    MissingFrontmatter,
    UnterminatedFrontmatter,
    MalformedMetadata(Seq<char>),
    UnrecognizedBumpKind(Seq<char>),
}

impl View for DecodeError {
    type V = DecodeErrorView;

    open spec fn view(&self) -> DecodeErrorView {
        match self {
            DecodeError::MissingFrontmatter => DecodeErrorView::MissingFrontmatter,
            DecodeError::UnterminatedFrontmatter => DecodeErrorView::UnterminatedFrontmatter,
            DecodeError::MalformedMetadata(diagnostic) => DecodeErrorView::MalformedMetadata(
                diagnostic@,
            ),
            DecodeError::UnrecognizedBumpKind(token) => DecodeErrorView::UnrecognizedBumpKind(
                token@,
            ),
        }
    }
}

} // verus!
