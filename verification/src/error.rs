//! The failures that the document tree, the grid, the cursor and the
//! commands report.

use vstd::prelude::*;

verus! {

/// Why an operation did not take place.
#[derive(Clone, Copy, Debug, PartialEq, Eq, Structural)]
pub enum Error {
    /// An indent with no sibling above, an unindent at the top level, or the
    /// deletion of the last remaining bullet.
    StructuralLimit,
    /// An identity that names no bullet of the tree.
    UnknownIdentity,
    /// A position outside the grid, a motion that would leave it, or a
    /// document that does not fit the window.
    OutOfBounds,
    /// A bounded search ended without finding a cell of the kind asked for.
    PredicateUnsatisfied,
    /// A scan along the flattened grid was asked to go up or down.
    UnsupportedDirection,
    /// The identity source handed out an identity that is already in use.
    IdentityInUse,
    /// The cursor is on a cell that the command cannot start from.
    NotBrowsable,
    /// A paste with an empty clipboard.
    NothingToPaste,
    /// A key that no command is bound to.
    UnknownKey,
}

impl Error {
    /// The text that the status line shows for the failure.
    pub fn message(&self) -> (r: &'static str)
        ensures
            r@ == self.spec_message(),
    {
        match self {
            Error::StructuralLimit => "the outline does not allow that here",
            Error::UnknownIdentity => "could not find the bullet",
            Error::OutOfBounds => "could not browse past bounds",
            Error::PredicateUnsatisfied => "no text on target line",
            Error::UnsupportedDirection => "only defined for left and right",
            Error::IdentityInUse => "the identity is already in use",
            Error::NotBrowsable => "invalid cell under the cursor",
            Error::NothingToPaste => "nothing to paste",
            Error::UnknownKey => "unknown command key",
        }
    }

    /// The text of the message of each failure.
    pub open spec fn spec_message(&self) -> Seq<char> {
        match self {
            Error::StructuralLimit => "the outline does not allow that here"@,
            Error::UnknownIdentity => "could not find the bullet"@,
            Error::OutOfBounds => "could not browse past bounds"@,
            Error::PredicateUnsatisfied => "no text on target line"@,
            Error::UnsupportedDirection => "only defined for left and right"@,
            Error::IdentityInUse => "the identity is already in use"@,
            Error::NotBrowsable => "invalid cell under the cursor"@,
            Error::NothingToPaste => "nothing to paste"@,
            Error::UnknownKey => "unknown command key"@,
        }
    }
}

} // verus!
