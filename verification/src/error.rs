//! The errors reported by the template engine.

use vstd::prelude::*;

verus! {

/// Why an operation of the template engine was refused.
#[derive(Clone, Copy, Debug, PartialEq, Eq, Structural)]
pub enum TemplateError {
    /// The template text has the wrong number of bits or holds a symbol that
    /// has no meaning in the place where it is used.
    MalformedTemplate,
    /// No template of the list matches the value.
    NoTemplateMatched,
    /// A packing template names a capture group for which no value was given.
    UnknownCaptureName,
    /// The number of bits a packing template takes from a value differs from
    /// the width of that value.
    BitWidthMismatch,
    /// A bit range has its high bit below its low bit or reaches outside the
    /// byte.
    InvalidRange,
}

} // verus!
