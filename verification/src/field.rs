//! Named field values: what a template captures from a word, and what a
//! packing template is filled from.

use vstd::prelude::*;

verus! {

/// The value of one capture group: an unsigned number of `width` bits under
/// the name of the group.
#[derive(Clone, Copy, Debug, PartialEq, Eq, Structural)]
pub struct Field {
    /// The name of the capture group.
    pub name: char,
    /// The bits of the group, read as an unsigned number.
    pub value: u64,
    /// The number of bits of the group.
    pub width: usize,
}

} // verus!
