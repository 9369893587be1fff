use vstd::prelude::*;

verus! {

/// Misuse conditions of the matching data structures. The verified
/// operations exclude every one of them by precondition, so none is ever
/// produced by this crate; the enum names the conditions for callers that
/// need to report them on their own inputs.
#[derive(Debug, PartialEq, Eq, Structural, Clone, Copy)]
pub enum Error {
    /// An edge was recorded twice.
    Duplicate(usize, usize),
    /// A root was added to a forest that already holds it.
    DuplicateRoot(usize),
    /// A vertex was looked up that the structure does not hold.
    MissingNode(usize),
    /// An augmentation was attempted along an odd vertex sequence.
    OddPathAugmentation,
}

} // verus!
