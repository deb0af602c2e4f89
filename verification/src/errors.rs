//! The recoverable failures of the library: naming parse errors, missing
//! pins, and structural-invariant violations found during tree construction.

use vstd::prelude::*;

verus! {

#[derive(Clone, Copy, Debug, Eq, PartialEq, Structural)]
pub enum NetError {
    /// A display name whose suffix is not a valid 1-based number.
    ParseName,
    /// A listed pin has no known position.
    PinNotFound,
    /// A segment whose endpoints coincide or differ on more than one axis.
    MalformedSegment,
    /// A segment would give a junction a second link in one direction.
    LinkConflict,
    /// A second redundant (cycle-closing) segment was seen.
    ExtraRedundancy,
    /// The junction graph did not end fully connected.
    Disconnected,
}

} // verus!
