//! The ways in which the library turns an input down.

use vstd::prelude::*;

verus! {

/// Why an input was turned down.
#[derive(Clone, Copy, Debug, PartialEq, Eq, Structural)]
pub enum EtError {
    /// Something that was asked for by name is not there.
    InputMissing,
    /// A value has the wrong kind or shape: a property that is no scalar,
    /// a face that is no triangle on known vertices, a list of the wrong
    /// length.
    InputMalformed,
    /// The burn graph does not hang together as the burning needs it.
    InternalInvariant,
}

} // verus!
