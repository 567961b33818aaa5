use vstd::prelude::*;

verus! {

/// The ways an encode or a decode can fail.
#[derive(Clone, Copy, Debug, PartialEq, Eq, Structural)]
pub enum Error {
    /// The source ended in the middle of a value.
    Truncated,
    /// A compact integer does not fit in 32 bits.
    Overflow,
    /// The sink's fixed capacity would be exceeded.
    CapacityExceeded,
}

} // verus!
