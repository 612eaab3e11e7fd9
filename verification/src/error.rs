use vstd::prelude::*;

verus! {

/// Why an operation of this library gave up.
///
/// Every failure is final: the inputs are deterministic, so the same call
/// fails the same way again.
#[derive(Copy, Clone, Debug, PartialEq, Eq, Structural)]
pub enum Error {
    /// A truth table that misses an input combination or names one twice.
    MalformedGate,
    /// A reference to a gate, an input or a tree node that does not exist, or
    /// an index too wide for the place it is stored in.
    OutOfRangeIndex,
    /// A circuit in which a gate depends on its own value.
    CyclicCircuit,
    /// A step of the garbling protocol whose precondition does not hold: too
    /// few derived secrets, a row missing from a table, or two rows with one
    /// lookup key.
    ProtocolPrecondition,
}

} // verus!
