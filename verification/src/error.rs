use vstd::prelude::*;

verus! {

/// Failures surfaced by the codec. Every operation is fail-fast: the first
/// error aborts the whole decode or encode pass and is handed to the caller
/// unchanged.
#[derive(Clone, Copy, Debug, PartialEq, Eq, Structural)]
pub enum DnsError {
    /// A read, peek or write would leave the 512-byte datagram.
    OutOfBounds,
    /// A domain-name label longer than 63 bytes was given to the encoder.
    LabelTooLong,
    /// A compressed name followed more pointers than any well-formed
    /// datagram can hold, which can only happen on a pointer cycle.
    PointerLoop,
}

} // verus!
