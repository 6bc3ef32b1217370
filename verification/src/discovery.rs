//! The error surface of the server-reflexive address discovery boundary.
//!
//! Discovery itself is one blocking STUN round-trip performed by the
//! surrounding application; it is pure I/O and carries no algorithmic
//! content, so it lives outside the verified library. The library defines
//! the typed failures that the boundary must report, so that a caller can
//! retry, fall back to host-only candidates, or abort the negotiation
//! instead of crashing.

use vstd::prelude::*;

verus! {

/// A distinct failure of the address-discovery boundary.
#[derive(Clone, Copy, Debug, PartialEq, Eq, Structural)]
pub enum DiscoveryError {
    /// A textual socket address failed to parse.
    AddressParse,
    /// The local UDP socket could not be bound.
    SocketBind,
    /// The STUN server name resolved to no IPv4 address.
    Resolution,
    /// The STUN query yielded no response.
    NoResponse,
}

} // verus!
