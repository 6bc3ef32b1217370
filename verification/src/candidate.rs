//! The candidate model: one transport endpoint a peer offers for
//! communication, and its RFC 8445 section 5.1.2.1 priority formula.

use vstd::prelude::*;

verus! {

/// Transport protocol of a candidate.
#[derive(Clone, Copy, Debug, Hash, PartialEq, Eq, Structural)]
pub enum Protocol {
    Udp,
    Tcp,
}

/// RFC 8445 candidate type, which governs the type preference used by the
/// priority formula.
#[derive(Clone, Copy, Debug, Hash, PartialEq, Eq, Structural)]
pub enum CandidateType {
    Host,
    Srflx,
    Prflx,
    Relay,
}

/// An IPv4 address as four plain octets. The library is IPv4-only; holding
/// the octets directly keeps the address fully visible to the contracts.
#[derive(Clone, Copy, Debug, Hash, PartialEq, Eq, Structural)]
pub struct Ipv4Address {
    pub oct0: u8,
    pub oct1: u8,
    pub oct2: u8,
    pub oct3: u8,
}

impl Ipv4Address {
    pub fn new(oct0: u8, oct1: u8, oct2: u8, oct3: u8) -> (r: Ipv4Address)
        ensures
            r == (Ipv4Address { oct0, oct1, oct2, oct3 }),
    {
        Ipv4Address { oct0, oct1, oct2, oct3 }
    }
}

/// A transport address: an IPv4 address together with a port.
#[derive(Clone, Copy, Debug, Hash, PartialEq, Eq, Structural)]
pub struct TransportAddress {
    pub addr: Ipv4Address,
    pub port: u16,
}

/// Rejection of a malformed candidate at construction.
#[derive(Clone, Copy, Debug, PartialEq, Eq, Structural)]
pub enum ValidationError {
    /// The component identifier lies outside the range 1 to 255.
    ComponentOutOfRange,
}

/// A transport endpoint descriptor. A candidate is an immutable value type:
/// equality is structural over all fields, and no operation mutates one in
/// place.
#[derive(Clone, Copy, Debug, Hash, PartialEq, Eq, Structural)]
pub struct Candidate {
    /// The externally reachable address of this candidate.
    pub addr: Ipv4Address,
    /// The address of the local interface that originated this candidate;
    /// equals `addr` for host candidates.
    pub base_addr: Ipv4Address,
    pub port: u16,
    pub protocol: Protocol,
    pub kind: CandidateType,
    /// Grouping identifier for candidates sharing base address, protocol and
    /// type; carried as identity data, not used by pairing or priority.
    pub foundation: u32,
    /// Media stream component: 1 for RTP, 2 for RTCP unless multiplexed.
    /// Must lie in the range 1 to 255 for the priority formula to be defined.
    pub component: u32,
}

/// Type preference of the priority formula, RFC 8445 section 5.1.2.1.
pub open spec fn type_preference(kind: CandidateType) -> int {
    match kind {
        CandidateType::Host => 126,
        CandidateType::Prflx => 110,
        CandidateType::Srflx => 100,
        CandidateType::Relay => 0,
    }
}

/// The fixed local preference. Valid only under the single-homed assumption
/// (one usable IP per address family); a multihomed host would need a
/// per-address preference ranking instead.
pub const LOCAL_PREFERENCE: u32 = 65535;

/// The candidate priority formula:
/// `2^24 * type_preference + 2^8 * local_preference + (256 - component)`.
pub open spec fn spec_candidate_priority(c: Candidate) -> int {
    0x100_0000 * type_preference(c.kind) + 0x100 * (LOCAL_PREFERENCE as int) + (
    256 - c.component as int)
}

impl Candidate {
    /// A candidate's priority is defined only for a component in range.
    pub open spec fn wf(self) -> bool {
        1 <= self.component <= 255
    }

    /// The RFC 8445 section 5.1.2.1 priority of this candidate, a pure
    /// function of its type and component under the single-homed local
    /// preference.
    pub fn priority(&self) -> (r: u32)
        requires
            self.wf(),
        ensures
            r as int == spec_candidate_priority(*self),
    {
        let type_pref: u32 = match self.kind {
            CandidateType::Host => 126,
            CandidateType::Prflx => 110,
            CandidateType::Srflx => 100,
            CandidateType::Relay => 0,
        };
        0x100_0000 * type_pref + 0x100 * LOCAL_PREFERENCE + (256 - self.component)
    }

    /// The priority surfaced as a typed failure: a component outside the
    /// range 1 to 255 would make the formula's subtraction meaningless, so
    /// it is rejected instead of being wrapped or truncated.
    pub fn checked_priority(&self) -> (r: Result<u32, ValidationError>)
        ensures
            self.wf() ==> (r is Ok && r->Ok_0 as int == spec_candidate_priority(*self)),
            !self.wf() ==> r == Err::<u32, ValidationError>(ValidationError::ComponentOutOfRange),
    {
        if 1 <= self.component && self.component <= 255 {
            Ok(self.priority())
        } else {
            Err(ValidationError::ComponentOutOfRange)
        }
    }

    /// The externally reachable transport address of this candidate.
    pub fn transport_addr(&self) -> (r: TransportAddress)
        ensures
            r.addr == self.addr,
            r.port == self.port,
    {
        TransportAddress { addr: self.addr, port: self.port }
    }

    /// The default host candidate: a UDP host endpoint on 10.0.1.40:20000,
    /// component 1.
    pub fn new() -> (r: Candidate)
        ensures
            r == (Candidate {
                addr: Ipv4Address { oct0: 10, oct1: 0, oct2: 1, oct3: 40 },
                base_addr: Ipv4Address { oct0: 10, oct1: 0, oct2: 1, oct3: 40 },
                port: 20000,
                protocol: Protocol::Udp,
                kind: CandidateType::Host,
                foundation: 1,
                component: 1,
            }),
            r.wf(),
    {
        Candidate {
            addr: Ipv4Address { oct0: 10, oct1: 0, oct2: 1, oct3: 40 },
            base_addr: Ipv4Address { oct0: 10, oct1: 0, oct2: 1, oct3: 40 },
            port: 20000,
            protocol: Protocol::Udp,
            kind: CandidateType::Host,
            foundation: 1,
            component: 1,
        }
    }

    /// Builds a candidate from its fields, rejecting a component outside the
    /// range 1 to 255 before it can ever reach the priority formula.
    pub fn try_new(
        addr: Ipv4Address,
        base_addr: Ipv4Address,
        port: u16,
        protocol: Protocol,
        kind: CandidateType,
        foundation: u32,
        component: u32,
    ) -> (r: Result<Candidate, ValidationError>)
        ensures
            1 <= component <= 255 ==> r == Ok::<Candidate, ValidationError>(
                Candidate { addr, base_addr, port, protocol, kind, foundation, component },
            ),
            !(1 <= component <= 255) ==> r == Err::<Candidate, ValidationError>(
                ValidationError::ComponentOutOfRange,
            ),
            r is Ok ==> r->Ok_0.wf(),
    {
        if 1 <= component && component <= 255 {
            Ok(Candidate { addr, base_addr, port, protocol, kind, foundation, component })
        } else {
            Err(ValidationError::ComponentOutOfRange)
        }
    }
}

} // verus!
