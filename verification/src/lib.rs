//! Candidate pairing and prioritization for Interactive Connectivity
//! Establishment (ICE), RFC 8445 sections 6.1.2.2 to 6.1.2.6.
//!
//! Given locally gathered candidates and candidates received from a remote
//! peer, this library forms all component-matching candidate pairs, assigns
//! each pair a role-dependent 64-bit priority, prunes redundant pairs that
//! would probe the same network path, and orders the surviving pairs into a
//! checklist for a connectivity-check scheduler.

pub mod agent;
pub mod candidate;
pub mod discovery;
pub mod pairs;
