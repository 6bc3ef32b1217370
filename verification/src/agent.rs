//! The negotiation agent: its overall ICE state and its negotiation role.

use vstd::prelude::*;

verus! {

/// Overall state of an ICE negotiation session.
#[derive(Clone, Copy, Debug, PartialEq, Eq, Structural)]
pub enum IceState {
    Running,
    Completed,
    Failed,
}

/// The negotiation role of the agent evaluating a pair. The same pair is
/// evaluated by both sides of a negotiation with different roles, so every
/// priority-dependent operation takes the role as an explicit argument;
/// it is never ambient state.
#[derive(Clone, Copy, Debug, PartialEq, Eq, Structural)]
pub enum Role {
    Controlled,
    Controlling,
}

/// An agent owning one negotiation: its session state and its role.
pub struct Agent {
    pub state: IceState,
    pub role: Role,
}

/// Replaces the agent's session state in place, leaving its role unchanged.
pub fn set_icestate(agent: &mut Agent, state: IceState)
    ensures
        final(agent).state == state,
        final(agent).role == old(agent).role,
{
    agent.state = state;
}

} // verus!
