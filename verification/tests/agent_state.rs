use ice_pairing::agent::Agent;
use ice_pairing::agent::IceState;
use ice_pairing::agent::Role;
use ice_pairing::agent::set_icestate;
use ice_pairing::discovery::DiscoveryError;

#[test]
fn set_icestate_updates_in_place() {
    let mut agent = Agent { state: IceState::Running, role: Role::Controlling };
    set_icestate(&mut agent, IceState::Completed);
    assert_eq!(agent.state, IceState::Completed);
    assert_eq!(agent.role, Role::Controlling);
    set_icestate(&mut agent, IceState::Failed);
    assert_eq!(agent.state, IceState::Failed);
}

#[test]
fn discovery_errors_are_distinct() {
    let all = [
        DiscoveryError::AddressParse,
        DiscoveryError::SocketBind,
        DiscoveryError::Resolution,
        DiscoveryError::NoResponse,
    ];
    for (i, a) in all.iter().enumerate() {
        for (j, b) in all.iter().enumerate() {
            assert_eq!(i == j, a == b);
        }
    }
}
