use ice_pairing::agent::Role;
use ice_pairing::candidate::Candidate;
use ice_pairing::candidate::CandidateType;
use ice_pairing::candidate::Ipv4Address;
use ice_pairing::candidate::Protocol;
use ice_pairing::candidate::ValidationError;
use ice_pairing::pairs::pair_candidates;
use ice_pairing::pairs::Checklist;
use ice_pairing::pairs::ChecklistState;
use ice_pairing::pairs::PairState;

#[test]
fn test_calcs_priority() {
    let mut candidate = Candidate {
        addr: Ipv4Address::new(10, 0, 1, 40),
        base_addr: Ipv4Address::new(10, 0, 1, 40),
        port: 20000,
        protocol: Protocol::Udp,
        kind: CandidateType::Host,
        foundation: 1,
        component: 1, // 1 for RTP and 2 for RTCP unless multiplexed
    };
    assert_eq!(candidate.priority(), 2130706431);
    candidate.component = 2;
    assert_eq!(candidate.priority(), 2130706430);
    candidate.component = 1;
    candidate.kind = CandidateType::Srflx;
    assert_eq!(candidate.priority(), 1694498815);
}

#[test]
fn test_pair_candidates() {
    let local_candidates = vec![Candidate::new(), Candidate::new(), Candidate::new()];
    let remote_candidates = vec![Candidate::new(), Candidate::new(), Candidate::new()];
    // Given 3 remotes and 3 locals there should be 9 total pairs
    assert_eq!(
        pair_candidates(local_candidates, remote_candidates).pairs.len(),
        9
    );
}

#[test]
fn test_pair_priority_calculation() {
    let local_candidates = vec![Candidate::new(), Candidate::new(), Candidate::new()];
    let remote_candidates = vec![Candidate::new(), Candidate::new(), Candidate::new()];
    let checklist = pair_candidates(local_candidates, remote_candidates);

    assert_eq!(
        checklist.pairs[0].priority(Role::Controlled),
        9151314442783293438
    );
}

#[test]
fn test_pair_prune_and_ordering() {
    let local_candidates = vec![Candidate::new(), Candidate::new(), Candidate::new()];
    let remote_candidates = vec![Candidate::new(), Candidate::new(), Candidate::new()];
    let checklist = pair_candidates(local_candidates, remote_candidates);
    assert_eq!(checklist.prune(Role::Controlling).pairs.len(), 1);
}

/// A candidate with the given type and component on the given host byte.
fn candidate(kind: CandidateType, component: u32, host: u8) -> Candidate {
    Candidate::try_new(
        Ipv4Address::new(10, 0, 1, host),
        Ipv4Address::new(10, 0, 1, host),
        20000,
        Protocol::Udp,
        kind,
        1,
        component,
    )
    .unwrap()
}

#[test]
fn pairing_cardinality_two_components() {
    // 2 locals of component 1 and 1 of component 2, against 1 remote of
    // component 1 and 2 of component 2: 2*1 + 1*2 = 4 pairs.
    let locals = vec![
        candidate(CandidateType::Host, 1, 1),
        candidate(CandidateType::Host, 1, 2),
        candidate(CandidateType::Host, 2, 3),
    ];
    let remotes = vec![
        candidate(CandidateType::Host, 1, 4),
        candidate(CandidateType::Host, 2, 5),
        candidate(CandidateType::Host, 2, 6),
    ];
    let checklist = pair_candidates(locals, remotes);
    assert_eq!(checklist.pairs.len(), 4);
    assert_eq!(checklist.state, ChecklistState::Running);
    for pair in &checklist.pairs {
        assert_eq!(pair.local.component, pair.remote.component);
        assert_eq!(pair.state, PairState::Frozen);
    }
}

#[test]
fn pairing_empty_sides() {
    let none: Vec<Candidate> = vec![];
    assert_eq!(pair_candidates(none.clone(), vec![Candidate::new()]).pairs.len(), 0);
    assert_eq!(pair_candidates(vec![Candidate::new()], none.clone()).pairs.len(), 0);
    assert_eq!(pair_candidates(none.clone(), none).pairs.len(), 0);
}

#[test]
fn prune_is_idempotent() {
    // Distinct base addresses and types give several surviving pairs.
    let locals = vec![
        candidate(CandidateType::Host, 1, 1),
        candidate(CandidateType::Srflx, 1, 2),
        candidate(CandidateType::Relay, 1, 3),
    ];
    let remotes = vec![
        candidate(CandidateType::Host, 1, 4),
        candidate(CandidateType::Prflx, 1, 5),
    ];
    let once = pair_candidates(locals, remotes).prune(Role::Controlled);
    let again = Checklist { pairs: once.pairs.clone(), state: ChecklistState::Running }
        .prune(Role::Controlled);
    assert_eq!(once.pairs, again.pairs);
    assert_eq!(once.pairs.len(), 6);
}

#[test]
fn prune_orders_ascending() {
    let locals = vec![
        candidate(CandidateType::Relay, 1, 1),
        candidate(CandidateType::Host, 1, 2),
        candidate(CandidateType::Srflx, 1, 3),
    ];
    let remotes = vec![candidate(CandidateType::Host, 1, 4)];
    let pruned = pair_candidates(locals, remotes).prune(Role::Controlling);
    assert_eq!(pruned.pairs.len(), 3);
    for window in pruned.pairs.windows(2) {
        assert!(window[0].priority(Role::Controlling) <= window[1].priority(Role::Controlling));
    }
}

#[test]
fn prune_keeps_higher_priority_duplicate() {
    // Two locals sharing one base address against one remote: one pair
    // survives, the one whose pair priority is higher (the Host one).
    let mut srflx = candidate(CandidateType::Srflx, 1, 1);
    srflx.addr = Ipv4Address::new(192, 0, 2, 7);
    let host = candidate(CandidateType::Host, 1, 1);
    let remotes = vec![candidate(CandidateType::Host, 1, 4)];
    let pruned = pair_candidates(vec![srflx, host], remotes).prune(Role::Controlling);
    assert_eq!(pruned.pairs.len(), 1);
    assert_eq!(pruned.pairs[0].local.kind, CandidateType::Host);
}

#[test]
fn role_sensitivity_asymmetric_pair() {
    let locals = vec![candidate(CandidateType::Host, 1, 1)];
    let remotes = vec![candidate(CandidateType::Srflx, 1, 2)];
    let checklist = pair_candidates(locals, remotes);
    let pair = checklist.pairs[0];
    let controlling = pair.priority(Role::Controlling);
    let controlled = pair.priority(Role::Controlled);
    // G is the local candidate under Controlling, and here the local (Host)
    // priority is larger, so only the Controlling evaluation gets the
    // tie-break bit.
    assert_ne!(controlling, controlled);
    assert_eq!(controlling, controlled + 1);
    let g: u64 = 2130706431;
    let d: u64 = 1694498815;
    assert_eq!(controlling, (1u64 << 32) * d + 2 * g + 1);
}

#[test]
fn symmetric_pair_role_insensitive() {
    let pair = pair_candidates(vec![Candidate::new()], vec![Candidate::new()]).pairs[0];
    assert_eq!(
        pair.priority(Role::Controlling),
        pair.priority(Role::Controlled)
    );
}

#[test]
fn try_new_rejects_component_out_of_range() {
    let addr = Ipv4Address::new(10, 0, 1, 40);
    for component in [0u32, 256, 1000] {
        let r = Candidate::try_new(addr, addr, 20000, Protocol::Udp, CandidateType::Host, 1, component);
        assert_eq!(r, Err(ValidationError::ComponentOutOfRange));
    }
}

#[test]
fn try_new_accepts_component_in_range() {
    let addr = Ipv4Address::new(10, 0, 1, 40);
    for component in [1u32, 2, 255] {
        let c = Candidate::try_new(addr, addr, 20000, Protocol::Tcp, CandidateType::Relay, 9, component)
            .unwrap();
        assert_eq!(c.component, component);
        assert_eq!(c.protocol, Protocol::Tcp);
        assert_eq!(c.kind, CandidateType::Relay);
        assert_eq!(c.foundation, 9);
    }
}

#[test]
fn checked_priority_rejects_or_computes() {
    let mut c = Candidate::new();
    assert_eq!(c.checked_priority(), Ok(2130706431));
    c.component = 0;
    assert_eq!(c.checked_priority(), Err(ValidationError::ComponentOutOfRange));
    c.component = 256;
    assert_eq!(c.checked_priority(), Err(ValidationError::ComponentOutOfRange));
    c.component = 255;
    assert_eq!(c.checked_priority(), Ok(2130706177));
}

#[test]
fn relay_priority_value() {
    // Type preference 0: priority is 2^8 * 65535 + (256 - 1).
    let c = candidate(CandidateType::Relay, 1, 1);
    assert_eq!(c.priority(), 16777215);
}

#[test]
fn transport_addr_returns_addr_and_port() {
    let c = Candidate::new();
    let t = c.transport_addr();
    assert_eq!(t.addr, Ipv4Address::new(10, 0, 1, 40));
    assert_eq!(t.port, 20000);
}
