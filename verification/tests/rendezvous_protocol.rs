use bertha::negotiate::solo_monomorphize;
use bertha::nonce::nonce_eq;
use bertha::rendezvous::{
    expire_leases, leave, negotiate_rendezvous, notify_step, poll_entry, staged_applied,
    staged_update, transition_complete, transition_start, try_init, NegotiateRendezvousResult,
    NotifyAction, RendezvousEntry, UpgradeEitherConn, UpgradeSelect,
};
use bertha::stack::{Layer, Preference, Stack};
use bertha::NegotiateError;

const A_CAP: u64 = 0xa0;
const A_IMPL: u64 = 0xa1;
const B_CAP: u64 = 0xb0;
const B_IMPL: u64 = 0xb1;
const C_CAP: u64 = 0xc0;
const C_IMPL: u64 = 0xc1;
const BASE_CAP: u64 = 0xe0;
const BASE_IMPL: u64 = 0xe1;

fn leaf(cap: u64, imp: u64) -> Stack {
    Stack::leaf(Layer {
        capability_guid: cap,
        impl_guid: imp,
        universe: None,
        available: vec![],
        priority: 0,
    })
}

/// The shared test stack: Sequence(A, UpgradeSelect(B, C), base).
fn upgradable_stack() -> (Stack, bertha::rendezvous::UpgradeHandle) {
    let (sel, handle) = UpgradeSelect::from_select(
        leaf(B_CAP, B_IMPL),
        leaf(C_CAP, C_IMPL),
        Preference::Unspecified,
    );
    let stack = Stack::sequence(
        Stack::sequence(leaf(A_CAP, A_IMPL), sel.inner),
        leaf(BASE_CAP, BASE_IMPL),
    );
    (stack, handle)
}

#[test]
fn rendezvous_join_three_participants() {
    let (stack, _h) = upgradable_stack();
    let n1 = solo_monomorphize(&stack).expect("self-negotiation");

    // The first participant registers N1.
    let (state, res1) = try_init(None, 1, &RendezvousEntry { nonce: n1.clone() }, 100);
    match res1 {
        NegotiateRendezvousResult::Matched { num_participants, round_number } => {
            assert_eq!(num_participants, 1);
            assert_eq!(round_number, 0);
        },
        _ => panic!("first participant matches"),
    }

    // The second offers the same nonce and matches.
    let (state, res2) = try_init(Some(state), 2, &RendezvousEntry { nonce: n1.clone() }, 100);
    match res2 {
        NegotiateRendezvousResult::Matched { num_participants, round_number } => {
            assert_eq!(num_participants, 2);
            assert_eq!(round_number, 0);
        },
        _ => panic!("second participant matches"),
    }

    // The third offers a different nonce (the C branch) and is told N1.
    let (c_stack, _h2) = upgradable_stack();
    let offers = c_stack.offers();
    let n2 = offers[1].clone();
    assert!(!nonce_eq(&n1, &n2));
    let (state, res3) = try_init(Some(state), 3, &RendezvousEntry { nonce: n2 }, 100);
    match &res3 {
        NegotiateRendezvousResult::NoMatch { entry, num_participants, round_number } => {
            assert_eq!(*num_participants, 3);
            assert_eq!(*round_number, 0);
            assert!(nonce_eq(&entry.nonce, &n1));
        },
        _ => panic!("third participant is told the semantics in force"),
    }

    // The third adopts N1: its connection runs the entry in force.
    let (p3_stack, _h3) = upgradable_stack();
    let (applied, handle) =
        negotiate_rendezvous(&p3_stack, offers[1].clone(), res3).expect("adopting N1 applies");
    assert!(nonce_eq(&handle.curr_entry.nonce, &n1));
    assert!(applied.layers.iter().any(|l| l.impl_guid == B_IMPL));
    assert_eq!(state.participants.len(), 3);
}

#[test]
fn rendezvous_transition_commits() {
    let (stack, upgrade) = upgradable_stack();
    let n1 = solo_monomorphize(&stack).expect("self-negotiation");

    let (mut state, res1) = try_init(None, 1, &RendezvousEntry { nonce: n1.clone() }, 100);
    let (p1_stack, _h1) = upgradable_stack();
    let (_applied1, mut p1) =
        negotiate_rendezvous(&p1_stack, n1.clone(), res1).expect("participant 1 joins");
    let (state2, res2) = try_init(Some(state), 2, &RendezvousEntry { nonce: n1.clone() }, 100);
    state = state2;
    let (p2_stack, p2_handle) = upgradable_stack();
    let (_applied2, mut p2) =
        negotiate_rendezvous(&p2_stack, n1.clone(), res2).expect("participant 2 joins");

    // Participant 1 triggers the right branch: the C specialization.
    let wanted = upgrade.trigger_right();
    let n2 = p1.handle_trigger(&wanted).expect("stub resolves to a full nonce");
    assert!(n2.get(C_CAP).is_some());

    let started = transition_start(&mut state, RendezvousEntry { nonce: n2.clone() });
    assert_eq!(started, 1);
    assert_eq!(state.commit_count, 1);

    // Participant 2 polls at its old round and learns of the staged entry.
    let polled = poll_entry(&mut state, 2, &RendezvousEntry { nonce: n1.clone() }, 0, 200)
        .expect("poll succeeds");
    let observed = notify_step(polled, p2.curr_num_participants).expect("news to report");
    let action = p2
        .handle_notify(observed, &vec![p2_handle])
        .expect("notification handled");
    let staged_entry = match action {
        NotifyAction::CommitStaged(entry) => entry,
        _ => panic!("participant 2 finds the new stack compatible"),
    };
    assert!(nonce_eq(&staged_entry.nonce, &n2));

    // Participant 2 accepts; the commit can now conclude.
    staged_update(&mut state, 1).expect("round numbers agree");
    assert_eq!(state.commit_count, 2);
    let done = transition_complete(&mut state, started).expect("commit concludes");
    assert_eq!(done, Some(2));
    assert!(nonce_eq(&state.current.nonce, &n2));
    assert_eq!(staged_applied(&state), Some(2));

    // The upgradable connection swaps its concrete stack before the next
    // send: the C branch now carries the traffic.
    let mut conn = UpgradeEitherConn::new(
        leaf(B_CAP, B_IMPL),
        leaf(C_CAP, C_IMPL),
        Preference::Unspecified,
        &n1,
    )
    .expect("the picked nonce applies");
    assert!(conn.current.layers.iter().any(|l| l.impl_guid == B_IMPL));
    conn.try_upgrade(&n2).expect("the staged nonce applies");
    assert!(conn.current.layers.iter().any(|l| l.impl_guid == C_IMPL));
    assert!(!conn.current.layers.iter().any(|l| l.impl_guid == B_IMPL));

    // Both monitors record the new entry before the next send.
    p2.committed(2, staged_entry).expect("round moves forward");
    p1.committed(2, RendezvousEntry { nonce: n2.clone() }).expect("round moves forward");
    assert_eq!(p1.curr_round, 2);
    assert_eq!(p2.curr_round, 2);
    assert!(nonce_eq(&p1.curr_entry.nonce, &n2));
    assert!(nonce_eq(&p2.curr_entry.nonce, &n2));
}

#[test]
fn rendezvous_incompatible_transition_rolls_back() {
    let (stack, upgrade) = upgradable_stack();
    let n1 = solo_monomorphize(&stack).expect("self-negotiation");

    let (mut state, res1) = try_init(None, 1, &RendezvousEntry { nonce: n1.clone() }, 100);
    let (p1_stack, _h1) = upgradable_stack();
    let (_applied1, mut p1) =
        negotiate_rendezvous(&p1_stack, n1.clone(), res1).expect("participant 1 joins");
    let (state2, res2) = try_init(Some(state), 2, &RendezvousEntry { nonce: n1.clone() }, 100);
    state = state2;

    // Participant 2's upgradable choice covers different capabilities, so
    // the C proposal is incompatible with it.
    let (p2_sel, p2_handle) = UpgradeSelect::from_select(
        leaf(0x90, 0x91),
        leaf(0x92, 0x93),
        Preference::Unspecified,
    );
    drop(p2_sel);
    let (p2_stack, _h2) = upgradable_stack();
    let (_applied2, mut p2) =
        negotiate_rendezvous(&p2_stack, n1.clone(), res2).expect("participant 2 joins");

    // Participant 1 proposes the C specialization.
    let wanted = upgrade.trigger_right();
    let n2 = p1.handle_trigger(&wanted).expect("stub resolves");
    let started = transition_start(&mut state, RendezvousEntry { nonce: n2.clone() });
    assert_eq!(started, 1);

    // Participant 2 deems it incompatible and counter-proposes N1.
    let polled = poll_entry(&mut state, 2, &RendezvousEntry { nonce: n1.clone() }, 0, 200)
        .expect("poll succeeds");
    let action = p2.handle_notify(polled, &vec![p2_handle]).expect("notification handled");
    let rollback_entry = match action {
        NotifyAction::Rollback(entry) => entry,
        _ => panic!("participant 2 rejects the new stack"),
    };
    assert!(nonce_eq(&rollback_entry.nonce, &n1));

    let counter_round = transition_start(&mut state, rollback_entry);
    assert_eq!(counter_round, 2);

    // Participant 1's commit of N2 lost the race.
    match transition_complete(&mut state, started) {
        Err(NegotiateError::TransitionRejected) => {},
        _ => panic!("the N2 commit must fail"),
    }

    // Participant 1's monitor observes the rollback and accepts it.
    let polled1 = poll_entry(&mut state, 1, &RendezvousEntry { nonce: n1.clone() }, 0, 200)
        .expect("poll succeeds");
    match &polled1 {
        NegotiateRendezvousResult::NoMatch { entry, .. } => {
            assert!(nonce_eq(&entry.nonce, &n1));
        },
        _ => panic!("participant 1 sees the counter-proposal"),
    }
    staged_update(&mut state, 2).expect("round numbers agree");
    let done = transition_complete(&mut state, counter_round).expect("rollback concludes");
    assert_eq!(done, Some(3));
    assert!(nonce_eq(&state.current.nonce, &n1));
    p1.committed(3, RendezvousEntry { nonce: n1.clone() }).expect("round moves forward");
    assert!(nonce_eq(&p1.curr_entry.nonce, &n1));
}

#[test]
fn rounds_never_go_backwards() {
    let (stack, _h) = upgradable_stack();
    let n1 = solo_monomorphize(&stack).expect("self-negotiation");
    let (mut state, _res) = try_init(None, 1, &RendezvousEntry { nonce: n1.clone() }, 100);

    // A poll claiming a round ahead of the store is refused.
    match poll_entry(&mut state, 1, &RendezvousEntry { nonce: n1.clone() }, 5, 200) {
        Err(NegotiateError::RendezvousBackend) => {},
        _ => panic!("a backwards round must be refused"),
    }

    // The round only grows across a full transition.
    let r1 = transition_start(&mut state, RendezvousEntry { nonce: n1.clone() });
    assert!(r1 > 0);
    let done = transition_complete(&mut state, r1).expect("single participant commits alone");
    assert_eq!(done, Some(r1 + 1));

    // A monitor refuses a report of an earlier round.
    let (p_stack, _hh) = upgradable_stack();
    let (_a, mut monitor) = negotiate_rendezvous(
        &p_stack,
        n1.clone(),
        NegotiateRendezvousResult::Matched { num_participants: 1, round_number: 4 },
    )
    .expect("join");
    match monitor.handle_notify(
        NegotiateRendezvousResult::Matched { num_participants: 1, round_number: 3 },
        &Vec::new(),
    ) {
        Err(NegotiateError::RendezvousBackend) => {},
        _ => panic!("an earlier round must be refused"),
    }
    assert_eq!(monitor.curr_round, 4);
}

#[test]
fn leases_expire_and_commits_unblock() {
    let (stack, _h) = upgradable_stack();
    let n1 = solo_monomorphize(&stack).expect("self-negotiation");
    let (mut state, _r1) = try_init(None, 1, &RendezvousEntry { nonce: n1.clone() }, 100);
    let (state2, _r2) = try_init(Some(state), 2, &RendezvousEntry { nonce: n1.clone() }, 150);
    state = state2;
    assert_eq!(state.participants.len(), 2);

    // Participant 1 proposes; participant 2 never answers and its lease
    // runs out, so the commit concludes without it.
    let started = transition_start(&mut state, RendezvousEntry { nonce: n1.clone() });
    expire_leases(&mut state, 120);
    assert_eq!(state.participants.len(), 1);
    let done = transition_complete(&mut state, started).expect("commit concludes");
    assert_eq!(done, Some(2));

    // An explicit leave removes the last participant.
    leave(&mut state, 2);
    assert_eq!(state.participants.len(), 0);
}

#[test]
fn notify_passes_membership_changes_through() {
    let matched_same = NegotiateRendezvousResult::Matched { num_participants: 2, round_number: 1 };
    assert!(notify_step(matched_same, 2).is_none());
    let matched_grew = NegotiateRendezvousResult::Matched { num_participants: 3, round_number: 1 };
    match notify_step(matched_grew, 2) {
        Some(NegotiateRendezvousResult::Matched { num_participants, .. }) => {
            assert_eq!(num_participants, 3);
        },
        _ => panic!("membership changes are news"),
    }
}
