use bertha::compat::{stack_pair_partial_valid, stack_pair_valid};
use bertha::nonce::{Offer, StackNonce};

fn nonce(offers: Vec<Offer>) -> StackNonce {
    StackNonce { offers }
}

fn one_sided(cap: u64, imp: u64, universe: Vec<u32>, available: Vec<u32>) -> Offer {
    Offer { capability_guid: cap, impl_guid: imp, universe: Some(universe), available }
}

fn both_sided(cap: u64, imp: u64, available: Vec<u32>) -> Offer {
    Offer { capability_guid: cap, impl_guid: imp, universe: None, available }
}

#[test]
fn one_sided_universe_covered_jointly() {
    // Universe {1, 2, 3}: each side alone covers part, together all of it.
    let a = nonce(vec![one_sided(7, 70, vec![1, 2, 3], vec![1, 2])]);
    let b = nonce(vec![one_sided(7, 71, vec![1, 2, 3], vec![3])]);
    assert!(stack_pair_valid(&a, &b));

    // Without the second side, variant 3 is uncovered.
    let short = nonce(vec![one_sided(7, 71, vec![1, 2, 3], vec![2])]);
    assert!(!stack_pair_valid(&a, &short));
}

#[test]
fn one_sided_absent_peer_needs_full_coverage() {
    let full = nonce(vec![one_sided(7, 70, vec![1, 2], vec![1, 2])]);
    let empty = nonce(vec![]);
    assert!(stack_pair_valid(&full, &empty));
    assert!(stack_pair_valid(&empty, &full));

    let partial = nonce(vec![one_sided(7, 70, vec![1, 2], vec![1])]);
    assert!(!stack_pair_valid(&partial, &empty));

    // A non-empty available set is required even for an empty universe.
    let nothing = nonce(vec![one_sided(7, 70, vec![], vec![])]);
    assert!(!stack_pair_valid(&nothing, &empty));
}

#[test]
fn both_sided_requires_identical_declarations() {
    let a = nonce(vec![both_sided(9, 90, vec![4, 5])]);
    let same = nonce(vec![both_sided(9, 90, vec![5, 4])]);
    assert!(stack_pair_valid(&a, &same));

    let other_impl = nonce(vec![both_sided(9, 91, vec![4, 5])]);
    assert!(!stack_pair_valid(&a, &other_impl));

    let other_variants = nonce(vec![both_sided(9, 90, vec![4])]);
    assert!(!stack_pair_valid(&a, &other_variants));

    // A both-sided capability cannot be satisfied by one side alone.
    let empty = nonce(vec![]);
    assert!(!stack_pair_valid(&a, &empty));
}

#[test]
fn validity_is_symmetric() {
    let pairs = vec![
        (
            nonce(vec![one_sided(7, 70, vec![1, 2], vec![1]), both_sided(9, 90, vec![3])]),
            nonce(vec![one_sided(7, 71, vec![1, 2], vec![2]), both_sided(9, 90, vec![3])]),
        ),
        (
            nonce(vec![both_sided(9, 90, vec![3])]),
            nonce(vec![both_sided(9, 91, vec![3])]),
        ),
        (
            nonce(vec![one_sided(7, 70, vec![1], vec![1])]),
            nonce(vec![]),
        ),
    ];
    for (a, b) in pairs {
        assert_eq!(stack_pair_valid(&a, &b), stack_pair_valid(&b, &a));
    }
}

#[test]
fn partial_validity_needs_a_shared_capability() {
    let client = nonce(vec![both_sided(9, 90, vec![1])]);
    let disjoint = nonce(vec![both_sided(8, 80, vec![1])]);
    assert!(!stack_pair_partial_valid(&client, &disjoint));

    let shared = nonce(vec![both_sided(9, 90, vec![1]), both_sided(8, 80, vec![1])]);
    assert!(stack_pair_partial_valid(&client, &shared));

    // Partial validity only inspects the client's capabilities, so it is
    // not symmetric: the extra server capability never disqualifies.
    let mismatched = nonce(vec![both_sided(9, 91, vec![1])]);
    assert!(!stack_pair_partial_valid(&client, &mismatched));
}

#[test]
fn partial_validity_covers_one_sided_jointly() {
    let client = nonce(vec![one_sided(7, 70, vec![1, 2], vec![1])]);
    let server = nonce(vec![one_sided(7, 71, vec![1, 2], vec![2])]);
    assert!(stack_pair_partial_valid(&client, &server));

    let weak_server = nonce(vec![one_sided(7, 71, vec![1, 2], vec![1])]);
    assert!(!stack_pair_partial_valid(&client, &weak_server));
}
