use bertha::negotiate::{apply, solo_monomorphize};
use bertha::nonce::{nonce_eq, StackNonce};
use bertha::NegotiateError;
use bertha::rendezvous::{find_stack_from_stub, UpgradeSelect};
use bertha::stack::{Layer, Preference, Stack};

// Capability and implementation guids for the mock layers.
const A_CAP: u64 = 0xa0;
const A_IMPL: u64 = 0xa1;
const B_CAP: u64 = 0xb0;
const B_IMPL: u64 = 0xb1;
const C_CAP: u64 = 0xc0;
const C_IMPL: u64 = 0xc1;
const BASE_CAP: u64 = 0xe0;
const BASE_IMPL: u64 = 0xe1;

fn layer(cap: u64, imp: u64) -> Layer {
    Layer { capability_guid: cap, impl_guid: imp, universe: None, available: vec![], priority: 0 }
}

fn leaf(cap: u64, imp: u64) -> Stack {
    Stack::leaf(layer(cap, imp))
}

#[test]
fn offers_counts_choices() {
    // Two side-by-side selects: 2^2 = 4 concrete stacks.
    let s = Stack::sequence(
        Stack::select(leaf(B_CAP, B_IMPL), leaf(C_CAP, C_IMPL), Preference::Unspecified),
        Stack::select(leaf(0xd0, 0xd1), leaf(0xf0, 0xf1), Preference::Unspecified),
    );
    assert_eq!(s.offers().len(), 4);

    // A nested select is a three-way choice, not 2^2.
    let nested = Stack::select(
        Stack::select(leaf(C_CAP, C_IMPL), leaf(0xd0, 0xd1), Preference::Unspecified),
        leaf(B_CAP, B_IMPL),
        Preference::Unspecified,
    );
    assert_eq!(nested.offers().len(), 3);
}

#[test]
fn concrete_stack_applies_to_own_offer() {
    let s = Stack::sequence(leaf(A_CAP, A_IMPL), leaf(BASE_CAP, BASE_IMPL));
    let offers = s.offers();
    assert_eq!(offers.len(), 1);
    let applied = apply(&s, &offers[0]).expect("self-application works");
    assert_eq!(applied.layers.len(), 2);
    assert_eq!(applied.layers[0].capability_guid, A_CAP);
    assert_eq!(applied.layers[0].impl_guid, A_IMPL);
    assert_eq!(applied.layers[1].capability_guid, BASE_CAP);
    assert_eq!(applied.layers[1].impl_guid, BASE_IMPL);
}

#[test]
fn self_monomorphize_two_branches() {
    // Sequence(A, Select(B, C), base): two nonces, {A, B, base} then
    // {A, C, base}.
    let s = Stack::sequence(
        Stack::sequence(
            leaf(A_CAP, A_IMPL),
            Stack::select(leaf(B_CAP, B_IMPL), leaf(C_CAP, C_IMPL), Preference::Unspecified),
        ),
        leaf(BASE_CAP, BASE_IMPL),
    );
    let offers = s.offers();
    assert_eq!(offers.len(), 2);

    assert!(offers[0].get(A_CAP).is_some());
    assert!(offers[0].get(B_CAP).is_some());
    assert!(offers[0].get(BASE_CAP).is_some());
    assert!(offers[0].get(C_CAP).is_none());

    assert!(offers[1].get(A_CAP).is_some());
    assert!(offers[1].get(C_CAP).is_some());
    assert!(offers[1].get(BASE_CAP).is_some());
    assert!(offers[1].get(B_CAP).is_none());

    let picked = solo_monomorphize(&s).expect("self-negotiation succeeds");
    assert!(nonce_eq(&picked, &offers[0]));
}

#[test]
fn self_monomorphize_respects_preference() {
    let prefer_right = Stack::sequence(
        leaf(A_CAP, A_IMPL),
        Stack::select(leaf(B_CAP, B_IMPL), leaf(C_CAP, C_IMPL), Preference::Right),
    );
    let picked = solo_monomorphize(&prefer_right).expect("self-negotiation succeeds");
    assert!(picked.get(C_CAP).is_some());
    assert!(picked.get(B_CAP).is_none());
}

#[test]
fn solo_monomorphize_associative() {
    let stack1 = Stack::select(
        Stack::sequence(leaf(B_CAP, B_IMPL), leaf(A_CAP, A_IMPL)),
        Stack::sequence(leaf(C_CAP, C_IMPL), leaf(A_CAP, A_IMPL)),
        Preference::Unspecified,
    );
    let stack2 = Stack::sequence(
        Stack::select(leaf(B_CAP, B_IMPL), leaf(C_CAP, C_IMPL), Preference::Unspecified),
        leaf(A_CAP, A_IMPL),
    );

    let n1 = solo_monomorphize(&stack1).expect("stack 1");
    let n2 = solo_monomorphize(&stack2).expect("stack 2");
    assert!(nonce_eq(&n1, &n2));
}

#[test]
fn stack_subset() {
    let (sel, uh) = UpgradeSelect::from_select(
        leaf(B_CAP, B_IMPL),
        leaf(C_CAP, C_IMPL),
        Preference::Unspecified,
    );
    let stack = Stack::sequence(leaf(A_CAP, A_IMPL), sel.inner);

    let all_offers = stack.offers();
    let b_offer = &uh.left_offers;
    assert_eq!(b_offer.len(), 1);
    let c_offer = &uh.right_offers;
    assert_eq!(c_offer.len(), 1);

    let bn = find_stack_from_stub(b_offer, &all_offers).expect("left stub resolves");
    let cn = find_stack_from_stub(c_offer, &all_offers).expect("right stub resolves");

    assert_eq!(
        bn.get(B_CAP).unwrap().impl_guid,
        b_offer[0].get(B_CAP).unwrap().impl_guid
    );
    assert_eq!(
        cn.get(C_CAP).unwrap().impl_guid,
        c_offer[0].get(C_CAP).unwrap().impl_guid
    );
}

#[test]
fn apply_fails_on_foreign_nonce() {
    let s = leaf(A_CAP, A_IMPL);
    let empty = StackNonce { offers: vec![] };
    match apply(&s, &empty) {
        Err(NegotiateError::MonomorphizationFailed) => {},
        _ => panic!("a nonce without the leaf's capability cannot be applied"),
    }
}

#[test]
fn solo_monomorphize_rejects_uncoverable_universe() {
    // A one-sided capability whose universe its own available set cannot
    // cover is incompatible even with itself.
    let s = Stack::leaf(Layer {
        capability_guid: 0x30,
        impl_guid: 0x31,
        universe: Some(vec![1, 2]),
        available: vec![1],
        priority: 0,
    });
    match solo_monomorphize(&s) {
        Err(NegotiateError::NoCompatibleStack { .. }) => {},
        _ => panic!("self-negotiation must fail"),
    }
}
