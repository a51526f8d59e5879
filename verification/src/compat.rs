//! Compatibility rules between two stack nonces.

use vstd::prelude::*;
use crate::nonce::{Offer, OfferData, StackNonce, lemma_offers_map_at, lemma_offers_map_dom};

verus! {

/// An offer can satisfy its capability unilaterally: it is one-sided, its
/// available set is non-empty, and its universe is covered by its available
/// set alone.
pub open spec fn offer_solo_ok(o: OfferData) -> bool {
    match o.universe {
        Option::Some(u) => o.available.len() > 0 && u.to_set().subset_of(o.avail_set()),
        Option::None => false,
    }
}

/// Two offers declared for the same capability guid are compatible:
/// - one-sided (closed universe): identical universes, jointly covered by the
///   union of the two available sets;
/// - both-sided: identical implementation guid and identical available sets.
///
/// Mismatched sidedness means the two builds disagree about the capability's
/// metadata, which is never compatible.
pub open spec fn offer_pair_ok(oa: OfferData, ob: OfferData) -> bool {
    match (oa.universe, ob.universe) {
        (Option::Some(ua), Option::Some(ub)) => ua.to_set() == ub.to_set()
            && ua.to_set().subset_of(oa.avail_set().union(ob.avail_set())),
        (Option::None, Option::None) => oa.impl_guid == ob.impl_guid && oa.avail_set()
            == ob.avail_set(),
        _ => false,
    }
}

/// The compatibility condition for one capability guid across two nonces.
pub open spec fn guid_ok(a: Map<u64, OfferData>, b: Map<u64, OfferData>, g: u64) -> bool {
    if a.dom().contains(g) && b.dom().contains(g) {
        offer_pair_ok(a[g], b[g])
    } else if a.dom().contains(g) {
        offer_solo_ok(a[g])
    } else if b.dom().contains(g) {
        offer_solo_ok(b[g])
    } else {
        true
    }
}

/// Two nonces describe mutually compatible concrete stacks: every capability
/// guid present on either side is satisfied.
pub open spec fn stack_pair_valid_spec(a: Map<u64, OfferData>, b: Map<u64, OfferData>) -> bool {
    forall|g: u64| #[trigger] guid_ok(a, b, g)
}

/// Compatibility is symmetric: checking `a` against `b` agrees with checking
/// `b` against `a`.
pub proof fn lemma_stack_pair_valid_symmetric(a: Map<u64, OfferData>, b: Map<u64, OfferData>)
    ensures
        stack_pair_valid_spec(a, b) == stack_pair_valid_spec(b, a),
{
    assert forall|g: u64|
        #![trigger guid_ok(a, b, g)]
        #![trigger guid_ok(b, a, g)]
        guid_ok(a, b, g) == guid_ok(b, a, g) by {
        if a.dom().contains(g) && b.dom().contains(g) {
            match (a[g].universe, b[g].universe) {
                (Option::Some(ua), Option::Some(ub)) => {
                    assert(a[g].avail_set().union(b[g].avail_set()) =~= b[g].avail_set().union(
                        a[g].avail_set(),
                    ));
                },
                _ => {},
            }
        }
    }
}

/// Does `v` hold `x`?
fn vec_holds(v: &Vec<u32>, x: u32) -> (r: bool)
    ensures
        r == v@.contains(x),
{
    let n = v.len();
    let mut i: usize = 0;
    while i < n
        invariant
            n == v@.len(),
            i <= n,
            forall|k: int| 0 <= k < i ==> v@[k] != x,
        decreases n - i,
    {
        if v[i] == x {
            return true;
        }
        i = i + 1;
    }
    false
}

/// Is every element of `x` an element of `y`?
fn vec_subset(x: &Vec<u32>, y: &Vec<u32>) -> (r: bool)
    ensures
        r == x@.to_set().subset_of(y@.to_set()),
{
    let n = x.len();
    let mut i: usize = 0;
    while i < n
        invariant
            n == x@.len(),
            i <= n,
            forall|k: int| 0 <= k < i ==> y@.contains(#[trigger] x@[k]),
        decreases n - i,
    {
        if !vec_holds(y, x[i]) {
            proof {
                assert(x@.to_set().contains(x@[i as int]));
                assert(!y@.to_set().contains(x@[i as int]));
            }
            return false;
        }
        i = i + 1;
    }
    proof {
        assert forall|e: u32| x@.to_set().contains(e) implies y@.to_set().contains(e) by {
            let k = choose|k: int| 0 <= k < x@.len() && x@[k] == e;
            assert(y@.contains(x@[k]));
        }
    }
    true
}

/// Do `x` and `y` hold the same set of variants?
fn vec_set_eq(x: &Vec<u32>, y: &Vec<u32>) -> (r: bool)
    ensures
        r == (x@.to_set() == y@.to_set()),
{
    let r = vec_subset(x, y) && vec_subset(y, x);
    proof {
        if r {
            assert(x@.to_set() =~= y@.to_set());
        }
    }
    r
}

/// Is every element of `u` an element of `a` or of `b`?
fn vec_subset_union(u: &Vec<u32>, a: &Vec<u32>, b: &Vec<u32>) -> (r: bool)
    ensures
        r == u@.to_set().subset_of(a@.to_set().union(b@.to_set())),
{
    let n = u.len();
    let mut i: usize = 0;
    while i < n
        invariant
            n == u@.len(),
            i <= n,
            forall|k: int| 0 <= k < i ==> a@.contains(#[trigger] u@[k]) || b@.contains(u@[k]),
        decreases n - i,
    {
        if !vec_holds(a, u[i]) && !vec_holds(b, u[i]) {
            proof {
                assert(u@.to_set().contains(u@[i as int]));
                assert(!a@.to_set().union(b@.to_set()).contains(u@[i as int]));
            }
            return false;
        }
        i = i + 1;
    }
    proof {
        assert forall|e: u32| u@.to_set().contains(e) implies a@.to_set().union(
            b@.to_set(),
        ).contains(e) by {
            let k = choose|k: int| 0 <= k < u@.len() && u@[k] == e;
            assert(a@.contains(u@[k]) || b@.contains(u@[k]));
        }
    }
    true
}

/// Check one offer unilaterally; see `offer_solo_ok`.
fn check_offer_solo(o: &Offer) -> (r: bool)
    ensures
        r == offer_solo_ok(o.dv()),
{
    match &o.universe {
        Option::Some(u) => o.available.len() > 0 && vec_subset(u, &o.available),
        Option::None => false,
    }
}

/// Check a pair of offers for the same guid; see `offer_pair_ok`.
fn check_offer_pair(oa: &Offer, ob: &Offer) -> (r: bool)
    ensures
        r == offer_pair_ok(oa.dv(), ob.dv()),
{
    match (&oa.universe, &ob.universe) {
        (Option::Some(ua), Option::Some(ub)) => vec_set_eq(ua, ub) && vec_subset_union(
            ua,
            &oa.available,
            &ob.available,
        ),
        (Option::None, Option::None) => oa.impl_guid == ob.impl_guid && vec_set_eq(
            &oa.available,
            &ob.available,
        ),
        _ => false,
    }
}

/// Decide whether two nonces describe mutually compatible concrete stacks.
///
/// For each capability guid present on either side: if both sides declare
/// it, the declarations must agree per `offer_pair_ok`; if only one side
/// declares it, that side must satisfy the capability alone.
pub fn stack_pair_valid(a: &StackNonce, b: &StackNonce) -> (r: bool)
    requires
        a.wf(),
        b.wf(),
    ensures
        r == stack_pair_valid_spec(a@, b@),
{
    proof {
        lemma_offers_map_dom(a.dv());
        lemma_offers_map_dom(b.dv());
    }
    let na = a.offers.len();
    let mut i: usize = 0;
    while i < na
        invariant
            a.wf(),
            b.wf(),
            na == a.offers@.len(),
            i <= na,
            forall|k: int| 0 <= k < i ==> #[trigger] guid_ok(a@, b@, a.dv()[k].capability_guid),
            forall|g: u64|
                a@.dom().contains(g) <==> exists|k: int|
                    0 <= k < na && #[trigger] a.dv()[k].capability_guid == g,
        decreases na - i,
    {
        let oa = &a.offers[i];
        proof {
            lemma_offers_map_at(a.dv(), i as int);
        }
        let ok = match b.get(oa.capability_guid) {
            Option::Some(ob) => check_offer_pair(oa, ob),
            Option::None => check_offer_solo(oa),
        };
        if !ok {
            proof {
                assert(!guid_ok(a@, b@, a.dv()[i as int].capability_guid));
            }
            return false;
        }
        i = i + 1;
    }
    let nb = b.offers.len();
    let mut j: usize = 0;
    while j < nb
        invariant
            a.wf(),
            b.wf(),
            nb == b.offers@.len(),
            j <= nb,
            forall|g: u64| a@.dom().contains(g) ==> #[trigger] guid_ok(a@, b@, g),
            forall|k: int|
                0 <= k < j ==> #[trigger] guid_ok(a@, b@, b.dv()[k].capability_guid),
        decreases nb - j,
    {
        let ob = &b.offers[j];
        proof {
            lemma_offers_map_at(b.dv(), j as int);
        }
        let ok = match a.get(ob.capability_guid) {
            Option::Some(_) => true,
            Option::None => check_offer_solo(ob),
        };
        if !ok {
            proof {
                assert(!guid_ok(a@, b@, b.dv()[j as int].capability_guid));
            }
            return false;
        }
        j = j + 1;
    }
    proof {
        lemma_offers_map_dom(b.dv());
        assert forall|g: u64| #[trigger] guid_ok(a@, b@, g) by {
            if a@.dom().contains(g) {
            } else if b@.dom().contains(g) {
                let k = choose|k: int| 0 <= k < b.dv().len() && #[trigger] b.dv()[k].capability_guid == g;
                assert(guid_ok(a@, b@, b.dv()[k].capability_guid));
            }
        }
    }
    true
}

/// The partial-validity condition for one capability guid the client
/// declares.
pub open spec fn partial_guid_ok(c: Map<u64, OfferData>, s: Map<u64, OfferData>, g: u64) -> bool {
    match c[g].universe {
        Option::Some(u) => u.to_set().subset_of(
            c[g].avail_set().union(
                if s.dom().contains(g) {
                    s[g].avail_set()
                } else {
                    Set::empty()
                },
            ),
        ),
        Option::None => s.dom().contains(g) ==> c[g].impl_guid == s[g].impl_guid
            && c[g].avail_set() == s[g].avail_set(),
    }
}

/// A client's nonce is partially valid against a server's: the two share at
/// least one capability guid, and every capability the client declares is
/// satisfiable given what the server declares for it (if anything).
///
/// Unlike full validity this only inspects the client's guids; it is used to
/// hold a sub-stack's offers against a full candidate during live upgrades.
pub open spec fn stack_pair_partial_valid_spec(
    c: Map<u64, OfferData>,
    s: Map<u64, OfferData>,
) -> bool {
    (exists|g: u64| c.dom().contains(g) && s.dom().contains(g)) && (forall|g: u64|
        c.dom().contains(g) ==> #[trigger] partial_guid_ok(c, s, g))
}

/// Decide partial validity of `client` against `server`; see
/// `stack_pair_partial_valid_spec`.
pub fn stack_pair_partial_valid(client: &StackNonce, server: &StackNonce) -> (r: bool)
    requires
        client.wf(),
        server.wf(),
    ensures
        r == stack_pair_partial_valid_spec(client@, server@),
{
    proof {
        lemma_offers_map_dom(client.dv());
        lemma_offers_map_dom(server.dv());
    }
    let mut found = false;
    let ghost mut found_guid: u64 = 0u64;
    let n = client.offers.len();
    let mut i: usize = 0;
    while i < n
        invariant
            client.wf(),
            server.wf(),
            n == client.offers@.len(),
            i <= n,
            forall|k: int|
                0 <= k < i ==> #[trigger] partial_guid_ok(
                    client@,
                    server@,
                    client.dv()[k].capability_guid,
                ),
            found ==> client@.dom().contains(found_guid) && server@.dom().contains(found_guid),
            !found ==> forall|k: int|
                0 <= k < i ==> !server@.dom().contains(
                    #[trigger] client.dv()[k].capability_guid,
                ),
            forall|g: u64|
                client@.dom().contains(g) <==> exists|k: int|
                    0 <= k < n && #[trigger] client.dv()[k].capability_guid == g,
        decreases n - i,
    {
        let oc = &client.offers[i];
        proof {
            lemma_offers_map_at(client.dv(), i as int);
        }
        let srv = server.get(oc.capability_guid);
        if srv.is_some() {
            found = true;
            proof {
                found_guid = oc.capability_guid;
            }
        }
        let ok = match &oc.universe {
            Option::Some(u) => {
                match srv {
                    Option::Some(os) => vec_subset_union(u, &oc.available, &os.available),
                    Option::None => {
                        let r = vec_subset(u, &oc.available);
                        proof {
                            if r {
                                assert(oc.dv().avail_set().union(Set::<u32>::empty())
                                    =~= oc.dv().avail_set());
                            } else {
                                assert(oc.dv().avail_set().union(Set::<u32>::empty())
                                    =~= oc.dv().avail_set());
                            }
                        }
                        r
                    },
                }
            },
            Option::None => {
                match srv {
                    Option::Some(os) => oc.impl_guid == os.impl_guid && vec_set_eq(
                        &oc.available,
                        &os.available,
                    ),
                    Option::None => true,
                }
            },
        };
        if !ok {
            proof {
                assert(!partial_guid_ok(client@, server@, client.dv()[i as int].capability_guid));
            }
            return false;
        }
        i = i + 1;
    }
    proof {
        if found {
            assert(exists|g: u64|
                client@.dom().contains(g) && server@.dom().contains(g)) by {
                assert(client@.dom().contains(found_guid) && server@.dom().contains(found_guid));
            }
        } else {
            if exists|g: u64| client@.dom().contains(g) && server@.dom().contains(g) {
                let g = choose|g: u64| client@.dom().contains(g) && server@.dom().contains(g);
                let k = choose|k: int|
                    0 <= k < n && #[trigger] client.dv()[k].capability_guid == g;
                assert(!server@.dom().contains(client.dv()[k].capability_guid));
            }
        }
        assert forall|g: u64| client@.dom().contains(g) implies #[trigger] partial_guid_ok(
            client@,
            server@,
            g,
        ) by {
            let k = choose|k: int| 0 <= k < n && #[trigger] client.dv()[k].capability_guid == g;
            assert(partial_guid_ok(client@, server@, client.dv()[k].capability_guid));
        }
    }
    found
}

} // verus!
