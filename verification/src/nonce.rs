//! Offers and stack nonces: what one endpoint declares about one concrete
//! stack.

use vstd::prelude::*;

verus! {

/// What one endpoint declares about one capability within one concrete stack.
///
/// `universe` doubles as the sidedness marker: `Some(u)` means the capability
/// is one-sided with closed universe `u` (the peers' available variants must
/// jointly cover `u`); `None` means it is both-sided (both peers must declare
/// the same implementation and the same available set).
#[derive(Debug)]
pub struct Offer {
    /// Stable identifier of the capability kind.
    pub capability_guid: u64,
    /// Identifies the exact layer implementation chosen.
    pub impl_guid: u64,
    /// `Some(u)`: one-sided, closed universe `u`; `None`: both-sided.
    pub universe: Option<Vec<u32>>,
    /// Variant identifiers this endpoint can provide.
    pub available: Vec<u32>,
}

/// Mathematical image of an `Offer`: vectors become sequences.
#[verifier::ext_equal]
pub struct OfferData {
    pub capability_guid: u64,
    pub impl_guid: u64,
    pub universe: Option<Seq<u32>>,
    pub available: Seq<u32>,
}

impl OfferData {
    /// The set of variants this endpoint can provide.
    pub open spec fn avail_set(self) -> Set<u32> {
        self.available.to_set()
    }
}

impl Offer {
    /// The offer as a mathematical record.
    pub open spec fn dv(self) -> OfferData {
        OfferData {
            capability_guid: self.capability_guid,
            impl_guid: self.impl_guid,
            universe: match self.universe {
                Option::Some(u) => Option::Some(u@),
                Option::None => Option::None,
            },
            available: self.available@,
        }
    }
}

impl Clone for Offer {
    fn clone(&self) -> (r: Self)
        ensures
            r.dv() == self.dv(),
    {
        Offer {
            capability_guid: self.capability_guid,
            impl_guid: self.impl_guid,
            universe: match &self.universe {
                Option::Some(u) => Option::Some(u.clone()),
                Option::None => Option::None,
            },
            available: self.available.clone(),
        }
    }
}

/// A mapping `capability guid -> offer` describing one concrete stack
/// completely.  Nonces are the unit of exchange on the wire.
///
/// Represented as a vector of offers; well-formed nonces mention each
/// capability guid at most once.
#[derive(Debug)]
pub struct StackNonce {
    pub offers: Vec<Offer>,
}

/// The map a sequence of offers denotes; a later entry for the same guid
/// wins, though well-formed nonces have no such collisions.
pub open spec fn offers_map(s: Seq<OfferData>) -> Map<u64, OfferData>
    decreases s.len(),
{
    if s.len() == 0 {
        Map::empty()
    } else {
        offers_map(s.drop_last()).insert(s.last().capability_guid, s.last())
    }
}

/// Guids occur at most once in the sequence.
pub open spec fn offers_wf(s: Seq<OfferData>) -> bool {
    forall|i: int, j: int|
        0 <= i < j < s.len() ==> #[trigger] s[i].capability_guid
            != #[trigger] s[j].capability_guid
}

impl View for StackNonce {
    type V = Map<u64, OfferData>;

    open spec fn view(&self) -> Map<u64, OfferData> {
        offers_map(self.dv())
    }
}

impl Clone for StackNonce {
    fn clone(&self) -> (r: Self)
        ensures
            r.dv() == self.dv(),
            r@ == self@,
            r.wf() == self.wf(),
    {
        let r = StackNonce { offers: self.offers.clone() };
        proof {
            assert(r.dv() =~= self.dv());
        }
        r
    }
}

/// The domain of `offers_map` is exactly the guids that occur in the list.
pub proof fn lemma_offers_map_dom(s: Seq<OfferData>)
    ensures
        forall|g: u64|
            offers_map(s).dom().contains(g) <==> exists|i: int|
                0 <= i < s.len() && #[trigger] s[i].capability_guid == g,
    decreases s.len(),
{
    if s.len() > 0 {
        let s1 = s.drop_last();
        lemma_offers_map_dom(s1);
        assert forall|g: u64| offers_map(s).dom().contains(g) implies exists|i: int|
            0 <= i < s.len() && #[trigger] s[i].capability_guid == g by {
            if g == s.last().capability_guid {
                assert(s[s.len() - 1].capability_guid == g);
            } else {
                assert(offers_map(s1).dom().contains(g));
                let i = choose|i: int| 0 <= i < s1.len() && #[trigger] s1[i].capability_guid == g;
                assert(s[i] == s1[i]);
                assert(s[i].capability_guid == g);
            }
        }
        assert forall|g: u64|
            exists|i: int| 0 <= i < s.len() && #[trigger] s[i].capability_guid == g implies
            offers_map(s).dom().contains(g) by {
            let i = choose|i: int| 0 <= i < s.len() && #[trigger] s[i].capability_guid == g;
            if i < s.len() - 1 {
                assert(s1[i].capability_guid == g);
                assert(offers_map(s1).dom().contains(g));
            } else {
                assert(g == s.last().capability_guid);
            }
        }
    }
}

/// Concatenating offer lists unions their maps, later entries winning.
pub proof fn lemma_offers_map_concat(s1: Seq<OfferData>, s2: Seq<OfferData>)
    ensures
        offers_map(s1 + s2) == offers_map(s1).union_prefer_right(offers_map(s2)),
    decreases s2.len(),
{
    if s2.len() == 0 {
        assert(s1 + s2 =~= s1);
        assert(offers_map(s1).union_prefer_right(offers_map(s2)) =~= offers_map(s1));
    } else {
        lemma_offers_map_concat(s1, s2.drop_last());
        assert((s1 + s2).drop_last() =~= s1 + s2.drop_last());
        assert((s1 + s2).last() == s2.last());
        assert(offers_map(s1).union_prefer_right(
            offers_map(s2.drop_last()).insert(s2.last().capability_guid, s2.last()),
        ) =~= offers_map(s1).union_prefer_right(offers_map(s2.drop_last())).insert(
            s2.last().capability_guid,
            s2.last(),
        ));
    }
}

/// When guids are unique, entry `i` gives the map's value.
pub proof fn lemma_offers_map_at(s: Seq<OfferData>, i: int)
    requires
        0 <= i < s.len(),
        offers_wf(s),
    ensures
        offers_map(s).dom().contains(s[i].capability_guid),
        offers_map(s)[s[i].capability_guid] == s[i],
    decreases s.len(),
{
    if i == s.len() - 1 {
    } else {
        lemma_offers_map_at(s.drop_last(), i);
        assert(s.drop_last()[i] == s[i]);
    }
}

impl StackNonce {
    /// The offers as a sequence of mathematical records, in declaration
    /// order.
    pub open spec fn dv(&self) -> Seq<OfferData> {
        self.offers@.map_values(|o: Offer| o.dv())
    }

    /// Guids occur at most once.
    pub open spec fn wf(&self) -> bool {
        offers_wf(self.dv())
    }

    /// An empty nonce.
    pub fn empty() -> (r: StackNonce)
        ensures
            r@ == Map::<u64, OfferData>::empty(),
            r.wf(),
            r.dv() == Seq::<OfferData>::empty(),
    {
        let r = StackNonce { offers: Vec::new() };
        proof {
            assert(r.dv() =~= Seq::<OfferData>::empty());
        }
        r
    }

    /// How many capability guids the nonce mentions.
    pub fn offer_count(&self) -> (r: usize)
        ensures
            r == self.dv().len(),
    {
        self.offers.len()
    }

    /// Look up the offer declared for `guid`, if any.
    pub fn get(&self, guid: u64) -> (r: Option<&Offer>)
        requires
            self.wf(),
        ensures
            match r {
                Option::Some(o) => self@.dom().contains(guid) && o.capability_guid == guid
                    && o.dv() == self@[guid],
                Option::None => !self@.dom().contains(guid),
            },
    {
        proof {
            lemma_offers_map_dom(self.dv());
        }
        let n = self.offers.len();
        let mut i: usize = 0;
        while i < n
            invariant
                n == self.offers@.len(),
                i <= n,
                self.wf(),
                forall|k: int| 0 <= k < i ==> #[trigger] self.dv()[k].capability_guid != guid,
                forall|g: u64|
                    self@.dom().contains(g) <==> exists|k: int|
                        0 <= k < n && #[trigger] self.dv()[k].capability_guid == g,
            decreases n - i,
        {
            if self.offers[i].capability_guid == guid {
                proof {
                    lemma_offers_map_at(self.dv(), i as int);
                }
                return Option::Some(&self.offers[i]);
            }
            i = i + 1;
        }
        Option::None
    }

    /// Add an offer for a guid not yet present; returns whether it was added.
    pub fn insert(&mut self, offer: Offer) -> (added: bool)
        requires
            old(self).wf(),
        ensures
            final(self).wf(),
            added == !old(self)@.dom().contains(offer.capability_guid),
            added ==> final(self)@ == old(self)@.insert(offer.capability_guid, offer.dv())
                && final(self).dv() == old(self).dv().push(offer.dv()),
            !added ==> final(self).dv() == old(self).dv() && final(self)@ == old(self)@,
    {
        proof {
            lemma_offers_map_dom(self.dv());
        }
        let n = self.offers.len();
        let mut i: usize = 0;
        while i < n
            invariant
                *self == *old(self),
                n == self.offers@.len(),
                i <= n,
                self.wf(),
                forall|k: int| 0 <= k < i ==> #[trigger] self.dv()[k].capability_guid
                    != offer.capability_guid,
                forall|g: u64|
                    self@.dom().contains(g) <==> exists|k: int|
                        0 <= k < n && #[trigger] self.dv()[k].capability_guid == g,
            decreases n - i,
        {
            if self.offers[i].capability_guid == offer.capability_guid {
                proof {
                    assert(self.dv()[i as int].capability_guid == offer.capability_guid);
                    assert(old(self)@.dom().contains(offer.capability_guid));
                }
                return false;
            }
            i = i + 1;
        }
        self.offers.push(offer);
        proof {
            assert(self.dv().drop_last() =~= old(self).dv());
            assert(self.dv() =~= old(self).dv().push(offer.dv()));
        }
        true
    }
}

} // verus!

verus! {

/// Are two variant lists identical, order included?
fn variants_eq(x: &Vec<u32>, y: &Vec<u32>) -> (r: bool)
    ensures
        r == (x@ == y@),
{
    if x.len() != y.len() {
        return false;
    }
    let n = x.len();
    let mut i: usize = 0;
    while i < n
        invariant
            n == x@.len(),
            n == y@.len(),
            i <= n,
            forall|k: int| 0 <= k < i ==> x@[k] == y@[k],
        decreases n - i,
    {
        if x[i] != y[i] {
            return false;
        }
        i = i + 1;
    }
    proof {
        assert(x@ =~= y@);
    }
    true
}

/// Are two offers identical records?
fn offer_eq(a: &Offer, b: &Offer) -> (r: bool)
    ensures
        r == (a.dv() == b.dv()),
{
    if a.capability_guid != b.capability_guid || a.impl_guid != b.impl_guid {
        return false;
    }
    let universes = match (&a.universe, &b.universe) {
        (Option::Some(ua), Option::Some(ub)) => variants_eq(ua, ub),
        (Option::None, Option::None) => true,
        _ => false,
    };
    if !universes {
        return false;
    }
    if !variants_eq(&a.available, &b.available) {
        return false;
    }
    proof {
        assert(a.dv() =~= b.dv());
    }
    true
}

/// Do two well-formed nonces declare exactly the same offers?
pub fn nonce_eq(a: &StackNonce, b: &StackNonce) -> (r: bool)
    requires
        a.wf(),
        b.wf(),
    ensures
        r == (a@ == b@),
{
    proof {
        lemma_offers_map_dom(a.dv());
        lemma_offers_map_dom(b.dv());
    }
    let na = a.offers.len();
    let mut i: usize = 0;
    while i < na
        invariant
            a.wf(),
            b.wf(),
            na == a.offers@.len(),
            i <= na,
            forall|k: int|
                0 <= k < i ==> b@.dom().contains(#[trigger] a.dv()[k].capability_guid)
                    && b@[a.dv()[k].capability_guid] == a.dv()[k],
        decreases na - i,
    {
        let oa = &a.offers[i];
        proof {
            lemma_offers_map_at(a.dv(), i as int);
        }
        match b.get(oa.capability_guid) {
            Option::Some(ob) => {
                if !offer_eq(oa, ob) {
                    proof {
                        assert(a@[a.dv()[i as int].capability_guid] == a.dv()[i as int]);
                    }
                    return false;
                }
            },
            Option::None => {
                return false;
            },
        }
        i = i + 1;
    }
    proof {
        assert forall|g: u64| a@.dom().contains(g) implies b@.dom().contains(g) && b@[g]
            == #[trigger] a@[g] by {
            let k = choose|k: int|
                0 <= k < a.dv().len() && #[trigger] a.dv()[k].capability_guid == g;
            lemma_offers_map_at(a.dv(), k);
            assert(b@.dom().contains(a.dv()[k].capability_guid));
            assert(b@[a.dv()[k].capability_guid] == a.dv()[k]);
        }
    }
    let nb = b.offers.len();
    let mut j: usize = 0;
    while j < nb
        invariant
            a.wf(),
            b.wf(),
            nb == b.offers@.len(),
            j <= nb,
            forall|g: u64|
                a@.dom().contains(g) ==> b@.dom().contains(g) && b@[g] == #[trigger] a@[g],
            forall|k: int|
                0 <= k < j ==> a@.dom().contains(#[trigger] b.dv()[k].capability_guid),
        decreases nb - j,
    {
        let ob = &b.offers[j];
        proof {
            lemma_offers_map_at(b.dv(), j as int);
        }
        if a.get(ob.capability_guid).is_none() {
            return false;
        }
        j = j + 1;
    }
    proof {
        lemma_offers_map_dom(a.dv());
        lemma_offers_map_dom(b.dv());
        assert forall|g: u64| b@.dom().contains(g) implies a@.dom().contains(g) by {
            let k = choose|k: int|
                0 <= k < b.dv().len() && #[trigger] b.dv()[k].capability_guid == g;
            assert(a@.dom().contains(b.dv()[k].capability_guid));
        }
        assert forall|g: u64| a@.dom().contains(g) implies b@.dom().contains(g) by {}
        assert(a@ =~= b@);
    }
    true
}

} // verus!
