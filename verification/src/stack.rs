//! The stack algebra: leaf layers, sequential composition, and choice, with
//! enumeration of the concrete stacks a value can represent.

use vstd::prelude::*;
use vstd::arithmetic::power2::{lemma_pow2_adds, pow2};
use crate::nonce::{
    Offer, OfferData, StackNonce, lemma_offers_map_dom, offers_map, offers_wf,
};

verus! {

/// One concrete layer: the offer it declares plus its pick priority.
#[derive(Debug)]
pub struct Layer {
    /// Stable identifier of the capability kind this layer provides.
    pub capability_guid: u64,
    /// Identifies this exact layer implementation.
    pub impl_guid: u64,
    /// `Some(u)`: one-sided, closed universe `u`; `None`: both-sided.
    pub universe: Option<Vec<u32>>,
    /// Variant identifiers this layer can provide.
    pub available: Vec<u32>,
    /// Declared implementation priority, used as a pick tie-break.
    pub priority: u64,
}

/// Mathematical image of a `Layer`.
#[verifier::ext_equal]
pub struct LayerData {
    pub offer: OfferData,
    pub priority: u64,
}

impl Layer {
    /// The offer this layer declares, as a mathematical record.
    pub open spec fn dv(self) -> OfferData {
        OfferData {
            capability_guid: self.capability_guid,
            impl_guid: self.impl_guid,
            universe: match self.universe {
                Option::Some(u) => Option::Some(u@),
                Option::None => Option::None,
            },
            available: self.available@,
        }
    }

    /// The layer as a mathematical record.
    pub open spec fn ldv(self) -> LayerData {
        LayerData { offer: self.dv(), priority: self.priority }
    }

    /// The offer this layer declares.
    pub fn to_offer(&self) -> (r: Offer)
        ensures
            r.dv() == self.dv(),
    {
        Offer {
            capability_guid: self.capability_guid,
            impl_guid: self.impl_guid,
            universe: match &self.universe {
                Option::Some(u) => Option::Some(u.clone()),
                Option::None => Option::None,
            },
            available: self.available.clone(),
        }
    }
}

impl Clone for Layer {
    fn clone(&self) -> (r: Self)
        ensures
            r.ldv() == self.ldv(),
    {
        Layer {
            capability_guid: self.capability_guid,
            impl_guid: self.impl_guid,
            universe: match &self.universe {
                Option::Some(u) => Option::Some(u.clone()),
                Option::None => Option::None,
            },
            available: self.available.clone(),
            priority: self.priority,
        }
    }
}

/// Which branch a `Select` favors when both would do.
#[derive(Debug, Clone, Copy, PartialEq, Eq, Structural)]
pub enum Preference {
    Left,
    Right,
    Unspecified,
}

/// A declarative stack: a tree whose leaves are concrete layers and whose
/// internal nodes are ordered composition or a binary choice.
#[derive(Debug)]
pub enum Stack {
    /// One concrete layer.
    Leaf(Layer),
    /// Ordered composition, inner to outer.
    Sequence(Box<Stack>, Box<Stack>),
    /// A choice between two sub-stacks, with a preference.
    Select(Box<Stack>, Box<Stack>, Preference),
}

/// The offer sequences denoted by a sequence of `StackNonce`s.
pub open spec fn nonce_dvs(s: Seq<StackNonce>) -> Seq<Seq<OfferData>> {
    s.map_values(|n: StackNonce| n.dv())
}

/// One enumeration row: every head nonce extended with one tail nonce.
pub open spec fn merge_row(hs: Seq<Seq<OfferData>>, tb: Seq<OfferData>) -> Seq<Seq<OfferData>> {
    hs.map_values(|ha: Seq<OfferData>| ha + tb)
}

/// The cartesian product of two enumerations, concatenating per-nonce offer
/// lists.  The tail enumeration is the outer loop, so that a choice at the
/// tail end of a sequence groups the product by that choice.
pub open spec fn product_offers(hs: Seq<Seq<OfferData>>, ts: Seq<Seq<OfferData>>) -> Seq<
    Seq<OfferData>,
>
    decreases ts.len(),
{
    if ts.len() == 0 {
        Seq::empty()
    } else {
        merge_row(hs, ts.first()) + product_offers(hs, ts.drop_first())
    }
}

/// Appending one tail nonce appends one row to the product.
pub proof fn lemma_product_offers_push(
    hs: Seq<Seq<OfferData>>,
    ts: Seq<Seq<OfferData>>,
    x: Seq<OfferData>,
)
    ensures
        product_offers(hs, ts.push(x)) =~= product_offers(hs, ts) + merge_row(hs, x),
    decreases ts.len(),
{
    if ts.len() == 0 {
        let ss = ts.push(x);
        assert(ss.first() == x);
        assert(ss.drop_first() =~= Seq::<Seq<OfferData>>::empty());
        assert(product_offers(hs, ss.drop_first()) =~= Seq::empty());
        assert(product_offers(hs, ss) =~= merge_row(hs, x) + Seq::empty());
        assert(product_offers(hs, ts.push(x)) =~= merge_row(hs, x));
    } else {
        assert(ts.push(x).first() == ts.first());
        assert(ts.push(x).drop_first() =~= ts.drop_first().push(x));
        lemma_product_offers_push(hs, ts.drop_first(), x);
    }
}

/// The product distributes over concatenation of tail enumerations.
pub proof fn lemma_product_offers_concat(
    hs: Seq<Seq<OfferData>>,
    ts1: Seq<Seq<OfferData>>,
    ts2: Seq<Seq<OfferData>>,
)
    ensures
        product_offers(hs, ts1 + ts2) =~= product_offers(hs, ts1) + product_offers(hs, ts2),
    decreases ts1.len(),
{
    if ts1.len() == 0 {
        assert(ts1 + ts2 =~= ts2);
    } else {
        assert((ts1 + ts2).first() == ts1.first());
        assert((ts1 + ts2).drop_first() =~= ts1.drop_first() + ts2);
        lemma_product_offers_concat(hs, ts1.drop_first(), ts2);
    }
}

/// The product enumerates every pairing exactly once.
pub proof fn lemma_product_offers_len(hs: Seq<Seq<OfferData>>, ts: Seq<Seq<OfferData>>)
    ensures
        product_offers(hs, ts).len() == ts.len() * hs.len(),
    decreases ts.len(),
{
    if ts.len() == 0 {
    } else {
        lemma_product_offers_len(hs, ts.drop_first());
        assert(ts.len() * hs.len() == (ts.len() - 1) * hs.len() + hs.len()) by (nonlinear_arith);
    }
}

/// Every product element is one head element concatenated with one tail
/// element.
pub proof fn lemma_product_offers_index(hs: Seq<Seq<OfferData>>, ts: Seq<Seq<OfferData>>, i: int)
    requires
        0 <= i < product_offers(hs, ts).len(),
    ensures
        exists|ti: int, hi: int|
            0 <= ti < ts.len() && 0 <= hi < hs.len() && product_offers(hs, ts)[i] == #[trigger] (
            hs[hi] + ts[ti]),
    decreases ts.len(),
{
    if ts.len() == 0 {
    } else if i < hs.len() {
        assert(product_offers(hs, ts)[i] == merge_row(hs, ts.first())[i]);
        assert(merge_row(hs, ts.first())[i] == hs[i] + ts[0]);
    } else {
        lemma_product_offers_index(hs, ts.drop_first(), i - hs.len());
        let (ti, hi) = choose|ti: int, hi: int|
            0 <= ti < ts.drop_first().len() && 0 <= hi < hs.len() && product_offers(
                hs,
                ts.drop_first(),
            )[i - hs.len()] == #[trigger] (hs[hi] + ts.drop_first()[ti]);
        assert(ts.drop_first()[ti] == ts[ti + 1]);
        assert(product_offers(hs, ts)[i] == hs[hi] + ts[ti + 1]);
    }
}

impl Stack {
    /// The number of `Select` nodes.
    pub open spec fn num_selects(self) -> nat
        decreases self,
    {
        match self {
            Stack::Leaf(_) => 0,
            Stack::Sequence(h, t) => h.num_selects() + t.num_selects(),
            Stack::Select(l, r, _) => 1 + l.num_selects() + r.num_selects(),
        }
    }

    /// The capability guids of all leaves, both branches of every choice
    /// included.
    pub open spec fn guids(self) -> Set<u64>
        decreases self,
    {
        match self {
            Stack::Leaf(l) => Set::empty().insert(l.capability_guid),
            Stack::Sequence(h, t) => h.guids().union(t.guids()),
            Stack::Select(l, r, _) => l.guids().union(r.guids()),
        }
    }

    /// Within a concrete stack, each capability guid appears at most once:
    /// the two sides of every composition declare disjoint capability sets.
    pub open spec fn wf(self) -> bool
        decreases self,
    {
        match self {
            Stack::Leaf(_) => true,
            Stack::Sequence(h, t) => h.wf() && t.wf() && h.guids().disjoint(t.guids()),
            Stack::Select(l, r, _) => l.wf() && r.wf(),
        }
    }

    /// Every `Select` chooses between two concrete branches: nested choices
    /// sit beside each other in a sequence, never inside one another.
    pub open spec fn selects_flat(self) -> bool
        decreases self,
    {
        match self {
            Stack::Leaf(_) => true,
            Stack::Sequence(h, t) => h.selects_flat() && t.selects_flat(),
            Stack::Select(l, r, _) => l.num_selects() == 0 && r.num_selects() == 0,
        }
    }

    /// Every concrete specialization of this stack, as one offer list each,
    /// inner layers first.
    ///
    /// A leaf denotes one nonce holding its own offer.  A sequence denotes
    /// the cartesian product of its parts.  A choice denotes the
    /// concatenation of both branches' enumerations, left first.
    pub open spec fn offers_dv(self) -> Seq<Seq<OfferData>>
        decreases self,
    {
        match self {
            Stack::Leaf(l) => seq![seq![l.dv()]],
            Stack::Sequence(h, t) => product_offers(h.offers_dv(), t.offers_dv()),
            Stack::Select(l, r, _) => l.offers_dv() + r.offers_dv(),
        }
    }

    /// A leaf stack.
    pub fn leaf(layer: Layer) -> (r: Stack)
        ensures
            r == Stack::Leaf(layer),
    {
        Stack::Leaf(layer)
    }

    /// Ordered composition of `inner` then `outer`.
    pub fn sequence(inner: Stack, outer: Stack) -> (r: Stack)
        ensures
            r == Stack::Sequence(Box::new(inner), Box::new(outer)),
    {
        Stack::Sequence(Box::new(inner), Box::new(outer))
    }

    /// A choice between `left` and `right`.
    pub fn select(left: Stack, right: Stack, prefer: Preference) -> (r: Stack)
        ensures
            r == Stack::Select(Box::new(left), Box::new(right), prefer),
    {
        Stack::Select(Box::new(left), Box::new(right), prefer)
    }
}

/// Every enumerated nonce draws its guids from the stack's leaves, and in a
/// well-formed stack mentions each guid at most once.
pub proof fn lemma_offers_dv_wf(s: Stack, i: int)
    requires
        s.wf(),
        0 <= i < s.offers_dv().len(),
    ensures
        offers_wf(s.offers_dv()[i]),
        forall|k: int|
            0 <= k < s.offers_dv()[i].len() ==> s.guids().contains(
                (#[trigger] s.offers_dv()[i][k]).capability_guid,
            ),
    decreases s,
{
    match s {
        Stack::Leaf(_) => {},
        Stack::Sequence(h, t) => {
            lemma_product_offers_index(h.offers_dv(), t.offers_dv(), i);
            let (ti, hi) = choose|ti: int, hi: int|
                0 <= ti < t.offers_dv().len() && 0 <= hi < h.offers_dv().len() && product_offers(
                    h.offers_dv(),
                    t.offers_dv(),
                )[i] == #[trigger] (h.offers_dv()[hi] + t.offers_dv()[ti]);
            lemma_offers_dv_wf(*h, hi);
            lemma_offers_dv_wf(*t, ti);
            let ha = h.offers_dv()[hi];
            let tb = t.offers_dv()[ti];
            assert forall|x: int, y: int| 0 <= x < y < (ha + tb).len() implies #[trigger] (ha
                + tb)[x].capability_guid != #[trigger] (ha + tb)[y].capability_guid by {
                if x < ha.len() && y >= ha.len() {
                    assert(h.guids().contains((ha + tb)[x].capability_guid));
                    assert(t.guids().contains((ha + tb)[y].capability_guid));
                }
            }
        },
        Stack::Select(l, r, _) => {
            if i < l.offers_dv().len() {
                lemma_offers_dv_wf(*l, i);
            } else {
                lemma_offers_dv_wf(*r, i - l.offers_dv().len());
            }
        },
    }
}

/// Merge two nonces into one, head offers first.
pub fn merge_nonce(a: &StackNonce, b: &StackNonce) -> (r: StackNonce)
    ensures
        r.dv() == a.dv() + b.dv(),
{
    let mut offers: Vec<Offer> = Vec::new();
    let na = a.offers.len();
    let mut i: usize = 0;
    while i < na
        invariant
            na == a.offers@.len(),
            i <= na,
            offers@.len() == i,
            forall|k: int| 0 <= k < i ==> (#[trigger] offers@[k]).dv() == a.dv()[k],
        decreases na - i,
    {
        offers.push(a.offers[i].clone());
        i = i + 1;
    }
    let nb = b.offers.len();
    let mut j: usize = 0;
    while j < nb
        invariant
            na == a.offers@.len(),
            nb == b.offers@.len(),
            j <= nb,
            offers@.len() == na + j,
            forall|k: int| 0 <= k < na ==> (#[trigger] offers@[k]).dv() == a.dv()[k],
            forall|k: int| 0 <= k < j ==> (#[trigger] offers@[na + k]).dv() == b.dv()[k],
        decreases nb - j,
    {
        offers.push(b.offers[j].clone());
        j = j + 1;
    }
    let r = StackNonce { offers };
    proof {
        assert forall|k: int| 0 <= k < r.dv().len() implies r.dv()[k] == (a.dv() + b.dv())[k] by {
            if k < na {
                assert(r.offers@[k].dv() == a.dv()[k]);
            } else {
                assert(r.offers@[na + (k - na)].dv() == b.dv()[k - na]);
            }
        }
        assert(r.dv() =~= a.dv() + b.dv());
    }
    r
}

impl Stack {
    /// Enumerate every concrete specialization of this stack.
    ///
    /// Returns one nonce per specialization, in the order of `offers_dv`: a
    /// choice contributes its left branch's nonces first.
    pub fn offers(&self) -> (r: Vec<StackNonce>)
        ensures
            nonce_dvs(r@) == self.offers_dv(),
        decreases self,
    {
        match self {
            Stack::Leaf(l) => {
                let mut n = StackNonce::empty();
                n.insert(l.to_offer());
                let r = vec![n];
                proof {
                    assert(nonce_dvs(r@) =~= self.offers_dv());
                }
                r
            },
            Stack::Sequence(h, t) => {
                let hs = h.offers();
                let ts = t.offers();
                let ghost hv = nonce_dvs(hs@);
                let ghost tv = nonce_dvs(ts@);
                let mut out: Vec<StackNonce> = Vec::new();
                let tn = ts.len();
                let hn = hs.len();
                let mut ti: usize = 0;
                while ti < tn
                    invariant
                        tn == ts@.len(),
                        hn == hs@.len(),
                        ti <= tn,
                        hv == nonce_dvs(hs@),
                        tv == nonce_dvs(ts@),
                        nonce_dvs(out@) =~= product_offers(hv, tv.take(ti as int)),
                    decreases tn - ti,
                {
                    let tb = &ts[ti];
                    let mut hi: usize = 0;
                    while hi < hn
                        invariant
                            tn == ts@.len(),
                            hn == hs@.len(),
                            ti < tn,
                            hi <= hn,
                            hv == nonce_dvs(hs@),
                            tv == nonce_dvs(ts@),
                            tb == &ts[ti as int],
                            out@.len() == product_offers(hv, tv.take(ti as int)).len() + hi,
                            nonce_dvs(out@).take(out@.len() - hi) =~= product_offers(
                                hv,
                                tv.take(ti as int),
                            ),
                            forall|k: int|
                                0 <= k < hi ==> nonce_dvs(out@)[out@.len() - hi + k] == hv[k]
                                    + tv[ti as int],
                        decreases hn - hi,
                    {
                        let ha = &hs[hi];
                        let merged = merge_nonce(ha, tb);
                        out.push(merged);
                        hi = hi + 1;
                        proof {
                            assert(nonce_dvs(out@).take(out@.len() - hi) =~= nonce_dvs(
                                out@.drop_last(),
                            ).take(out@.len() - hi));
                        }
                    }
                    proof {
                        lemma_product_offers_push(hv, tv.take(ti as int), tv[ti as int]);
                        assert(tv.take(ti as int).push(tv[ti as int]) =~= tv.take(ti as int + 1));
                        assert(nonce_dvs(out@) =~= product_offers(hv, tv.take(ti as int))
                            + merge_row(hv, tv[ti as int]));
                    }
                    ti = ti + 1;
                }
                proof {
                    assert(tv.take(tn as int) =~= tv);
                }
                out
            },
            Stack::Select(l, r, _) => {
                let mut out = l.offers();
                let rs = r.offers();
                let ghost lv = nonce_dvs(out@);
                let ghost rv = nonce_dvs(rs@);
                let rn = rs.len();
                let mut k: usize = 0;
                while k < rn
                    invariant
                        rn == rs@.len(),
                        k <= rn,
                        lv == self->Select_0.offers_dv(),
                        rv == self->Select_1.offers_dv(),
                        rv == nonce_dvs(rs@),
                        nonce_dvs(out@) =~= lv + rv.take(k as int),
                    decreases rn - k,
                {
                    let n = rs[k].clone();
                    proof {
                        assert(n.dv() == rv[k as int]);
                    }
                    let ghost out_before = out@;
                    out.push(n);
                    k = k + 1;
                    proof {
                        assert(nonce_dvs(out@) =~= nonce_dvs(out_before).push(n.dv()));
                        assert(nonce_dvs(out@) =~= lv + rv.take(k as int));
                    }
                }
                proof {
                    assert(rv.take(rn as int) =~= rv);
                    assert(nonce_dvs(out@) =~= lv + rv);
                }
                out
            },
        }
    }
}

/// A stack without choices enumerates exactly one nonce.
pub proof fn lemma_offers_dv_len_concrete(s: Stack)
    requires
        s.num_selects() == 0,
    ensures
        s.offers_dv().len() == 1,
    decreases s,
{
    match s {
        Stack::Leaf(_) => {},
        Stack::Sequence(h, t) => {
            lemma_offers_dv_len_concrete(*h);
            lemma_offers_dv_len_concrete(*t);
            lemma_product_offers_len(h.offers_dv(), t.offers_dv());
        },
        Stack::Select(l, r, _) => {},
    }
}

/// Enumeration counts multiply along a sequence and add across a choice; a
/// stack whose `k` selects each choose between concrete branches enumerates
/// exactly `2^k` nonces.
pub proof fn lemma_offers_dv_len(s: Stack)
    requires
        s.selects_flat(),
    ensures
        s.offers_dv().len() == pow2(s.num_selects()),
    decreases s,
{
    vstd::arithmetic::power2::lemma2_to64();
    match s {
        Stack::Leaf(_) => {
            assert(pow2(0) == 1);
        },
        Stack::Sequence(h, t) => {
            lemma_offers_dv_len(*h);
            lemma_offers_dv_len(*t);
            lemma_product_offers_len(h.offers_dv(), t.offers_dv());
            lemma_pow2_adds(h.num_selects(), t.num_selects());
            assert(h.offers_dv().len() == pow2(h.num_selects()));
            assert(t.offers_dv().len() == pow2(t.num_selects()));
            assert(pow2(t.num_selects()) * pow2(h.num_selects()) == pow2(h.num_selects()) * pow2(
                t.num_selects(),
            )) by (nonlinear_arith);
        },
        Stack::Select(l, r, _) => {
            lemma_offers_dv_len_concrete(*l);
            lemma_offers_dv_len_concrete(*r);
            assert(s.num_selects() == 1);
            assert(pow2(1) == 2);
        },
    }
}

} // verus!

verus! {

/// Does `v` hold `g`?
fn holds_guid(v: &Vec<u64>, g: u64) -> (r: bool)
    ensures
        r == v@.contains(g),
{
    let n = v.len();
    let mut i: usize = 0;
    while i < n
        invariant
            n == v@.len(),
            i <= n,
            forall|k: int| 0 <= k < i ==> v@[k] != g,
        decreases n - i,
    {
        if v[i] == g {
            return true;
        }
        i = i + 1;
    }
    false
}

impl Stack {
    /// Every leaf's capability guid, in leaf order.
    fn guid_list(&self) -> (r: Vec<u64>)
        ensures
            forall|g: u64| r@.contains(g) <==> self.guids().contains(g),
        decreases self,
    {
        match self {
            Stack::Leaf(l) => {
                let mut v: Vec<u64> = Vec::new();
                v.push(l.capability_guid);
                proof {
                    assert(v@ =~= seq![l.capability_guid]);
                    assert forall|g: u64| v@.contains(g) <==> self.guids().contains(g) by {
                        if g == l.capability_guid {
                            assert(v@[0] == g);
                        }
                        if v@.contains(g) {
                            let k = choose|k: int| 0 <= k < v@.len() && v@[k] == g;
                            assert(k == 0);
                        }
                    }
                }
                v
            },
            Stack::Sequence(h, t) => {
                let mut v = h.guid_list();
                let mut rest = t.guid_list();
                let ghost left = v@;
                let ghost right = rest@;
                v.append(&mut rest);
                proof {
                    assert forall|g: u64| v@.contains(g) <==> self.guids().contains(g) by {
                        if left.contains(g) {
                            let k = choose|k: int| 0 <= k < left.len() && left[k] == g;
                            assert(v@[k] == g);
                        }
                        if right.contains(g) {
                            let k = choose|k: int| 0 <= k < right.len() && right[k] == g;
                            assert(v@[left.len() + k] == g);
                        }
                        if v@.contains(g) {
                            let k = choose|k: int| 0 <= k < v@.len() && v@[k] == g;
                            if k < left.len() {
                                assert(left[k] == g);
                            } else {
                                assert(right[k - left.len()] == g);
                            }
                        }
                    }
                }
                v
            },
            Stack::Select(l, r, _) => {
                let mut v = l.guid_list();
                let mut rest = r.guid_list();
                let ghost left = v@;
                let ghost right = rest@;
                v.append(&mut rest);
                proof {
                    assert forall|g: u64| v@.contains(g) <==> self.guids().contains(g) by {
                        if left.contains(g) {
                            let k = choose|k: int| 0 <= k < left.len() && left[k] == g;
                            assert(v@[k] == g);
                        }
                        if right.contains(g) {
                            let k = choose|k: int| 0 <= k < right.len() && right[k] == g;
                            assert(v@[left.len() + k] == g);
                        }
                        if v@.contains(g) {
                            let k = choose|k: int| 0 <= k < v@.len() && v@[k] == g;
                            if k < left.len() {
                                assert(left[k] == g);
                            } else {
                                assert(right[k - left.len()] == g);
                            }
                        }
                    }
                }
                v
            },
        }
    }

    /// Decide well-formedness: do the two sides of every composition
    /// declare disjoint capability sets?
    pub fn check_wf(&self) -> (r: bool)
        ensures
            r == self.wf(),
        decreases self,
    {
        match self {
            Stack::Leaf(_) => true,
            Stack::Sequence(h, t) => {
                if !h.check_wf() || !t.check_wf() {
                    return false;
                }
                let hg = h.guid_list();
                let tg = t.guid_list();
                let n = hg.len();
                let mut i: usize = 0;
                while i < n
                    invariant
                        n == hg@.len(),
                        i <= n,
                        *self is Sequence,
                        self->Sequence_0 == *h,
                        self->Sequence_1 == *t,
                        h.wf(),
                        t.wf(),
                        forall|g: u64| hg@.contains(g) <==> h.guids().contains(g),
                        forall|g: u64| tg@.contains(g) <==> t.guids().contains(g),
                        forall|k: int| 0 <= k < i ==> !tg@.contains(#[trigger] hg@[k]),
                    decreases n - i,
                {
                    if holds_guid(&tg, hg[i]) {
                        proof {
                            assert(h.guids().contains(hg@[i as int]));
                            assert(t.guids().contains(hg@[i as int]));
                            assert(!h.guids().disjoint(t.guids()));
                        }
                        return false;
                    }
                    i = i + 1;
                }
                proof {
                    assert forall|g: u64| h.guids().contains(g) implies !t.guids().contains(
                        g,
                    ) by {
                        let k = choose|k: int| 0 <= k < hg@.len() && hg@[k] == g;
                        assert(!tg@.contains(hg@[k]));
                    }
                    assert(h.guids().disjoint(t.guids()));
                }
                true
            },
            Stack::Select(l, r, _) => l.check_wf() && r.check_wf(),
        }
    }
}

} // verus!

verus! {

/// The guids a nonce drawn from a stack's enumeration mentions are among
/// that stack's guids.
pub proof fn lemma_offers_dv_guids(s: Stack, i: int)
    requires
        s.wf(),
        0 <= i < s.offers_dv().len(),
    ensures
        offers_map(s.offers_dv()[i]).dom().subset_of(s.guids()),
{
    lemma_offers_dv_wf(s, i);
    lemma_offers_map_dom(s.offers_dv()[i]);
    assert forall|g: u64| offers_map(s.offers_dv()[i]).dom().contains(g) implies
        s.guids().contains(g) by {
        let k = choose|k: int|
            0 <= k < s.offers_dv()[i].len() && #[trigger] s.offers_dv()[i][k].capability_guid == g;
        assert(s.guids().contains(s.offers_dv()[i][k].capability_guid));
    }
}

/// Every enumerated nonce holds at least one offer.
pub proof fn lemma_offers_dv_nonempty(s: Stack, i: int)
    requires
        0 <= i < s.offers_dv().len(),
    ensures
        s.offers_dv()[i].len() > 0,
    decreases s,
{
    match s {
        Stack::Leaf(_) => {},
        Stack::Sequence(h, t) => {
            lemma_product_offers_index(h.offers_dv(), t.offers_dv(), i);
            let (ti, hi) = choose|ti: int, hi: int|
                0 <= ti < t.offers_dv().len() && 0 <= hi < h.offers_dv().len() && product_offers(
                    h.offers_dv(),
                    t.offers_dv(),
                )[i] == #[trigger] (h.offers_dv()[hi] + t.offers_dv()[ti]);
            lemma_offers_dv_nonempty(*h, hi);
        },
        Stack::Select(l, r, _) => {
            if i < l.offers_dv().len() {
                lemma_offers_dv_nonempty(*l, i);
            } else {
                lemma_offers_dv_nonempty(*r, i - l.offers_dv().len());
            }
        },
    }
}

impl Stack {
    /// In every choice, both branches declare the same capability set.
    pub open spec fn select_guids_equal(self) -> bool
        decreases self,
    {
        match self {
            Stack::Leaf(_) => true,
            Stack::Sequence(h, t) => h.select_guids_equal() && t.select_guids_equal(),
            Stack::Select(l, r, _) => l.select_guids_equal() && r.select_guids_equal()
                && l.guids() == r.guids(),
        }
    }
}

/// When every choice is between branches covering the same capabilities,
/// every enumerated nonce mentions exactly the stack's capability set.
pub proof fn lemma_offers_dv_guid_set(s: Stack, i: int)
    requires
        s.wf(),
        s.select_guids_equal(),
        0 <= i < s.offers_dv().len(),
    ensures
        offers_map(s.offers_dv()[i]).dom() == s.guids(),
    decreases s,
{
    lemma_offers_map_dom(s.offers_dv()[i]);
    match s {
        Stack::Leaf(l) => {
            assert(s.offers_dv()[i][0].capability_guid == l.capability_guid);
            assert(offers_map(s.offers_dv()[i]).dom() =~= s.guids());
        },
        Stack::Sequence(h, t) => {
            lemma_product_offers_index(h.offers_dv(), t.offers_dv(), i);
            let (ti, hi) = choose|ti: int, hi: int|
                0 <= ti < t.offers_dv().len() && 0 <= hi < h.offers_dv().len() && product_offers(
                    h.offers_dv(),
                    t.offers_dv(),
                )[i] == #[trigger] (h.offers_dv()[hi] + t.offers_dv()[ti]);
            lemma_offers_dv_guid_set(*h, hi);
            lemma_offers_dv_guid_set(*t, ti);
            crate::nonce::lemma_offers_map_concat(h.offers_dv()[hi], t.offers_dv()[ti]);
            assert(offers_map(s.offers_dv()[i]).dom() =~= s.guids());
        },
        Stack::Select(l, r, _) => {
            if i < l.offers_dv().len() {
                lemma_offers_dv_guid_set(*l, i);
            } else {
                lemma_offers_dv_guid_set(*r, i - l.offers_dv().len());
            }
            assert(offers_map(s.offers_dv()[i]).dom() =~= s.guids());
        },
    }
}

impl Stack {
    /// The implementation guids of all leaves.
    pub open spec fn impls(self) -> Set<u64>
        decreases self,
    {
        match self {
            Stack::Leaf(l) => Set::empty().insert(l.impl_guid),
            Stack::Sequence(h, t) => h.impls().union(t.impls()),
            Stack::Select(l, r, _) => l.impls().union(r.impls()),
        }
    }

    /// In every choice, the two branches use disjoint implementations, so
    /// an enumerated nonce always betrays which branch it came from.
    pub open spec fn select_impls_disjoint(self) -> bool
        decreases self,
    {
        match self {
            Stack::Leaf(_) => true,
            Stack::Sequence(h, t) => h.select_impls_disjoint() && t.select_impls_disjoint(),
            Stack::Select(l, r, _) => l.select_impls_disjoint() && r.select_impls_disjoint()
                && l.impls().disjoint(r.impls()),
        }
    }
}

/// Every offer of every enumerated nonce names one of the stack's own
/// implementations.
pub proof fn lemma_offers_dv_impls(s: Stack, i: int)
    requires
        0 <= i < s.offers_dv().len(),
    ensures
        forall|k: int|
            0 <= k < s.offers_dv()[i].len() ==> s.impls().contains(
                (#[trigger] s.offers_dv()[i][k]).impl_guid,
            ),
    decreases s,
{
    match s {
        Stack::Leaf(_) => {},
        Stack::Sequence(h, t) => {
            lemma_product_offers_index(h.offers_dv(), t.offers_dv(), i);
            let (ti, hi) = choose|ti: int, hi: int|
                0 <= ti < t.offers_dv().len() && 0 <= hi < h.offers_dv().len() && product_offers(
                    h.offers_dv(),
                    t.offers_dv(),
                )[i] == #[trigger] (h.offers_dv()[hi] + t.offers_dv()[ti]);
            lemma_offers_dv_impls(*h, hi);
            lemma_offers_dv_impls(*t, ti);
            let ha = h.offers_dv()[hi];
            let tb = t.offers_dv()[ti];
            assert forall|k: int| 0 <= k < (ha + tb).len() implies s.impls().contains(
                (#[trigger] (ha + tb)[k]).impl_guid,
            ) by {
                if k < ha.len() {
                    assert(h.impls().contains(ha[k].impl_guid));
                } else {
                    assert(t.impls().contains(tb[k - ha.len()].impl_guid));
                }
            }
        },
        Stack::Select(l, r, _) => {
            if i < l.offers_dv().len() {
                lemma_offers_dv_impls(*l, i);
            } else {
                lemma_offers_dv_impls(*r, i - l.offers_dv().len());
            }
        },
    }
}

} // verus!

verus! {

/// No two enumerated nonces denote the same capability map.
pub open spec fn distinct_nonces(os: Seq<Seq<OfferData>>) -> bool {
    forall|i: int, j: int|
        0 <= i < j < os.len() ==> offers_map(#[trigger] os[i]) != offers_map(#[trigger] os[j])
}

/// The product element at row `ti`, column `hi`.
pub proof fn lemma_product_offers_position(
    hs: Seq<Seq<OfferData>>,
    ts: Seq<Seq<OfferData>>,
    ti: int,
    hi: int,
)
    requires
        0 <= ti < ts.len(),
        0 <= hi < hs.len(),
    ensures
        0 <= ti * hs.len() + hi < product_offers(hs, ts).len(),
        product_offers(hs, ts)[ti * hs.len() + hi] == hs[hi] + ts[ti],
    decreases ti,
{
    lemma_product_offers_len(hs, ts);
    let len: int = hs.len() as int;
    assert(0 <= ti * len && (ti + 1) * len <= ts.len() * len) by (nonlinear_arith)
        requires
            0 <= ti < ts.len(),
            len >= 0,
    ;
    assert((ti + 1) * len == ti * len + len) by (nonlinear_arith);
    if ti == 0 {
        assert(ti * len + hi == hi) by (nonlinear_arith)
            requires
                ti == 0,
        ;
        assert(product_offers(hs, ts)[hi] == merge_row(hs, ts.first())[hi]);
        assert(merge_row(hs, ts.first())[hi] == hs[hi] + ts[0]);
    } else {
        lemma_product_offers_position(hs, ts.drop_first(), ti - 1, hi);
        assert((ti - 1) * len == ti * len - len) by (nonlinear_arith);
        assert(ti * len >= len) by (nonlinear_arith)
            requires
                ti >= 1,
                len >= 0,
        ;
        assert(product_offers(hs, ts)[ti * len + hi] == product_offers(hs, ts.drop_first())[(ti
            - 1) * len + hi]);
        assert(ts.drop_first()[ti - 1] == ts[ti]);
    }
}

/// In a well-formed sequence the two halves of a product element can be
/// recovered from the whole: equality of the merged maps forces equality
/// of the halves.
proof fn lemma_product_maps_split(
    h: Stack,
    t: Stack,
    hi: int,
    hj: int,
    ti: int,
    tj: int,
)
    requires
        h.wf(),
        t.wf(),
        h.guids().disjoint(t.guids()),
        0 <= hi < h.offers_dv().len(),
        0 <= hj < h.offers_dv().len(),
        0 <= ti < t.offers_dv().len(),
        0 <= tj < t.offers_dv().len(),
        offers_map(h.offers_dv()[hi] + t.offers_dv()[ti]) == offers_map(
            h.offers_dv()[hj] + t.offers_dv()[tj],
        ),
    ensures
        offers_map(h.offers_dv()[hi]) == offers_map(h.offers_dv()[hj]),
        offers_map(t.offers_dv()[ti]) == offers_map(t.offers_dv()[tj]),
{
    let ha = offers_map(h.offers_dv()[hi]);
    let hb = offers_map(h.offers_dv()[hj]);
    let ta = offers_map(t.offers_dv()[ti]);
    let tb = offers_map(t.offers_dv()[tj]);
    crate::nonce::lemma_offers_map_concat(h.offers_dv()[hi], t.offers_dv()[ti]);
    crate::nonce::lemma_offers_map_concat(h.offers_dv()[hj], t.offers_dv()[tj]);
    lemma_offers_dv_guids(h, hi);
    lemma_offers_dv_guids(h, hj);
    lemma_offers_dv_guids(t, ti);
    lemma_offers_dv_guids(t, tj);
    let u = offers_map(h.offers_dv()[hi] + t.offers_dv()[ti]);
    assert forall|g: u64| #![trigger ha.dom().contains(g)] #![trigger hb.dom().contains(g)] true
        implies (ha.dom().contains(g) ==> hb.dom().contains(g) && ha[g] == hb[g]) && (
    hb.dom().contains(g) ==> ha.dom().contains(g)) by {
        if ha.dom().contains(g) {
            assert(h.guids().contains(g));
            assert(!ta.dom().contains(g));
            assert(!tb.dom().contains(g));
            assert(u.dom().contains(g) && u[g] == ha[g]);
            assert(hb.dom().contains(g) && hb[g] == u[g]);
        }
        if hb.dom().contains(g) {
            assert(h.guids().contains(g));
            assert(!tb.dom().contains(g));
            assert(!ta.dom().contains(g));
            assert(u.dom().contains(g));
            assert(ha.dom().contains(g));
        }
    }
    assert(ha =~= hb);
    assert forall|g: u64| #![trigger ta.dom().contains(g)] #![trigger tb.dom().contains(g)] true
        implies (ta.dom().contains(g) ==> tb.dom().contains(g) && ta[g] == tb[g]) && (
    tb.dom().contains(g) ==> ta.dom().contains(g)) by {
        if ta.dom().contains(g) {
            assert(t.guids().contains(g));
            assert(!ha.dom().contains(g));
            assert(!hb.dom().contains(g));
            assert(u.dom().contains(g) && u[g] == ta[g]);
            assert(tb.dom().contains(g) && tb[g] == u[g]);
        }
        if tb.dom().contains(g) {
            assert(t.guids().contains(g));
            assert(!hb.dom().contains(g));
            assert(!ha.dom().contains(g));
            assert(u.dom().contains(g));
            assert(ta.dom().contains(g));
        }
    }
    assert(ta =~= tb);
}

/// When every choice is between branches with disjoint implementations, a
/// well-formed stack's enumerated nonces are pairwise distinct maps: it
/// enumerates that many genuinely different concrete stacks.
pub proof fn lemma_offers_distinct(s: Stack)
    requires
        s.wf(),
        s.select_impls_disjoint(),
    ensures
        distinct_nonces(s.offers_dv()),
    decreases s,
{
    match s {
        Stack::Leaf(_) => {},
        Stack::Sequence(h, t) => {
            lemma_offers_distinct(*h);
            lemma_offers_distinct(*t);
            lemma_product_offers_len(h.offers_dv(), t.offers_dv());
            let hn: int = h.offers_dv().len() as int;
            let tn: int = t.offers_dv().len() as int;
            assert forall|i: int, j: int| 0 <= i < j < s.offers_dv().len() implies offers_map(
                #[trigger] s.offers_dv()[i],
            ) != offers_map(#[trigger] s.offers_dv()[j]) by {
                vstd::arithmetic::div_mod::lemma_fundamental_div_mod(i, hn);
                vstd::arithmetic::div_mod::lemma_fundamental_div_mod(j, hn);
                vstd::arithmetic::div_mod::lemma_mod_bound(i, hn);
                vstd::arithmetic::div_mod::lemma_mod_bound(j, hn);
                let ti = i / hn;
                let hi = i % hn;
                let tj = j / hn;
                let hj = j % hn;
                assert(ti >= 0 && tj >= 0) by (nonlinear_arith)
                    requires
                        hn > 0,
                        i >= 0,
                        j >= 0,
                        ti == i / hn,
                        tj == j / hn,
                ;
                assert(ti < tn && tj < tn) by (nonlinear_arith)
                    requires
                        hn > 0,
                        i < tn * hn,
                        j < tn * hn,
                        0 <= hi < hn,
                        0 <= hj < hn,
                        i == hn * ti + hi,
                        j == hn * tj + hj,
                ;
                lemma_product_offers_position(h.offers_dv(), t.offers_dv(), ti, hi);
                lemma_product_offers_position(h.offers_dv(), t.offers_dv(), tj, hj);
                assert(ti * hn + hi == i) by (nonlinear_arith)
                    requires
                        i == hn * ti + hi,
                ;
                assert(tj * hn + hj == j) by (nonlinear_arith)
                    requires
                        j == hn * tj + hj,
                ;
                if offers_map(s.offers_dv()[i]) == offers_map(s.offers_dv()[j]) {
                    lemma_product_maps_split(*h, *t, hi, hj, ti, tj);
                    assert(!(ti == tj && hi == hj));
                    if hi != hj {
                        if hi < hj {
                            assert(offers_map(h.offers_dv()[hi]) != offers_map(
                                h.offers_dv()[hj],
                            ));
                        } else {
                            assert(offers_map(h.offers_dv()[hj]) != offers_map(
                                h.offers_dv()[hi],
                            ));
                        }
                    } else {
                        if ti < tj {
                            assert(offers_map(t.offers_dv()[ti]) != offers_map(
                                t.offers_dv()[tj],
                            ));
                        } else {
                            assert(offers_map(t.offers_dv()[tj]) != offers_map(
                                t.offers_dv()[ti],
                            ));
                        }
                    }
                }
            }
        },
        Stack::Select(l, r, _) => {
            lemma_offers_distinct(*l);
            lemma_offers_distinct(*r);
            let ln = l.offers_dv().len() as int;
            assert forall|i: int, j: int| 0 <= i < j < s.offers_dv().len() implies offers_map(
                #[trigger] s.offers_dv()[i],
            ) != offers_map(#[trigger] s.offers_dv()[j]) by {
                if i < ln && j < ln {
                    assert(s.offers_dv()[i] == l.offers_dv()[i]);
                    assert(s.offers_dv()[j] == l.offers_dv()[j]);
                } else if i >= ln && j >= ln {
                    assert(s.offers_dv()[i] == r.offers_dv()[i - ln]);
                    assert(s.offers_dv()[j] == r.offers_dv()[j - ln]);
                } else {
                    lemma_cross_branch_distinct(*l, *r, i, j - ln);
                    assert(s.offers_dv()[i] == l.offers_dv()[i]);
                    assert(s.offers_dv()[j] == r.offers_dv()[j - ln]);
                }
            }
        },
    }
}

/// A nonce enumerated by one branch of a choice never denotes the same map
/// as one enumerated by the other, when the branches share no
/// implementations.
proof fn lemma_cross_branch_distinct(l: Stack, r: Stack, i: int, j: int)
    requires
        l.wf(),
        r.wf(),
        l.impls().disjoint(r.impls()),
        0 <= i < l.offers_dv().len(),
        0 <= j < r.offers_dv().len(),
    ensures
        offers_map(l.offers_dv()[i]) != offers_map(r.offers_dv()[j]),
{
    let la = l.offers_dv()[i];
    let rb = r.offers_dv()[j];
    lemma_offers_dv_nonempty(l, i);
    lemma_offers_dv_wf(l, i);
    lemma_offers_dv_wf(r, j);
    lemma_offers_dv_impls(l, i);
    lemma_offers_dv_impls(r, j);
    crate::nonce::lemma_offers_map_at(la, 0);
    crate::nonce::lemma_offers_map_dom(rb);
    let g0 = la[0].capability_guid;
    assert(offers_map(la).dom().contains(g0));
    assert(offers_map(la)[g0] == la[0]);
    assert(l.impls().contains(la[0].impl_guid));
    if offers_map(la) == offers_map(rb) {
        assert(offers_map(rb).dom().contains(g0));
        let k = choose|k: int| 0 <= k < rb.len() && #[trigger] rb[k].capability_guid == g0;
        crate::nonce::lemma_offers_map_at(rb, k);
        assert(offers_map(rb)[g0] == rb[k]);
        assert(r.impls().contains(rb[k].impl_guid));
        assert(rb[k] == la[0]);
        assert(r.impls().contains(la[0].impl_guid));
    }
}

} // verus!
