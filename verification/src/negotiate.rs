//! Collapsing a stack against a picked nonce (`apply`), choosing among
//! candidate nonces (`pick`), and the monomorphizer that ties them together.

use vstd::prelude::*;
use crate::NegotiateError;
use crate::compat::{stack_pair_valid, stack_pair_valid_spec};
use crate::nonce::{OfferData, StackNonce, lemma_offers_map_concat, offers_map};
use crate::stack::{
    Layer, LayerData, Preference, Stack, lemma_offers_dv_guids, lemma_offers_dv_wf,
    lemma_product_offers_index, nonce_dvs,
};

verus! {

/// Saturating addition: priorities and preference counts accumulate without
/// wrapping.
pub open spec fn sat_add_spec(a: u64, b: u64) -> u64 {
    if a + b > u64::MAX {
        u64::MAX
    } else {
        (a + b) as u64
    }
}

/// Saturating addition is associative, so scores do not depend on the order
/// in which a stack's parts are combined.
pub proof fn lemma_sat_add_assoc(a: u64, b: u64, c: u64)
    ensures
        sat_add_spec(a, sat_add_spec(b, c)) == sat_add_spec(sat_add_spec(a, b), c),
{
}

/// Add with saturation at the top of the range.
pub fn sat_add(a: u64, b: u64) -> (r: u64)
    ensures
        r == sat_add_spec(a, b),
{
    if a > u64::MAX - b {
        u64::MAX
    } else {
        a + b
    }
}

/// Mathematical image of an `ApplyResult`.
#[verifier::ext_equal]
pub struct ApplyModel {
    pub layers: Seq<LayerData>,
    pub prefs: u64,
    pub priority: u64,
}

/// What collapsing a stack against a nonce produced: the chosen concrete
/// layers, inner first, with the score used by `pick` as a tie-break.
#[derive(Debug)]
pub struct ApplyResult {
    /// The chosen layers, inner to outer.
    pub layers: Vec<Layer>,
    /// How many selects resolved to their preferred branch (saturating).
    pub prefs: u64,
    /// The sum of the chosen layers' priorities (saturating).
    pub priority: u64,
}

impl ApplyResult {
    /// The result as a mathematical record.
    pub open spec fn model(self) -> ApplyModel {
        ApplyModel {
            layers: self.layers@.map_values(|l: Layer| l.ldv()),
            prefs: self.prefs,
            priority: self.priority,
        }
    }
}

/// Collapse a stack against a nonce.
///
/// A leaf resolves when the nonce maps its capability guid to its own
/// implementation guid.  A sequence resolves when both parts do.  A choice
/// resolves to whichever branch resolves, by its declared preference when
/// both do (an unspecified preference falls to the left); a resolved choice
/// whose resolution matches its preference earns one preference point.
pub open spec fn apply_spec(s: Stack, n: Map<u64, OfferData>) -> Option<ApplyModel>
    decreases s,
{
    match s {
        Stack::Leaf(l) => {
            if n.dom().contains(l.capability_guid) && n[l.capability_guid].impl_guid == l.impl_guid {
                Option::Some(
                    ApplyModel { layers: seq![l.ldv()], prefs: 0, priority: l.priority },
                )
            } else {
                Option::None
            }
        },
        Stack::Sequence(h, t) => {
            match (apply_spec(*h, n), apply_spec(*t, n)) {
                (Option::Some(a), Option::Some(b)) => Option::Some(
                    ApplyModel {
                        layers: a.layers + b.layers,
                        prefs: sat_add_spec(a.prefs, b.prefs),
                        priority: sat_add_spec(a.priority, b.priority),
                    },
                ),
                _ => Option::None,
            }
        },
        Stack::Select(l, r, p) => {
            match (apply_spec(*l, n), apply_spec(*r, n)) {
                (Option::Some(a), Option::None) => Option::Some(
                    ApplyModel {
                        layers: a.layers,
                        prefs: sat_add_spec(
                            a.prefs,
                            if p == Preference::Left {
                                1u64
                            } else {
                                0u64
                            },
                        ),
                        priority: a.priority,
                    },
                ),
                (Option::None, Option::Some(b)) => Option::Some(
                    ApplyModel {
                        layers: b.layers,
                        prefs: sat_add_spec(
                            b.prefs,
                            if p == Preference::Right {
                                1u64
                            } else {
                                0u64
                            },
                        ),
                        priority: b.priority,
                    },
                ),
                (Option::Some(a), Option::Some(b)) => {
                    if p == Preference::Right {
                        Option::Some(
                            ApplyModel {
                                layers: b.layers,
                                prefs: sat_add_spec(b.prefs, 1u64),
                                priority: b.priority,
                            },
                        )
                    } else {
                        Option::Some(
                            ApplyModel {
                                layers: a.layers,
                                prefs: sat_add_spec(
                                    a.prefs,
                                    if p == Preference::Left {
                                        1u64
                                    } else {
                                        0u64
                                    },
                                ),
                                priority: a.priority,
                            },
                        )
                    }
                },
                (Option::None, Option::None) => Option::None,
            }
        },
    }
}

/// Collapse the stack to the concrete stack `picked` describes.
///
/// Fails exactly when some choice cannot be resolved against `picked`; the
/// concrete layers and the pick score come back on success.
pub fn apply(s: &Stack, picked: &StackNonce) -> (r: Result<ApplyResult, NegotiateError>)
    requires
        picked.wf(),
    ensures
        match r {
            Result::Ok(a) => apply_spec(*s, picked@) == Option::Some(a.model()),
            Result::Err(e) => apply_spec(*s, picked@) is None && e is MonomorphizationFailed,
        },
    decreases s,
{
    match s {
        Stack::Leaf(l) => {
            match picked.get(l.capability_guid) {
                Option::Some(o) if o.impl_guid == l.impl_guid => {
                    let a = ApplyResult { layers: vec![l.clone()], prefs: 0, priority: l.priority };
                    proof {
                        assert(a.model().layers =~= seq![l.ldv()]);
                    }
                    Result::Ok(a)
                },
                _ => Result::Err(NegotiateError::MonomorphizationFailed),
            }
        },
        Stack::Sequence(h, t) => {
            match (apply(h, picked), apply(t, picked)) {
                (Result::Ok(a), Result::Ok(b)) => {
                    let mut layers = a.layers;
                    let mut rest = b.layers;
                    layers.append(&mut rest);
                    let prefs = sat_add(a.prefs, b.prefs);
                    let priority = sat_add(a.priority, b.priority);
                    let out = ApplyResult { layers, prefs, priority };
                    proof {
                        let am = apply_spec(**h, picked@)->Some_0;
                        let bm = apply_spec(**t, picked@)->Some_0;
                        assert(out.model().layers =~= am.layers + bm.layers);
                    }
                    Result::Ok(out)
                },
                _ => Result::Err(NegotiateError::MonomorphizationFailed),
            }
        },
        Stack::Select(l, r, p) => {
            match (apply(l, picked), apply(r, picked)) {
                (Result::Ok(a), Result::Err(_)) => {
                    let bonus: u64 = if *p == Preference::Left {
                        1
                    } else {
                        0
                    };
                    Result::Ok(
                        ApplyResult {
                            layers: a.layers,
                            prefs: sat_add(a.prefs, bonus),
                            priority: a.priority,
                        },
                    )
                },
                (Result::Err(_), Result::Ok(b)) => {
                    let bonus: u64 = if *p == Preference::Right {
                        1
                    } else {
                        0
                    };
                    Result::Ok(
                        ApplyResult {
                            layers: b.layers,
                            prefs: sat_add(b.prefs, bonus),
                            priority: b.priority,
                        },
                    )
                },
                (Result::Ok(a), Result::Ok(b)) => {
                    if *p == Preference::Right {
                        Result::Ok(
                            ApplyResult {
                                layers: b.layers,
                                prefs: sat_add(b.prefs, 1),
                                priority: b.priority,
                            },
                        )
                    } else {
                        let bonus: u64 = if *p == Preference::Left {
                            1
                        } else {
                            0
                        };
                        Result::Ok(
                            ApplyResult {
                                layers: a.layers,
                                prefs: sat_add(a.prefs, bonus),
                                priority: a.priority,
                            },
                        )
                    }
                },
                (Result::Err(e), Result::Err(_)) => Result::Err(e),
            }
        },
    }
}

/// Every leaf of the stack, inner first, both branches of a choice included.
pub open spec fn stack_leaves(s: Stack) -> Seq<LayerData>
    decreases s,
{
    match s {
        Stack::Leaf(l) => seq![l.ldv()],
        Stack::Sequence(h, t) => stack_leaves(*h) + stack_leaves(*t),
        Stack::Select(l, r, _) => stack_leaves(*l) + stack_leaves(*r),
    }
}

/// Every binding of `m` stands unchanged in `n`.
pub open spec fn map_within(m: Map<u64, OfferData>, n: Map<u64, OfferData>) -> bool {
    forall|g: u64| #[trigger] m.dom().contains(g) ==> n.dom().contains(g) && m[g] == n[g]
}

/// When the two halves of a merged nonce come from stacks with disjoint
/// capability sets, each half stays a submap of anything the whole is a
/// submap of.
proof fn lemma_submaps_of_concat(h: Stack, t: Stack, hi: int, ti: int, n: Map<u64, OfferData>)
    requires
        h.wf(),
        t.wf(),
        h.guids().disjoint(t.guids()),
        0 <= hi < h.offers_dv().len(),
        0 <= ti < t.offers_dv().len(),
        map_within(offers_map(h.offers_dv()[hi] + t.offers_dv()[ti]), n),
    ensures
        map_within(offers_map(h.offers_dv()[hi]), n),
        map_within(offers_map(t.offers_dv()[ti]), n),
{
    let ha = h.offers_dv()[hi];
    let tb = t.offers_dv()[ti];
    lemma_offers_map_concat(ha, tb);
    lemma_offers_dv_guids(h, hi);
    lemma_offers_dv_guids(t, ti);
    assert forall|g: u64| offers_map(ha).dom().contains(g) implies #[trigger] n.dom().contains(g)
        && n[g] == offers_map(ha)[g] by {
        assert(h.guids().contains(g));
        if offers_map(tb).dom().contains(g) {
            assert(t.guids().contains(g));
        }
        assert(offers_map(ha + tb) == offers_map(ha).union_prefer_right(offers_map(tb)));
        assert(offers_map(ha + tb).dom().contains(g));
        assert(offers_map(ha + tb)[g] == offers_map(ha)[g]);
        assert(n.dom().contains(g) && n[g] == offers_map(ha + tb)[g]);
    }
    assert forall|g: u64| offers_map(tb).dom().contains(g) implies #[trigger] n.dom().contains(g)
        && n[g] == offers_map(tb)[g] by {
        assert(offers_map(ha + tb).dom().contains(g));
        assert(offers_map(ha + tb)[g] == offers_map(tb)[g]);
        assert(n.dom().contains(g) && n[g] == offers_map(ha + tb)[g]);
    }
}

/// Applying any of a well-formed stack's own enumerated nonces resolves: an
/// offer the stack itself produced can always be applied, also under any
/// wider nonce that preserves its entries.
pub proof fn lemma_apply_of_offer(s: Stack, n: Map<u64, OfferData>, i: int)
    requires
        s.wf(),
        0 <= i < s.offers_dv().len(),
        map_within(offers_map(s.offers_dv()[i]), n),
    ensures
        apply_spec(s, n) is Some,
    decreases s,
{
    crate::nonce::lemma_offers_map_dom(s.offers_dv()[i]);
    match s {
        Stack::Leaf(l) => {
            let m = offers_map(s.offers_dv()[i]);
            assert(s.offers_dv()[i][0] == l.dv());
            assert(m.dom().contains(l.capability_guid));
            assert(m[l.capability_guid] == l.dv());
        },
        Stack::Sequence(h, t) => {
            lemma_product_offers_index(h.offers_dv(), t.offers_dv(), i);
            let (ti, hi) = choose|ti: int, hi: int|
                0 <= ti < t.offers_dv().len() && 0 <= hi < h.offers_dv().len()
                    && crate::stack::product_offers(h.offers_dv(), t.offers_dv())[i]
                    == #[trigger] (h.offers_dv()[hi] + t.offers_dv()[ti]);
            lemma_submaps_of_concat(*h, *t, hi, ti, n);
            lemma_apply_of_offer(*h, n, hi);
            lemma_apply_of_offer(*t, n, ti);
        },
        Stack::Select(l, r, _) => {
            if i < l.offers_dv().len() {
                lemma_apply_of_offer(*l, n, i);
            } else {
                lemma_apply_of_offer(*r, n, i - l.offers_dv().len());
            }
        },
    }
}

/// A concrete (select-free), well-formed stack applied to its own single
/// enumerated nonce resolves to exactly its own layers.
pub proof fn lemma_apply_own_offer(s: Stack, n: Map<u64, OfferData>)
    requires
        s.wf(),
        s.num_selects() == 0,
        map_within(offers_map(s.offers_dv()[0]), n),
    ensures
        apply_spec(s, n) is Some,
        apply_spec(s, n)->Some_0.layers == stack_leaves(s),
    decreases s,
{
    crate::stack::lemma_offers_dv_len_concrete(s);
    lemma_apply_of_offer(s, n, 0);
    match s {
        Stack::Leaf(l) => {},
        Stack::Sequence(h, t) => {
            crate::stack::lemma_offers_dv_len_concrete(*h);
            crate::stack::lemma_offers_dv_len_concrete(*t);
            let ha = h.offers_dv()[0];
            let tb = t.offers_dv()[0];
            assert(s.offers_dv()[0] == ha + tb);
            lemma_submaps_of_concat(*h, *t, 0, 0, n);
            lemma_apply_own_offer(*h, n);
            lemma_apply_own_offer(*t, n);
        },
        Stack::Select(l, r, _) => {},
    }
}

} // verus!

verus! {

/// A nonce's implementation guids, in declaration order.
pub open spec fn impl_guids_of(a: Seq<OfferData>) -> Seq<u64> {
    a.map_values(|o: OfferData| o.impl_guid)
}

/// Strict lexicographic order on guid sequences; a proper prefix comes
/// first.
pub open spec fn lex_less(x: Seq<u64>, y: Seq<u64>) -> bool
    decreases x.len(),
{
    if y.len() == 0 {
        false
    } else if x.len() == 0 {
        true
    } else if x.first() < y.first() {
        true
    } else if x.first() > y.first() {
        false
    } else {
        lex_less(x.drop_first(), y.drop_first())
    }
}

/// Decide `lex_less` on two guid vectors.
fn lex_less_vec(x: &Vec<u64>, y: &Vec<u64>) -> (r: bool)
    ensures
        r == lex_less(x@, y@),
{
    let xn = x.len();
    let yn = y.len();
    let mut i: usize = 0;
    proof {
        assert(x@.skip(0) =~= x@);
        assert(y@.skip(0) =~= y@);
    }
    while i < xn && i < yn
        invariant
            xn == x@.len(),
            yn == y@.len(),
            i <= xn,
            i <= yn,
            lex_less(x@, y@) == lex_less(x@.skip(i as int), y@.skip(i as int)),
        decreases xn - i,
    {
        proof {
            assert(x@.skip(i as int).first() == x@[i as int]);
            assert(y@.skip(i as int).first() == y@[i as int]);
        }
        if x[i] < y[i] {
            return true;
        }
        if x[i] > y[i] {
            return false;
        }
        i = i + 1;
        proof {
            assert(x@.skip(i - 1).drop_first() =~= x@.skip(i as int));
            assert(y@.skip(i - 1).drop_first() =~= y@.skip(i as int));
        }
    }
    proof {
        if i < yn {
            assert(x@.skip(i as int).len() == 0);
            assert(y@.skip(i as int).len() > 0);
        } else {
            assert(y@.skip(i as int).len() == 0);
        }
    }
    xn < yn
}

/// The implementation guids a nonce declares, in order.
fn impl_guids(n: &StackNonce) -> (r: Vec<u64>)
    ensures
        r@ == impl_guids_of(n.dv()),
{
    let mut r: Vec<u64> = Vec::new();
    let count = n.offers.len();
    let mut i: usize = 0;
    while i < count
        invariant
            count == n.offers@.len(),
            i <= count,
            r@.len() == i,
            forall|k: int| 0 <= k < i ==> r@[k] == n.dv()[k].impl_guid,
        decreases count - i,
    {
        r.push(n.offers[i].impl_guid);
        i = i + 1;
    }
    proof {
        assert(r@ =~= impl_guids_of(n.dv()));
    }
    r
}

/// The score `pick` ranks a candidate nonce by: whether the nonce satisfies
/// every capability unilaterally, then preference points, then priority.
/// `None` means the stack cannot be applied to the nonce at all.
pub open spec fn score_spec(s: Stack, a: Seq<OfferData>) -> Option<(bool, u64, u64)> {
    match apply_spec(s, offers_map(a)) {
        Option::Some(m) => Option::Some(
            (stack_pair_valid_spec(offers_map(a), offers_map(a)), m.prefs, m.priority),
        ),
        Option::None => Option::None,
    }
}

/// Rank a candidate nonce.
fn score_of(s: &Stack, n: &StackNonce) -> (r: Option<(bool, u64, u64)>)
    requires
        n.wf(),
    ensures
        r == score_spec(*s, n.dv()),
{
    match apply(s, n) {
        Result::Ok(a) => {
            let solo = stack_pair_valid(n, n);
            Option::Some((solo, a.prefs, a.priority))
        },
        Result::Err(_) => Option::None,
    }
}

/// The strict "prefer `a` over `b`" order used by `pick`:
/// 1. an applicable nonce over an inapplicable one;
/// 2. a nonce that satisfies every capability without the peer;
/// 3. more selects resolved to their preferred branch;
/// 4. higher total layer priority;
/// 5. lexicographically smaller implementation guids, as the final
///    deterministic tie-break.
pub open spec fn better(s: Stack, a: Seq<OfferData>, b: Seq<OfferData>) -> bool {
    match (score_spec(s, a), score_spec(s, b)) {
        (Option::Some(x), Option::Some(y)) => {
            if x.0 != y.0 {
                x.0
            } else if x.1 != y.1 {
                x.1 > y.1
            } else if x.2 != y.2 {
                x.2 > y.2
            } else {
                lex_less(impl_guids_of(a), impl_guids_of(b))
            }
        },
        (Option::Some(_), Option::None) => true,
        (Option::None, _) => false,
    }
}

/// Decide `better` on two candidate nonces.
fn better_nonce(s: &Stack, a: &StackNonce, b: &StackNonce) -> (r: bool)
    requires
        a.wf(),
        b.wf(),
    ensures
        r == better(*s, a.dv(), b.dv()),
{
    let sa = score_of(s, a);
    let sb = score_of(s, b);
    match (sa, sb) {
        (Option::Some(x), Option::Some(y)) => {
            if x.0 != y.0 {
                x.0
            } else if x.1 != y.1 {
                x.1 > y.1
            } else if x.2 != y.2 {
                x.2 > y.2
            } else {
                let ga = impl_guids(a);
                let gb = impl_guids(b);
                lex_less_vec(&ga, &gb)
            }
        },
        (Option::Some(_), Option::None) => true,
        (Option::None, _) => false,
    }
}

/// The index of the best candidate among the first `n`, earliest winner on
/// ties.
pub open spec fn pick_best_idx(s: Stack, ls: Seq<Seq<OfferData>>, n: int) -> int
    decreases n,
{
    if n <= 1 {
        0
    } else {
        let p = pick_best_idx(s, ls, n - 1);
        if better(s, ls[n - 1], ls[p]) {
            n - 1
        } else {
            p
        }
    }
}

/// The best index is in range.
pub proof fn lemma_pick_best_idx_in_range(s: Stack, ls: Seq<Seq<OfferData>>, n: int)
    requires
        n >= 1,
    ensures
        0 <= pick_best_idx(s, ls, n) < n,
    decreases n,
{
    if n > 1 {
        lemma_pick_best_idx_in_range(s, ls, n - 1);
    }
}

/// The local sides of a sequence of candidate pairs.
pub open spec fn local_dvs(c: Seq<(StackNonce, StackNonce)>) -> Seq<Seq<OfferData>> {
    c.map_values(|p: (StackNonce, StackNonce)| p.0.dv())
}

/// Choose one candidate pair's local nonce, by score then tie-breaks; see
/// `better`.  Returns nothing exactly when there are no candidates.
pub fn pick(s: &Stack, candidates: &Vec<(StackNonce, StackNonce)>) -> (r: Option<StackNonce>)
    requires
        forall|i: int| 0 <= i < candidates@.len() ==> (#[trigger] candidates@[i]).0.wf(),
    ensures
        match r {
            Option::Some(p) => candidates@.len() > 0 && p.wf() && p.dv() == local_dvs(
                candidates@,
            )[pick_best_idx(*s, local_dvs(candidates@), candidates@.len() as int)],
            Option::None => candidates@.len() == 0,
        },
{
    let n = candidates.len();
    if n == 0 {
        return Option::None;
    }
    let mut best: usize = 0;
    let mut j: usize = 1;
    while j < n
        invariant
            n == candidates@.len(),
            1 <= j <= n,
            best < j,
            forall|i: int| 0 <= i < candidates@.len() ==> (#[trigger] candidates@[i]).0.wf(),
            best as int == pick_best_idx(*s, local_dvs(candidates@), j as int),
        decreases n - j,
    {
        if better_nonce(s, &candidates[j].0, &candidates[best].0) {
            best = j;
        }
        j = j + 1;
    }
    Option::Some(candidates[best].0.clone())
}

} // verus!

verus! {

/// The candidate pairs one local nonce forms against a list of peer nonces,
/// peer order kept.
pub open spec fn row_pairs(l: Seq<OfferData>, ps: Seq<Seq<OfferData>>) -> Seq<
    (Seq<OfferData>, Seq<OfferData>),
>
    decreases ps.len(),
{
    if ps.len() == 0 {
        Seq::empty()
    } else {
        (if stack_pair_valid_spec(offers_map(l), offers_map(ps.first())) {
            seq![(l, ps.first())]
        } else {
            Seq::empty()
        }) + row_pairs(l, ps.drop_first())
    }
}

/// The candidate pairs of all local nonces against all peer nonces, local
/// order outermost.
pub open spec fn valid_pairs(ls: Seq<Seq<OfferData>>, ps: Seq<Seq<OfferData>>) -> Seq<
    (Seq<OfferData>, Seq<OfferData>),
>
    decreases ls.len(),
{
    if ls.len() == 0 {
        Seq::empty()
    } else {
        row_pairs(ls.first(), ps) + valid_pairs(ls.drop_first(), ps)
    }
}

/// Appending one peer extends a row by at most one pair.
pub proof fn lemma_row_pairs_push(l: Seq<OfferData>, ps: Seq<Seq<OfferData>>, x: Seq<OfferData>)
    ensures
        row_pairs(l, ps.push(x)) =~= row_pairs(l, ps) + (
        if stack_pair_valid_spec(offers_map(l), offers_map(x)) {
            seq![(l, x)]
        } else {
            Seq::empty()
        }),
    decreases ps.len(),
{
    if ps.len() == 0 {
        let ss = ps.push(x);
        assert(ss.first() == x);
        assert(ss.drop_first() =~= Seq::<Seq<OfferData>>::empty());
        assert(row_pairs(l, ss.drop_first()) =~= Seq::empty());
    } else {
        assert(ps.push(x).first() == ps.first());
        assert(ps.push(x).drop_first() =~= ps.drop_first().push(x));
        lemma_row_pairs_push(l, ps.drop_first(), x);
    }
}

/// Appending one local nonce appends its whole row.
pub proof fn lemma_valid_pairs_push(
    ls: Seq<Seq<OfferData>>,
    ps: Seq<Seq<OfferData>>,
    x: Seq<OfferData>,
)
    ensures
        valid_pairs(ls.push(x), ps) =~= valid_pairs(ls, ps) + row_pairs(x, ps),
    decreases ls.len(),
{
    if ls.len() == 0 {
        let ss = ls.push(x);
        assert(ss.first() == x);
        assert(ss.drop_first() =~= Seq::<Seq<OfferData>>::empty());
        assert(valid_pairs(ss.drop_first(), ps) =~= Seq::empty());
        assert(valid_pairs(ss, ps) =~= row_pairs(x, ps) + Seq::empty());
    } else {
        assert(ls.push(x).first() == ls.first());
        assert(ls.push(x).drop_first() =~= ls.drop_first().push(x));
        lemma_valid_pairs_push(ls.drop_first(), ps, x);
    }
}

/// Every pair in a row pairs that row's local nonce with some peer.
pub proof fn lemma_row_pairs_member(l: Seq<OfferData>, ps: Seq<Seq<OfferData>>, i: int)
    requires
        0 <= i < row_pairs(l, ps).len(),
    ensures
        row_pairs(l, ps)[i].0 == l,
    decreases ps.len(),
{
    if ps.len() > 0 {
        let head = if stack_pair_valid_spec(offers_map(l), offers_map(ps.first())) {
            seq![(l, ps.first())]
        } else {
            Seq::<(Seq<OfferData>, Seq<OfferData>)>::empty()
        };
        if i >= head.len() {
            lemma_row_pairs_member(l, ps.drop_first(), i - head.len());
        }
    }
}

/// Every candidate pair's local side is one of the local nonces.
pub proof fn lemma_valid_pairs_member(ls: Seq<Seq<OfferData>>, ps: Seq<Seq<OfferData>>, i: int)
    requires
        0 <= i < valid_pairs(ls, ps).len(),
    ensures
        exists|k: int| 0 <= k < ls.len() && valid_pairs(ls, ps)[i].0 == #[trigger] ls[k],
    decreases ls.len(),
{
    if ls.len() > 0 {
        let row = row_pairs(ls.first(), ps);
        if i < row.len() {
            lemma_row_pairs_member(ls.first(), ps, i);
            assert(valid_pairs(ls, ps)[i].0 == ls[0]);
        } else {
            lemma_valid_pairs_member(ls.drop_first(), ps, i - row.len());
            let k = choose|k: int|
                0 <= k < ls.drop_first().len() && valid_pairs(ls.drop_first(), ps)[i - row.len()].0
                    == #[trigger] ls.drop_first()[k];
            assert(valid_pairs(ls, ps)[i].0 == ls[k + 1]);
        }
    }
}

/// Each local nonce paired with itself, used when there are no peers.
pub open spec fn self_pairs(ls: Seq<Seq<OfferData>>) -> Seq<(Seq<OfferData>, Seq<OfferData>)> {
    ls.map_values(|l: Seq<OfferData>| (l, l))
}

/// The candidate pairs the monomorphizer considers: every mutually valid
/// (local, peer) pairing, or each local nonce against itself when no peer
/// offers are given.
pub open spec fn candidates_spec(s: Stack, ps: Seq<Seq<OfferData>>) -> Seq<
    (Seq<OfferData>, Seq<OfferData>),
> {
    if ps.len() == 0 {
        self_pairs(s.offers_dv())
    } else {
        valid_pairs(s.offers_dv(), ps)
    }
}

/// The local sides of a sequence of candidate pair records.
pub open spec fn pair_locals(c: Seq<(Seq<OfferData>, Seq<OfferData>)>) -> Seq<Seq<OfferData>> {
    c.map_values(|p: (Seq<OfferData>, Seq<OfferData>)| p.0)
}

/// The nonce the monomorphizer settles on for a stack against peer offers,
/// or nothing when no candidate pairing is valid.
pub open spec fn monomorphize_spec(s: Stack, ps: Seq<Seq<OfferData>>) -> Option<Seq<OfferData>> {
    let c = candidates_spec(s, ps);
    if c.len() == 0 {
        Option::None
    } else {
        Option::Some(pair_locals(c)[pick_best_idx(s, pair_locals(c), c.len() as int)])
    }
}

/// The monomorphizer's choice is one of the stack's own enumerated nonces.
pub proof fn lemma_monomorphize_member(s: Stack, ps: Seq<Seq<OfferData>>)
    requires
        monomorphize_spec(s, ps) is Some,
    ensures
        exists|k: int|
            0 <= k < s.offers_dv().len() && monomorphize_spec(s, ps)->Some_0 == #[trigger] s.offers_dv()[k],
{
    let c = candidates_spec(s, ps);
    lemma_pick_best_idx_in_range(s, pair_locals(c), c.len() as int);
    let i = pick_best_idx(s, pair_locals(c), c.len() as int);
    if ps.len() == 0 {
        assert(pair_locals(c)[i] == s.offers_dv()[i]);
    } else {
        lemma_valid_pairs_member(s.offers_dv(), ps, i);
    }
}

/// Applying the monomorphizer's choice to a well-formed stack always
/// resolves: the verification step of the monomorphizer cannot fail.
pub proof fn lemma_monomorphize_applies(s: Stack, ps: Seq<Seq<OfferData>>)
    requires
        s.wf(),
        monomorphize_spec(s, ps) is Some,
    ensures
        apply_spec(s, offers_map(monomorphize_spec(s, ps)->Some_0)) is Some,
{
    lemma_monomorphize_member(s, ps);
    let k = choose|k: int|
        0 <= k < s.offers_dv().len() && monomorphize_spec(s, ps)->Some_0 == #[trigger] s.offers_dv()[k];
    lemma_apply_of_offer(s, offers_map(s.offers_dv()[k]), k);
}

} // verus!

verus! {

/// Copy a list of nonces.
pub(crate) fn clone_nonces(v: &Vec<StackNonce>) -> (r: Vec<StackNonce>)
    ensures
        nonce_dvs(r@) == nonce_dvs(v@),
{
    let mut r: Vec<StackNonce> = Vec::new();
    let n = v.len();
    let mut i: usize = 0;
    while i < n
        invariant
            n == v@.len(),
            i <= n,
            r@.len() == i,
            forall|k: int| 0 <= k < i ==> (#[trigger] r@[k]).dv() == v@[k].dv(),
        decreases n - i,
    {
        r.push(v[i].clone());
        i = i + 1;
    }
    proof {
        assert(nonce_dvs(r@) =~= nonce_dvs(v@));
    }
    r
}

/// Produce a single concrete stack and its nonce for `stack` against a
/// peer's offers, or an error.
///
/// Enumerates the stack's own offers, pairs them with the peer's (each local
/// offer with itself when `peer_offers` is empty), drops incompatible
/// pairings, picks the best remaining candidate, and verifies that the stack
/// applies to it.  `NoCompatibleStack` reports both sides' offers exactly
/// when no pairing is mutually valid.
pub fn monomorphize(stack: &Stack, peer_offers: &Vec<StackNonce>) -> (r: Result<
    (StackNonce, ApplyResult),
    NegotiateError,
>)
    requires
        stack.wf(),
        forall|i: int| 0 <= i < peer_offers@.len() ==> (#[trigger] peer_offers@[i]).wf(),
    ensures
        match r {
            Result::Ok((picked, a)) => monomorphize_spec(*stack, nonce_dvs(peer_offers@))
                == Option::Some(picked.dv()) && picked.wf() && apply_spec(*stack, picked@)
                == Option::Some(a.model()),
            Result::Err(e) => match e {
                NegotiateError::NoCompatibleStack { client_offers, server_offers } => {
                    &&& monomorphize_spec(*stack, nonce_dvs(peer_offers@)) is None
                    &&& nonce_dvs(client_offers@) == nonce_dvs(peer_offers@)
                    &&& nonce_dvs(server_offers@) == stack.offers_dv()
                },
                NegotiateError::MonomorphizationFailed => {
                    &&& monomorphize_spec(*stack, nonce_dvs(peer_offers@)) is Some
                    &&& apply_spec(
                        *stack,
                        offers_map(monomorphize_spec(*stack, nonce_dvs(peer_offers@))->Some_0),
                    ) is None
                },
                _ => false,
            },
        },
{
    let locals = stack.offers();
    let ghost lv = nonce_dvs(locals@);
    let ghost pv = nonce_dvs(peer_offers@);
    proof {
        assert forall|i: int| 0 <= i < locals@.len() implies (#[trigger] locals@[i]).wf() by {
            lemma_offers_dv_wf(*stack, i);
        }
    }
    let ln = locals.len();
    let mut cands: Vec<(StackNonce, StackNonce)> = Vec::new();
    if peer_offers.len() == 0 {
        let mut i: usize = 0;
        while i < ln
            invariant
                ln == locals@.len(),
                i <= ln,
                lv == nonce_dvs(locals@),
                forall|k: int| 0 <= k < locals@.len() ==> (#[trigger] locals@[k]).wf(),
                cands@.len() == i,
                forall|k: int|
                    0 <= k < i ==> (#[trigger] cands@[k]).0.dv() == lv[k] && cands@[k].1.dv()
                        == lv[k] && cands@[k].0.wf(),
            decreases ln - i,
        {
            cands.push((locals[i].clone(), locals[i].clone()));
            i = i + 1;
        }
        proof {
            assert(cand_pair_dvs(cands@) =~= self_pairs(lv));
        }
    } else {
        let pn = peer_offers.len();
        let mut i: usize = 0;
        while i < ln
            invariant
                ln == locals@.len(),
                pn == peer_offers@.len(),
                i <= ln,
                lv == nonce_dvs(locals@),
                pv == nonce_dvs(peer_offers@),
                forall|k: int| 0 <= k < locals@.len() ==> (#[trigger] locals@[k]).wf(),
                forall|k: int| 0 <= k < peer_offers@.len() ==> (#[trigger] peer_offers@[k]).wf(),
                forall|k: int| 0 <= k < cands@.len() ==> (#[trigger] cands@[k]).0.wf(),
                cand_pair_dvs(cands@) =~= valid_pairs(lv.take(i as int), pv),
            decreases ln - i,
        {
            let l = &locals[i];
            let mut j: usize = 0;
            while j < pn
                invariant
                    ln == locals@.len(),
                    pn == peer_offers@.len(),
                    i < ln,
                    j <= pn,
                    lv == nonce_dvs(locals@),
                    pv == nonce_dvs(peer_offers@),
                    l == &locals@[i as int],
                    forall|k: int| 0 <= k < locals@.len() ==> (#[trigger] locals@[k]).wf(),
                    forall|k: int|
                        0 <= k < peer_offers@.len() ==> (#[trigger] peer_offers@[k]).wf(),
                    forall|k: int| 0 <= k < cands@.len() ==> (#[trigger] cands@[k]).0.wf(),
                    cand_pair_dvs(cands@) =~= valid_pairs(lv.take(i as int), pv) + row_pairs(
                        lv[i as int],
                        pv.take(j as int),
                    ),
                decreases pn - j,
            {
                let p = &peer_offers[j];
                let ghost cands_before = cands@;
                if stack_pair_valid(l, p) {
                    cands.push((l.clone(), p.clone()));
                }
                j = j + 1;
                proof {
                    lemma_row_pairs_push(lv[i as int], pv.take(j - 1), pv[j - 1]);
                    assert(pv.take(j - 1).push(pv[j - 1]) =~= pv.take(j as int));
                    if stack_pair_valid_spec(offers_map(lv[i as int]), offers_map(pv[j - 1])) {
                        assert(cand_pair_dvs(cands@) =~= cand_pair_dvs(cands_before).push(
                            (lv[i as int], pv[j - 1]),
                        ));
                    } else {
                        assert(cand_pair_dvs(cands@) =~= cand_pair_dvs(cands_before));
                    }
                    assert(cand_pair_dvs(cands@) =~= valid_pairs(lv.take(i as int), pv)
                        + row_pairs(lv[i as int], pv.take(j as int)));
                }
            }
            i = i + 1;
            proof {
                assert(pv.take(pn as int) =~= pv);
                lemma_valid_pairs_push(lv.take(i - 1), pv, lv[i - 1]);
                assert(lv.take(i - 1).push(lv[i - 1]) =~= lv.take(i as int));
                assert(cand_pair_dvs(cands@) =~= valid_pairs(lv.take(i as int), pv));
            }
        }
        proof {
            assert(lv.take(ln as int) =~= lv);
        }
    }
    proof {
        assert(cand_pair_dvs(cands@) =~= candidates_spec(*stack, pv));
    }
    if cands.len() == 0 {
        let server_offers = locals;
        let client_offers = clone_nonces(peer_offers);
        return Result::Err(NegotiateError::NoCompatibleStack { client_offers, server_offers });
    }
    let picked = match pick(stack, &cands) {
        Option::Some(p) => p,
        Option::None => {
            return Result::Err(NegotiateError::MonomorphizationFailed);
        },
    };
    proof {
        assert(local_dvs(cands@) =~= pair_locals(candidates_spec(*stack, pv)));
        crate::nonce::lemma_offers_map_dom(picked.dv());
    }
    match apply(stack, &picked) {
        Result::Ok(a) => Result::Ok((picked, a)),
        Result::Err(_) => Result::Err(NegotiateError::MonomorphizationFailed),
    }
}

/// The offer-list images of a sequence of candidate pairs.
pub open spec fn cand_pair_dvs(c: Seq<(StackNonce, StackNonce)>) -> Seq<
    (Seq<OfferData>, Seq<OfferData>),
> {
    c.map_values(|p: (StackNonce, StackNonce)| (p.0.dv(), p.1.dv()))
}

/// Negotiate against ourselves for a nonce: run the monomorphizer with our
/// own offers standing in for the peer's.  This is what a rendezvous
/// participant stores on joining an empty address.
pub fn solo_monomorphize(stack: &Stack) -> (r: Result<StackNonce, NegotiateError>)
    requires
        stack.wf(),
    ensures
        match r {
            Result::Ok(p) => monomorphize_spec(*stack, stack.offers_dv()) == Option::Some(p.dv())
                && p.wf(),
            Result::Err(e) => match e {
                NegotiateError::NoCompatibleStack { client_offers, server_offers } => {
                    &&& monomorphize_spec(*stack, stack.offers_dv()) is None
                    &&& nonce_dvs(client_offers@) == stack.offers_dv()
                    &&& nonce_dvs(server_offers@) == stack.offers_dv()
                },
                NegotiateError::MonomorphizationFailed => {
                    &&& monomorphize_spec(*stack, stack.offers_dv()) is Some
                    &&& apply_spec(
                        *stack,
                        offers_map(monomorphize_spec(*stack, stack.offers_dv())->Some_0),
                    ) is None
                },
                _ => false,
            },
        },
{
    let offers = stack.offers();
    proof {
        assert forall|i: int| 0 <= i < offers@.len() implies (#[trigger] offers@[i]).wf() by {
            lemma_offers_dv_wf(*stack, i);
        }
    }
    match monomorphize(stack, &offers) {
        Result::Ok((picked, _)) => Result::Ok(picked),
        Result::Err(e) => Result::Err(e),
    }
}

} // verus!

verus! {

/// Wrapping a choice in a sequence resolves exactly as the choice between
/// the two wrapped sequences: `apply` cannot tell the two shapes apart.
pub proof fn lemma_apply_associative(
    h: Stack,
    x: Stack,
    y: Stack,
    p: Preference,
    n: Map<u64, OfferData>,
)
    ensures
        apply_spec(
            Stack::Sequence(Box::new(h), Box::new(Stack::Select(Box::new(x), Box::new(y), p))),
            n,
        ) == apply_spec(
            Stack::Select(
                Box::new(Stack::Sequence(Box::new(h), Box::new(x))),
                Box::new(Stack::Sequence(Box::new(h), Box::new(y))),
                p,
            ),
            n,
        ),
{
    reveal_with_fuel(apply_spec, 3);
    let s1 = Stack::Sequence(Box::new(h), Box::new(Stack::Select(Box::new(x), Box::new(y), p)));
    let s2 = Stack::Select(
        Box::new(Stack::Sequence(Box::new(h), Box::new(x))),
        Box::new(Stack::Sequence(Box::new(h), Box::new(y))),
        p,
    );
    let ah = apply_spec(h, n);
    let ax = apply_spec(x, n);
    let ay = apply_spec(y, n);
    match ah {
        Option::None => {},
        Option::Some(mh) => {
            match (ax, ay) {
                (Option::None, Option::None) => {},
                (Option::Some(mx), Option::None) => {
                    let bonus: u64 = if p == Preference::Left {
                        1u64
                    } else {
                        0u64
                    };
                    lemma_sat_add_assoc(mh.prefs, mx.prefs, bonus);
                },
                (Option::None, Option::Some(my)) => {
                    let bonus: u64 = if p == Preference::Right {
                        1u64
                    } else {
                        0u64
                    };
                    lemma_sat_add_assoc(mh.prefs, my.prefs, bonus);
                },
                (Option::Some(mx), Option::Some(my)) => {
                    if p == Preference::Right {
                        lemma_sat_add_assoc(mh.prefs, my.prefs, 1u64);
                    } else {
                        let bonus: u64 = if p == Preference::Left {
                            1u64
                        } else {
                            0u64
                        };
                        lemma_sat_add_assoc(mh.prefs, mx.prefs, bonus);
                    }
                },
            }
        },
    }
}

/// Two stacks that apply identically rank candidates identically.
pub proof fn lemma_pick_best_idx_congruent(
    s1: Stack,
    s2: Stack,
    ls: Seq<Seq<OfferData>>,
    n: int,
)
    requires
        forall|m: Map<u64, OfferData>| #[trigger] apply_spec(s1, m) == apply_spec(s2, m),
    ensures
        pick_best_idx(s1, ls, n) == pick_best_idx(s2, ls, n),
    decreases n,
{
    if n > 1 {
        lemma_pick_best_idx_congruent(s1, s2, ls, n - 1);
        let q = pick_best_idx(s1, ls, n - 1);
        assert(apply_spec(s1, offers_map(ls[n - 1])) == apply_spec(s2, offers_map(ls[n - 1])));
        assert(apply_spec(s1, offers_map(ls[q])) == apply_spec(s2, offers_map(ls[q])));
        assert(better(s1, ls[n - 1], ls[q]) == better(s2, ls[n - 1], ls[q]));
    }
}

/// Monomorphization is associative: composing a stack `h` with a choice
/// between `x` and `y` settles on the same nonce as choosing between the
/// composition of `h` with `x` and the composition of `h` with `y`, against
/// any peer offers.
pub proof fn lemma_monomorphize_associative(
    h: Stack,
    x: Stack,
    y: Stack,
    p: Preference,
    ps: Seq<Seq<OfferData>>,
)
    ensures
        Stack::Sequence(
            Box::new(h),
            Box::new(Stack::Select(Box::new(x), Box::new(y), p)),
        ).offers_dv() == Stack::Select(
            Box::new(Stack::Sequence(Box::new(h), Box::new(x))),
            Box::new(Stack::Sequence(Box::new(h), Box::new(y))),
            p,
        ).offers_dv(),
        monomorphize_spec(
            Stack::Sequence(Box::new(h), Box::new(Stack::Select(Box::new(x), Box::new(y), p))),
            ps,
        ) == monomorphize_spec(
            Stack::Select(
                Box::new(Stack::Sequence(Box::new(h), Box::new(x))),
                Box::new(Stack::Sequence(Box::new(h), Box::new(y))),
                p,
            ),
            ps,
        ),
{
    let s1 = Stack::Sequence(Box::new(h), Box::new(Stack::Select(Box::new(x), Box::new(y), p)));
    let s2 = Stack::Select(
        Box::new(Stack::Sequence(Box::new(h), Box::new(x))),
        Box::new(Stack::Sequence(Box::new(h), Box::new(y))),
        p,
    );
    reveal_with_fuel(Stack::offers_dv, 3);
    crate::stack::lemma_product_offers_concat(h.offers_dv(), x.offers_dv(), y.offers_dv());
    assert(s1.offers_dv() =~= s2.offers_dv());
    assert forall|m: Map<u64, OfferData>| #[trigger] apply_spec(s1, m) == apply_spec(s2, m) by {
        lemma_apply_associative(h, x, y, p, m);
    }
    let c = candidates_spec(s1, ps);
    assert(candidates_spec(s2, ps) == c);
    if c.len() > 0 {
        lemma_pick_best_idx_congruent(s1, s2, pair_locals(c), c.len() as int);
    }
}

} // verus!

verus! {

/// Collapse a choice between two stored branches against a nonce, exactly
/// as `apply` resolves a `Select` node holding them.
pub fn apply_select(
    left: &Stack,
    right: &Stack,
    prefer: Preference,
    picked: &StackNonce,
) -> (r: Result<ApplyResult, NegotiateError>)
    requires
        picked.wf(),
    ensures
        match r {
            Result::Ok(a) => apply_spec(
                Stack::Select(Box::new(*left), Box::new(*right), prefer),
                picked@,
            ) == Option::Some(a.model()),
            Result::Err(e) => apply_spec(
                Stack::Select(Box::new(*left), Box::new(*right), prefer),
                picked@,
            ) is None && e is MonomorphizationFailed,
        },
{
    match (apply(left, picked), apply(right, picked)) {
        (Result::Ok(a), Result::Err(_)) => {
            let bonus: u64 = if prefer == Preference::Left {
                1
            } else {
                0
            };
            Result::Ok(
                ApplyResult {
                    layers: a.layers,
                    prefs: sat_add(a.prefs, bonus),
                    priority: a.priority,
                },
            )
        },
        (Result::Err(_), Result::Ok(b)) => {
            let bonus: u64 = if prefer == Preference::Right {
                1
            } else {
                0
            };
            Result::Ok(
                ApplyResult {
                    layers: b.layers,
                    prefs: sat_add(b.prefs, bonus),
                    priority: b.priority,
                },
            )
        },
        (Result::Ok(a), Result::Ok(b)) => {
            if prefer == Preference::Right {
                Result::Ok(
                    ApplyResult {
                        layers: b.layers,
                        prefs: sat_add(b.prefs, 1),
                        priority: b.priority,
                    },
                )
            } else {
                let bonus: u64 = if prefer == Preference::Left {
                    1
                } else {
                    0
                };
                Result::Ok(
                    ApplyResult {
                        layers: a.layers,
                        prefs: sat_add(a.prefs, bonus),
                        priority: a.priority,
                    },
                )
            }
        },
        (Result::Err(e), Result::Err(_)) => Result::Err(e),
    }
}

} // verus!

verus! {

/// The lexicographic order is irreflexive.
proof fn lemma_lex_less_irrefl(x: Seq<u64>)
    ensures
        !lex_less(x, x),
    decreases x.len(),
{
    if x.len() > 0 {
        lemma_lex_less_irrefl(x.drop_first());
    }
}

/// The lexicographic order is transitive.
proof fn lemma_lex_less_trans(x: Seq<u64>, y: Seq<u64>, z: Seq<u64>)
    requires
        lex_less(x, y),
        lex_less(y, z),
    ensures
        lex_less(x, z),
    decreases x.len() + y.len() + z.len(),
{
    if x.len() == 0 {
    } else if x.first() < y.first() {
        if y.first() == z.first() {
        }
    } else {
        if x.first() == y.first() && y.first() == z.first() {
            lemma_lex_less_trans(x.drop_first(), y.drop_first(), z.drop_first());
        }
    }
}

/// The preference order on candidates is transitive.
proof fn lemma_better_trans(s: Stack, a: Seq<OfferData>, b: Seq<OfferData>, c: Seq<OfferData>)
    requires
        better(s, a, b),
        better(s, b, c),
    ensures
        better(s, a, c),
{
    match (score_spec(s, a), score_spec(s, b), score_spec(s, c)) {
        (Option::Some(x), Option::Some(y), Option::Some(z)) => {
            if x == y {
                if y == z {
                    lemma_lex_less_trans(impl_guids_of(a), impl_guids_of(b), impl_guids_of(c));
                }
            } else if y == z {
            }
        },
        _ => {},
    }
}

/// The preference order never prefers a candidate to itself.
proof fn lemma_better_irrefl(s: Stack, a: Seq<OfferData>)
    ensures
        !better(s, a, a),
{
    lemma_lex_less_irrefl(impl_guids_of(a));
}

/// The candidate `pick` settles on is optimal: no candidate is strictly
/// preferred to it under `better`, and among the optimal ones it is the
/// earliest.
pub proof fn lemma_pick_best_idx_optimal(s: Stack, ls: Seq<Seq<OfferData>>, n: int)
    requires
        1 <= n <= ls.len(),
    ensures
        forall|k: int| 0 <= k < n ==> !better(s, #[trigger] ls[k], ls[pick_best_idx(s, ls, n)]),
    decreases n,
{
    lemma_pick_best_idx_in_range(s, ls, n);
    if n == 1 {
        lemma_better_irrefl(s, ls[0]);
    } else {
        lemma_pick_best_idx_optimal(s, ls, n - 1);
        let p = pick_best_idx(s, ls, n - 1);
        let q = pick_best_idx(s, ls, n);
        if better(s, ls[n - 1], ls[p]) {
            assert(q == n - 1);
            assert forall|k: int| 0 <= k < n implies !better(s, #[trigger] ls[k], ls[q]) by {
                if k < n - 1 {
                    if better(s, ls[k], ls[n - 1]) {
                        lemma_better_trans(s, ls[k], ls[n - 1], ls[p]);
                    }
                } else {
                    lemma_better_irrefl(s, ls[n - 1]);
                }
            }
        } else {
            assert(q == p);
        }
    }
}

} // verus!
