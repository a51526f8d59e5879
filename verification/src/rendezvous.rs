//! N-party rendezvous negotiation: the per-address connection state a
//! key-value store holds, the operations participants drive it with, and the
//! monitor logic that applies semantic transitions to a live connection.

use vstd::prelude::*;
use crate::nonce::{OfferData, StackNonce, nonce_eq};

verus! {

/// The semantics registered on a rendezvous address: one concrete stack
/// nonce.
#[derive(Debug)]
pub struct RendezvousEntry {
    pub nonce: StackNonce,
}

impl Clone for RendezvousEntry {
    fn clone(&self) -> (r: Self)
        ensures
            r.nonce.dv() == self.nonce.dv(),
    {
        RendezvousEntry { nonce: self.nonce.clone() }
    }
}

/// What a rendezvous operation reports back to a participant.
#[derive(Debug)]
pub enum NegotiateRendezvousResult {
    /// The participant's semantics match the address's, or membership
    /// changed.
    Matched { num_participants: usize, round_number: usize },
    /// The semantics did not match; the address's current (or staged)
    /// semantics are returned.
    NoMatch { entry: RendezvousEntry, num_participants: usize, round_number: usize },
}

/// One participant of a rendezvous connection, with the time its lease runs
/// out.
#[derive(Debug, Clone, Copy, PartialEq, Eq, Structural)]
pub struct Participant {
    pub id: u64,
    pub lease_expiry: u64,
}

/// The connection state a rendezvous address holds.
///
/// `round_number` only ever grows.  A semantic transition is a two-phase
/// commit: phase one stages the proposed entry and opens a new round; the
/// commit counter then grows as participants accept, and phase two installs
/// the staged entry once every live participant has accepted.
#[derive(Debug)]
pub struct RendezvousState {
    /// The semantics currently in force.
    pub current: RendezvousEntry,
    /// A proposed transition, between commit phases.
    pub staged: Option<RendezvousEntry>,
    /// Strictly monotonic round counter.
    pub round_number: usize,
    /// The unexpired participants.
    pub participants: Vec<Participant>,
    /// How many participants have accepted the staged entry.
    pub commit_count: usize,
}

/// The participants still alive at `now`.
pub open spec fn live_participants(s: Seq<Participant>, now: u64) -> Seq<Participant> {
    s.filter(|p: Participant| p.lease_expiry >= now)
}

impl RendezvousState {
    /// Participants are unique per id; the commit counter is live only
    /// while an entry is staged; stored nonces are well-formed.
    pub open spec fn inv(&self) -> bool {
        &&& forall|i: int, j: int|
            0 <= i < j < self.participants@.len() ==> #[trigger] self.participants@[i].id
                != #[trigger] self.participants@[j].id
        &&& (self.staged is None ==> self.commit_count == 0)
        &&& self.current.nonce.wf()
        &&& (self.staged is Some ==> self.staged->Some_0.nonce.wf())
    }
}

/// Add the participant `id` or refresh its lease, keeping the others as
/// they were.
fn refresh_participant(ps: &mut Vec<Participant>, id: u64, lease_until: u64)
    requires
        forall|i: int, j: int|
            0 <= i < j < old(ps)@.len() ==> #[trigger] old(ps)@[i].id != #[trigger] old(ps)@[j].id,
    ensures
        forall|i: int, j: int|
            0 <= i < j < final(ps)@.len() ==> #[trigger] final(ps)@[i].id
                != #[trigger] final(ps)@[j].id,
        if exists|i: int| 0 <= i < old(ps)@.len() && (#[trigger] old(ps)@[i].id) == id {
            exists|i: int|
                0 <= i < old(ps)@.len() && (#[trigger] old(ps)@[i].id) == id && final(ps)@
                    == old(ps)@.update(i, Participant { id, lease_expiry: lease_until })
        } else {
            final(ps)@ == old(ps)@.push(Participant { id, lease_expiry: lease_until })
        },
{
    let n = ps.len();
    let mut i: usize = 0;
    while i < n
        invariant
            n == ps@.len(),
            i <= n,
            *ps == *old(ps),
            forall|x: int, y: int|
                0 <= x < y < ps@.len() ==> #[trigger] ps@[x].id != #[trigger] ps@[y].id,
            forall|k: int| 0 <= k < i ==> (#[trigger] ps@[k].id) != id,
        decreases n - i,
    {
        if ps[i].id == id {
            ps.set(i, Participant { id, lease_expiry: lease_until });
            proof {
                assert(old(ps)@[i as int].id == id);
                assert forall|x: int, y: int| 0 <= x < y < ps@.len() implies #[trigger] ps@[x].id
                    != #[trigger] ps@[y].id by {
                    assert(ps@[x].id == old(ps)@[x].id);
                    assert(ps@[y].id == old(ps)@[y].id);
                    assert(old(ps)@[x].id != old(ps)@[y].id);
                }
            }
            return ;
        }
        i = i + 1;
    }
    ps.push(Participant { id, lease_expiry: lease_until });
}

/// Set semantics on an empty address, or join a connection whose semantics
/// match; a mismatch reports the semantics in force without adopting the
/// caller's.
///
/// The caller joins the participant set (its lease running to
/// `lease_until`) in every case, as the connection counts it from now on.
pub fn try_init(
    state: Option<RendezvousState>,
    id: u64,
    offer: &RendezvousEntry,
    lease_until: u64,
) -> (r: (RendezvousState, NegotiateRendezvousResult))
    requires
        offer.nonce.wf(),
        match state {
            Option::Some(st) => st.inv(),
            Option::None => true,
        },
    ensures
        r.0.inv(),
        match state {
            Option::None => {
                &&& r.0.current.nonce.dv() == offer.nonce.dv()
                &&& r.0.staged is None
                &&& r.0.round_number == 0
                &&& r.0.participants@ == seq![Participant { id, lease_expiry: lease_until }]
                &&& r.1 matches NegotiateRendezvousResult::Matched {
                    num_participants: 1,
                    round_number: 0,
                }
            },
            Option::Some(st) => {
                &&& r.0.current == st.current
                &&& r.0.staged == st.staged
                &&& r.0.round_number == st.round_number
                &&& r.0.commit_count == st.commit_count
                &&& if exists|i: int|
                    0 <= i < st.participants@.len() && (#[trigger] st.participants@[i].id) == id {
                    r.0.participants@.len() == st.participants@.len()
                } else {
                    r.0.participants@.len() == st.participants@.len() + 1
                }
                &&& if st.current.nonce@ == offer.nonce@ {
                    r.1 matches NegotiateRendezvousResult::Matched {
                        num_participants,
                        round_number,
                    } && num_participants == r.0.participants@.len() && round_number
                        == st.round_number
                } else {
                    r.1 matches NegotiateRendezvousResult::NoMatch {
                        entry,
                        num_participants,
                        round_number,
                    } && entry.nonce.dv() == st.current.nonce.dv() && num_participants
                        == r.0.participants@.len() && round_number == st.round_number
                }
            },
        },
{
    match state {
        Option::None => {
            let st = RendezvousState {
                current: offer.clone(),
                staged: Option::None,
                round_number: 0,
                participants: vec![Participant { id, lease_expiry: lease_until }],
                commit_count: 0,
            };
            proof {
                assert(st.participants@ =~= seq![Participant { id, lease_expiry: lease_until }]);
            }
            let res = NegotiateRendezvousResult::Matched {
                num_participants: 1,
                round_number: 0,
            };
            (st, res)
        },
        Option::Some(mut st) => {
            refresh_participant(&mut st.participants, id, lease_until);
            let matched = nonce_eq(&st.current.nonce, &offer.nonce);
            let num_participants = st.participants.len();
            let round_number = st.round_number;
            let res = if matched {
                NegotiateRendezvousResult::Matched { num_participants, round_number }
            } else {
                NegotiateRendezvousResult::NoMatch {
                    entry: st.current.clone(),
                    num_participants,
                    round_number,
                }
            };
            (st, res)
        },
    }
}

} // verus!

verus! {

/// Query semantics on an address and refresh the caller's lease.
///
/// Reports `Matched` when the caller's entry and round are current;
/// `NoMatch` carrying the staged entry when a new round has begun; and an
/// error when the caller is ahead of the store, when its entry fell out of
/// step without a round change, or when a round began with nothing staged.
pub fn poll_entry(
    st: &mut RendezvousState,
    id: u64,
    curr_entry: &RendezvousEntry,
    curr_round: usize,
    lease_until: u64,
) -> (r: Result<NegotiateRendezvousResult, crate::NegotiateError>)
    requires
        old(st).inv(),
        curr_entry.nonce.wf(),
    ensures
        final(st).inv(),
        final(st).current == old(st).current,
        final(st).staged == old(st).staged,
        final(st).round_number == old(st).round_number,
        final(st).commit_count == old(st).commit_count,
        match r {
            Result::Ok(res) => match res {
                NegotiateRendezvousResult::Matched { num_participants, round_number } => {
                    &&& old(st).round_number == curr_round
                    &&& old(st).current.nonce@ == curr_entry.nonce@
                    &&& num_participants == final(st).participants@.len()
                    &&& round_number == curr_round
                },
                NegotiateRendezvousResult::NoMatch { entry, num_participants, round_number } => {
                    &&& old(st).round_number > curr_round
                    &&& old(st).staged is Some
                    &&& entry.nonce.dv() == old(st).staged->Some_0.nonce.dv()
                    &&& num_participants == final(st).participants@.len()
                    &&& round_number == old(st).round_number
                },
            },
            Result::Err(e) => {
                &&& e is RendezvousBackend
                &&& {
                    ||| old(st).round_number < curr_round
                    ||| (old(st).round_number == curr_round && old(st).current.nonce@
                        != curr_entry.nonce@)
                    ||| (old(st).round_number > curr_round && old(st).staged is None)
                }
            },
        },
{
    refresh_participant(&mut st.participants, id, lease_until);
    let num_participants = st.participants.len();
    if st.round_number == curr_round {
        if nonce_eq(&st.current.nonce, &curr_entry.nonce) {
            Result::Ok(
                NegotiateRendezvousResult::Matched { num_participants, round_number: curr_round },
            )
        } else {
            Result::Err(crate::NegotiateError::RendezvousBackend)
        }
    } else if st.round_number > curr_round {
        match &st.staged {
            Option::Some(staged) => Result::Ok(
                NegotiateRendezvousResult::NoMatch {
                    entry: staged.clone(),
                    num_participants,
                    round_number: st.round_number,
                },
            ),
            Option::None => Result::Err(crate::NegotiateError::RendezvousBackend),
        }
    } else {
        Result::Err(crate::NegotiateError::RendezvousBackend)
    }
}

/// Phase one of a semantic transition: stage the proposed entry, open a new
/// round, and count the proposer's own acceptance.
pub fn transition_start(st: &mut RendezvousState, new_entry: RendezvousEntry) -> (r: usize)
    requires
        old(st).inv(),
        old(st).round_number < usize::MAX,
        new_entry.nonce.wf(),
    ensures
        final(st).inv(),
        final(st).current == old(st).current,
        final(st).participants == old(st).participants,
        final(st).staged matches Option::Some(e) && e == new_entry,
        final(st).round_number == old(st).round_number + 1,
        final(st).commit_count == 1,
        r == final(st).round_number,
{
    st.staged = Option::Some(new_entry);
    st.round_number = st.round_number + 1;
    st.commit_count = 1;
    st.round_number
}

/// Phase two of a semantic transition, one attempt: install the staged
/// entry once every participant has accepted it.
///
/// `Ok(Some(round))` reports a finished commit; `Ok(None)` asks the
/// proposer to keep waiting; the transition is rejected when a newer round
/// overtook the one started.
pub fn transition_complete(st: &mut RendezvousState, started_round: usize) -> (r: Result<
    Option<usize>,
    crate::NegotiateError,
>)
    requires
        old(st).inv(),
        old(st).round_number < usize::MAX,
    ensures
        final(st).inv(),
        final(st).participants == old(st).participants,
        if old(st).staged is Some && old(st).commit_count >= old(st).participants@.len() {
            &&& r matches Result::Ok(o) && o matches Option::Some(round) && round
                == old(st).round_number + 1
            &&& final(st).current == old(st).staged->Some_0
            &&& final(st).staged is None
            &&& final(st).round_number == old(st).round_number + 1
            &&& final(st).commit_count == 0
        } else if old(st).round_number > started_round {
            &&& r matches Result::Err(e) && e is TransitionRejected
            &&& *final(st) == *old(st)
        } else {
            &&& r matches Result::Ok(o) && o is None
            &&& *final(st) == *old(st)
        },
{
    let commit_now = match &st.staged {
        Option::Some(_) => st.commit_count >= st.participants.len(),
        Option::None => false,
    };
    if commit_now {
        let mut staged = Option::None;
        core::mem::swap(&mut staged, &mut st.staged);
        match staged {
            Option::Some(entry) => {
                st.current = entry;
                st.round_number = st.round_number + 1;
                st.commit_count = 0;
                Result::Ok(Option::Some(st.round_number))
            },
            Option::None => Result::Err(crate::NegotiateError::RendezvousBackend),
        }
    } else if st.round_number > started_round {
        Result::Err(crate::NegotiateError::TransitionRejected)
    } else {
        Result::Ok(Option::None)
    }
}

/// Accept the staged entry for the round the caller believes is open;
/// errors when the rounds disagree or nothing is staged.
pub fn staged_update(st: &mut RendezvousState, round_ctr: usize) -> (r: Result<
    (),
    crate::NegotiateError,
>)
    requires
        old(st).inv(),
        old(st).commit_count < usize::MAX,
    ensures
        final(st).inv(),
        final(st).current == old(st).current,
        final(st).staged == old(st).staged,
        final(st).round_number == old(st).round_number,
        final(st).participants == old(st).participants,
        if old(st).round_number == round_ctr && old(st).staged is Some {
            r is Ok && final(st).commit_count == old(st).commit_count + 1
        } else {
            r matches Result::Err(e) && e is RendezvousBackend && final(st).commit_count == old(
                st,
            ).commit_count
        },
{
    if st.round_number != round_ctr {
        return Result::Err(crate::NegotiateError::RendezvousBackend);
    }
    match &st.staged {
        Option::Some(_) => {
            st.commit_count = st.commit_count + 1;
            Result::Ok(())
        },
        Option::None => Result::Err(crate::NegotiateError::RendezvousBackend),
    }
}

/// Has the staged entry been installed?  Reports the round to resume at
/// once the commit concludes.
pub fn staged_applied(st: &RendezvousState) -> (r: Option<usize>)
    ensures
        match r {
            Option::Some(round) => st.staged is None && round == st.round_number,
            Option::None => st.staged is Some,
        },
{
    match &st.staged {
        Option::Some(_) => Option::None,
        Option::None => Option::Some(st.round_number),
    }
}

/// Clamp a requested liveness expiration to the supported minimum: a
/// participant is never considered dead in under a millisecond.
pub fn liveness_expiration(requested_ms: u64) -> (r: u64)
    ensures
        r == if requested_ms < 1 {
            1u64
        } else {
            requested_ms
        },
{
    if requested_ms < 1 {
        1
    } else {
        requested_ms
    }
}

/// The participants of `s` other than `id`.
pub open spec fn without_participant(s: Seq<Participant>, id: u64) -> Seq<Participant> {
    s.filter(|p: Participant| p.id != id)
}

/// Filtering a participant list keeps every element an element, and keeps
/// ids pairwise distinct.
proof fn lemma_filter_unique_ids(s: Seq<Participant>, pred: spec_fn(Participant) -> bool)
    requires
        forall|x: int, y: int| 0 <= x < y < s.len() ==> #[trigger] s[x].id != #[trigger] s[y].id,
    ensures
        forall|k: int|
            0 <= k < s.filter(pred).len() ==> exists|j: int|
                0 <= j < s.len() && #[trigger] s.filter(pred)[k] == s[j],
        forall|x: int, y: int|
            0 <= x < y < s.filter(pred).len() ==> #[trigger] s.filter(pred)[x].id
                != #[trigger] s.filter(pred)[y].id,
    decreases s.len(),
{
    reveal(Seq::filter);
    if s.len() > 0 {
        let s1 = s.drop_last();
        lemma_filter_unique_ids(s1, pred);
        let f1 = s1.filter(pred);
        let f = s.filter(pred);
        assert forall|k: int| 0 <= k < f.len() implies exists|j: int|
            0 <= j < s.len() && #[trigger] f[k] == s[j] by {
            if k < f1.len() {
                let j = choose|j: int| 0 <= j < s1.len() && #[trigger] f1[k] == s1[j];
                assert(f[k] == s[j]);
            } else {
                assert(f[k] == s[s.len() - 1]);
            }
        }
        assert forall|x: int, y: int| 0 <= x < y < f.len() implies #[trigger] f[x].id
            != #[trigger] f[y].id by {
            if y < f1.len() {
            } else if pred(s.last()) && y == f.len() - 1 && f.len() == f1.len() + 1 {
                let j = choose|j: int| 0 <= j < s1.len() && #[trigger] f1[x] == s1[j];
                assert(s[j].id != s[s.len() - 1].id);
            }
        }
    }
}

/// Leave the connection: best-effort removal of the caller from the
/// participant set.
pub fn leave(st: &mut RendezvousState, id: u64)
    requires
        old(st).inv(),
    ensures
        final(st).inv(),
        final(st).current == old(st).current,
        final(st).staged == old(st).staged,
        final(st).round_number == old(st).round_number,
        final(st).commit_count == old(st).commit_count,
        final(st).participants@ == without_participant(old(st).participants@, id),
{
    proof {
        reveal(Seq::filter);
    }
    let mut kept: Vec<Participant> = Vec::new();
    let n = st.participants.len();
    let mut i: usize = 0;
    while i < n
        invariant
            n == st.participants@.len(),
            i <= n,
            *st == *old(st),
            forall|x: int, y: int|
                0 <= x < y < st.participants@.len() ==> #[trigger] st.participants@[x].id
                    != #[trigger] st.participants@[y].id,
            kept@ =~= without_participant(st.participants@.take(i as int), id),
        decreases n - i,
    {
        let p = st.participants[i];
        proof {
            reveal(Seq::filter);
            assert(st.participants@.take(i + 1).drop_last() =~= st.participants@.take(i as int));
            assert(st.participants@.take(i + 1).last() == st.participants@[i as int]);
        }
        if p.id != id {
            kept.push(p);
        }
        i = i + 1;
    }
    proof {
        assert(st.participants@.take(n as int) =~= st.participants@);
        lemma_filter_unique_ids(st.participants@, |p: Participant| p.id != id);
    }
    st.participants = kept;
}

} // verus!

verus! {

/// Drop every participant whose lease ran out before `now`, so that a
/// stalled commit can finish without them.
pub fn expire_leases(st: &mut RendezvousState, now: u64)
    requires
        old(st).inv(),
    ensures
        final(st).inv(),
        final(st).current == old(st).current,
        final(st).staged == old(st).staged,
        final(st).round_number == old(st).round_number,
        final(st).commit_count == old(st).commit_count,
        final(st).participants@ == live_participants(old(st).participants@, now),
{
    proof {
        reveal(Seq::filter);
    }
    let mut kept: Vec<Participant> = Vec::new();
    let n = st.participants.len();
    let mut i: usize = 0;
    while i < n
        invariant
            n == st.participants@.len(),
            i <= n,
            *st == *old(st),
            kept@ =~= live_participants(st.participants@.take(i as int), now),
        decreases n - i,
    {
        let p = st.participants[i];
        proof {
            reveal(Seq::filter);
            assert(st.participants@.take(i + 1).drop_last() =~= st.participants@.take(i as int));
            assert(st.participants@.take(i + 1).last() == st.participants@[i as int]);
        }
        if p.lease_expiry >= now {
            kept.push(p);
        }
        i = i + 1;
    }
    proof {
        assert(st.participants@.take(n as int) =~= st.participants@);
        lemma_filter_unique_ids(st.participants@, |p: Participant| p.lease_expiry >= now);
    }
    st.participants = kept;
}

/// One long-poll step of the default `notify` loop: pass a result through
/// when it carries news (a semantic transition, or a change in membership),
/// keep polling otherwise.
pub fn notify_step(res: NegotiateRendezvousResult, expected_participants: usize) -> (r: Option<
    NegotiateRendezvousResult,
>)
    ensures
        match res {
            NegotiateRendezvousResult::Matched { num_participants, round_number } => {
                if num_participants == expected_participants {
                    r is None
                } else {
                    r matches Option::Some(out) && out == res
                }
            },
            NegotiateRendezvousResult::NoMatch { .. } => {
                r matches Option::Some(out) && out == res
            },
        },
{
    match &res {
        NegotiateRendezvousResult::Matched { num_participants, round_number: _ } => {
            if *num_participants == expected_participants {
                Option::None
            } else {
                Option::Some(res)
            }
        },
        NegotiateRendezvousResult::NoMatch { .. } => Option::Some(res),
    }
}

} // verus!

verus! {

/// Does the stub nonce's every implementation choice stand unchanged in the
/// full nonce?
pub open spec fn stub_matches(s: Seq<OfferData>, stack: Map<u64, OfferData>) -> bool {
    forall|k: int|
        0 <= k < s.len() ==> stack.dom().contains((#[trigger] s[k]).capability_guid)
            && stack[s[k].capability_guid].impl_guid == s[k].impl_guid
}

/// The first full nonce some stub nonce's choices are contained in.
pub open spec fn find_stack_spec(
    stub: Seq<Seq<OfferData>>,
    stacks: Seq<Seq<OfferData>>,
) -> Option<Seq<OfferData>>
    decreases stacks.len(),
{
    if stacks.len() == 0 {
        Option::None
    } else if exists|j: int|
        0 <= j < stub.len() && stub_matches(#[trigger] stub[j], crate::nonce::offers_map(stacks.first())) {
        Option::Some(stacks.first())
    } else {
        find_stack_spec(stub, stacks.drop_first())
    }
}

/// Does some offer of `s` stand in `stack` with the same implementation?
fn stub_match(s: &StackNonce, stack: &StackNonce) -> (r: bool)
    requires
        stack.wf(),
    ensures
        r == stub_matches(s.dv(), stack@),
{
    let n = s.offers.len();
    let mut k: usize = 0;
    while k < n
        invariant
            n == s.offers@.len(),
            k <= n,
            stack.wf(),
            forall|x: int|
                0 <= x < k ==> stack@.dom().contains((#[trigger] s.dv()[x]).capability_guid)
                    && stack@[s.dv()[x].capability_guid].impl_guid == s.dv()[x].impl_guid,
        decreases n - k,
    {
        let o = &s.offers[k];
        proof {
            assert(s.dv()[k as int] == o.dv());
        }
        match stack.get(o.capability_guid) {
            Option::Some(full) => {
                if full.impl_guid != o.impl_guid {
                    proof {
                        assert(!stub_matches(s.dv(), stack@)) by {
                            assert(stack@[s.dv()[k as int].capability_guid].impl_guid
                                != s.dv()[k as int].impl_guid);
                        }
                    }
                    return false;
                }
            },
            Option::None => {
                proof {
                    assert(!stub_matches(s.dv(), stack@)) by {
                        assert(!stack@.dom().contains(s.dv()[k as int].capability_guid));
                    }
                }
                return false;
            },
        }
        k = k + 1;
    }
    true
}

/// Does any of the stub's nonces have all its choices in `candidate`?
fn any_stub_matches(stub: &Vec<StackNonce>, candidate: &StackNonce) -> (r: bool)
    requires
        candidate.wf(),
    ensures
        r == exists|j: int|
            0 <= j < stub@.len() && stub_matches((#[trigger] stub@[j]).dv(), candidate@),
{
    let m = stub.len();
    let mut j: usize = 0;
    while j < m
        invariant
            m == stub@.len(),
            j <= m,
            candidate.wf(),
            forall|x: int| 0 <= x < j ==> !stub_matches((#[trigger] stub@[x]).dv(), candidate@),
        decreases m - j,
    {
        if stub_match(&stub[j], candidate) {
            proof {
                assert(stub_matches(stub@[j as int].dv(), candidate@));
            }
            return true;
        }
        j = j + 1;
    }
    false
}

/// Resolve a sub-stack's offers (`stub`) to the first full nonce of
/// `stacks` that keeps one of the stub's implementation choices; nothing
/// when no full nonce does.
pub fn find_stack_from_stub(stub: &Vec<StackNonce>, stacks: &Vec<StackNonce>) -> (r: Option<
    StackNonce,
>)
    requires
        forall|i: int| 0 <= i < stacks@.len() ==> (#[trigger] stacks@[i]).wf(),
    ensures
        match r {
            Option::Some(st) => find_stack_spec(
                crate::stack::nonce_dvs(stub@),
                crate::stack::nonce_dvs(stacks@),
            ) == Option::Some(st.dv()) && st.wf(),
            Option::None => find_stack_spec(
                crate::stack::nonce_dvs(stub@),
                crate::stack::nonce_dvs(stacks@),
            ) is None,
        },
{
    let ghost sv = crate::stack::nonce_dvs(stub@);
    let ghost tv = crate::stack::nonce_dvs(stacks@);
    let n = stacks.len();
    let mut i: usize = 0;
    proof {
        assert(tv.skip(0) =~= tv);
    }
    while i < n
        invariant
            n == stacks@.len(),
            i <= n,
            sv == crate::stack::nonce_dvs(stub@),
            tv == crate::stack::nonce_dvs(stacks@),
            forall|k: int| 0 <= k < stacks@.len() ==> (#[trigger] stacks@[k]).wf(),
            find_stack_spec(sv, tv) == find_stack_spec(sv, tv.skip(i as int)),
        decreases n - i,
    {
        let found = any_stub_matches(stub, &stacks[i]);
        proof {
            assert(tv.skip(i as int).first() == tv[i as int]);
            assert(tv[i as int] == stacks@[i as int].dv());
            assert(crate::nonce::offers_map(tv[i as int]) == stacks@[i as int]@);
            if found {
                let j = choose|j: int|
                    0 <= j < stub@.len() && stub_matches(
                        (#[trigger] stub@[j]).dv(),
                        stacks@[i as int]@,
                    );
                assert(stub_matches(sv[j], crate::nonce::offers_map(tv.skip(i as int).first())));
            } else {
                assert forall|j: int| 0 <= j < sv.len() implies !stub_matches(
                    #[trigger] sv[j],
                    crate::nonce::offers_map(tv.skip(i as int).first()),
                ) by {
                    assert(sv[j] == stub@[j].dv());
                }
                assert(tv.skip(i as int).drop_first() =~= tv.skip(i as int + 1));
            }
        }
        if found {
            return Option::Some(stacks[i].clone());
        }
        i = i + 1;
    }
    proof {
        assert(tv.skip(n as int) =~= Seq::<Seq<OfferData>>::empty());
    }
    Option::None
}

} // verus!

verus! {

/// An application's lever over one upgradable choice: the offers of the
/// choice's two branches, either of which it can ask the connection to move
/// to.
#[derive(Debug)]
pub struct UpgradeHandle {
    /// The left branch's enumerated offers.
    pub left_offers: Vec<StackNonce>,
    /// The right branch's enumerated offers.
    pub right_offers: Vec<StackNonce>,
}

impl UpgradeHandle {
    /// Every stored offer mentions each guid at most once.
    pub open spec fn wf(&self) -> bool {
        &&& forall|i: int| 0 <= i < self.left_offers@.len() ==> (#[trigger] self.left_offers@[i]).wf()
        &&& forall|i: int|
            0 <= i < self.right_offers@.len() ==> (#[trigger] self.right_offers@[i]).wf()
    }

    /// The offers to propose when switching to the left branch.
    pub fn trigger_left(&self) -> (r: Vec<StackNonce>)
        ensures
            crate::stack::nonce_dvs(r@) == crate::stack::nonce_dvs(self.left_offers@),
    {
        crate::negotiate::clone_nonces(&self.left_offers)
    }

    /// The offers to propose when switching to the right branch.
    pub fn trigger_right(&self) -> (r: Vec<StackNonce>)
        ensures
            crate::stack::nonce_dvs(r@) == crate::stack::nonce_dvs(self.right_offers@),
    {
        crate::negotiate::clone_nonces(&self.right_offers)
    }

    /// Is a proposed full stack something this choice can live with: is it
    /// partially valid against one of the branches' offers?
    pub fn check_compatibility(&self, new_stack: &StackNonce) -> (r: bool)
        requires
            self.wf(),
            new_stack.wf(),
        ensures
            r == compatible_with_handle(
                new_stack@,
                crate::stack::nonce_dvs(self.left_offers@),
                crate::stack::nonce_dvs(self.right_offers@),
            ),
    {
        let a = any_partial_valid(new_stack, &self.left_offers);
        let b = any_partial_valid(new_stack, &self.right_offers);
        a || b
    }
}

/// Is `new_stack` partially valid against one of `options`?
pub open spec fn any_partial_valid_spec(
    new_stack: Map<u64, OfferData>,
    options: Seq<Seq<OfferData>>,
) -> bool {
    exists|j: int|
        0 <= j < options.len() && crate::compat::stack_pair_partial_valid_spec(
            new_stack,
            crate::nonce::offers_map(#[trigger] options[j]),
        )
}

/// A handle accepts a stack that is partially valid against either
/// branch's offers.
pub open spec fn compatible_with_handle(
    new_stack: Map<u64, OfferData>,
    left: Seq<Seq<OfferData>>,
    right: Seq<Seq<OfferData>>,
) -> bool {
    any_partial_valid_spec(new_stack, left) || any_partial_valid_spec(new_stack, right)
}

/// Decide `any_partial_valid_spec` by checking each option.
fn any_partial_valid(new_stack: &StackNonce, options: &Vec<StackNonce>) -> (r: bool)
    requires
        new_stack.wf(),
        forall|i: int| 0 <= i < options@.len() ==> (#[trigger] options@[i]).wf(),
    ensures
        r == any_partial_valid_spec(new_stack@, crate::stack::nonce_dvs(options@)),
{
    let ghost ov = crate::stack::nonce_dvs(options@);
    let n = options.len();
    let mut i: usize = 0;
    while i < n
        invariant
            n == options@.len(),
            i <= n,
            new_stack.wf(),
            ov == crate::stack::nonce_dvs(options@),
            forall|k: int| 0 <= k < options@.len() ==> (#[trigger] options@[k]).wf(),
            forall|k: int|
                0 <= k < i ==> !crate::compat::stack_pair_partial_valid_spec(
                    new_stack@,
                    crate::nonce::offers_map(#[trigger] ov[k]),
                ),
        decreases n - i,
    {
        if crate::compat::stack_pair_partial_valid(new_stack, &options[i]) {
            proof {
                assert(crate::compat::stack_pair_partial_valid_spec(
                    new_stack@,
                    crate::nonce::offers_map(ov[i as int]),
                ));
            }
            return true;
        }
        i = i + 1;
    }
    false
}

/// A choice whose resolution can change while the connection lives.
///
/// Building one from its two branches yields the `Select` node to compose
/// into the stack and the handle through which the application later asks
/// for the other branch.
#[derive(Debug)]
pub struct UpgradeSelect {
    /// The choice, ready to stand in a stack.
    pub inner: crate::stack::Stack,
}

impl UpgradeSelect {
    /// Wrap a choice between `left` and `right` so it can be upgraded
    /// later.
    pub fn from_select(
        left: crate::stack::Stack,
        right: crate::stack::Stack,
        prefer: crate::stack::Preference,
    ) -> (r: (UpgradeSelect, UpgradeHandle))
        requires
            left.wf(),
            right.wf(),
        ensures
            r.0.inner == crate::stack::Stack::Select(Box::new(left), Box::new(right), prefer),
            crate::stack::nonce_dvs(r.1.left_offers@) == left.offers_dv(),
            crate::stack::nonce_dvs(r.1.right_offers@) == right.offers_dv(),
            r.1.wf(),
    {
        let left_offers = left.offers();
        let right_offers = right.offers();
        proof {
            assert forall|i: int| 0 <= i < left_offers@.len() implies (
            #[trigger] left_offers@[i]).wf() by {
                crate::stack::lemma_offers_dv_wf(left, i);
            }
            assert forall|i: int| 0 <= i < right_offers@.len() implies (
            #[trigger] right_offers@[i]).wf() by {
                crate::stack::lemma_offers_dv_wf(right, i);
            }
        }
        let handle = UpgradeHandle { left_offers, right_offers };
        let this = UpgradeSelect {
            inner: crate::stack::Stack::Select(Box::new(left), Box::new(right), prefer),
        };
        (this, handle)
    }
}

} // verus!

verus! {

/// What the monitor should do with the backend after handling one
/// notification.
#[derive(Debug)]
pub enum NotifyAction {
    /// Nothing changed.
    NoChange,
    /// The connection's membership changed; tell the application.
    ParticipantsChanged(usize),
    /// The proposed entry is compatible: accept it with a staged update,
    /// then switch the connection to it.
    CommitStaged(RendezvousEntry),
    /// The proposed entry is incompatible: counter-propose the entry the
    /// connection is on, rolling the transition back.
    Rollback(RendezvousEntry),
}

/// Is a proposed stack acceptable to every upgradable choice of the local
/// stack?
pub open spec fn all_handles_compatible(n: Map<u64, OfferData>, handles: Seq<UpgradeHandle>) -> bool {
    forall|i: int|
        0 <= i < handles.len() ==> compatible_with_handle(
            n,
            crate::stack::nonce_dvs((#[trigger] handles[i]).left_offers@),
            crate::stack::nonce_dvs(handles[i].right_offers@),
        )
}

/// The monitor's view of one joined rendezvous address: the local stack's
/// offers, the semantics the connection is on, and the last membership and
/// round it saw.
#[derive(Debug)]
pub struct StackUpgradeHandle {
    /// The local stack's enumerated offers.
    pub offers: Vec<StackNonce>,
    /// The semantics the connection currently runs.
    pub curr_entry: RendezvousEntry,
    /// The number of participants last observed.
    pub curr_num_participants: usize,
    /// The round last observed; never decreases.
    pub curr_round: usize,
}

impl StackUpgradeHandle {
    /// Stored nonces mention each guid at most once.
    pub open spec fn wf(&self) -> bool {
        &&& forall|i: int| 0 <= i < self.offers@.len() ==> (#[trigger] self.offers@[i]).wf()
        &&& self.curr_entry.nonce.wf()
    }

    /// A monitor for a connection on `curr_entry`, observed with
    /// `curr_num_participants` members in round `curr_round`.
    pub fn new(
        offers: Vec<StackNonce>,
        curr_entry: RendezvousEntry,
        curr_num_participants: usize,
        curr_round: usize,
    ) -> (r: StackUpgradeHandle)
        ensures
            r.offers == offers,
            r.curr_entry == curr_entry,
            r.curr_num_participants == curr_num_participants,
            r.curr_round == curr_round,
    {
        StackUpgradeHandle { offers, curr_entry, curr_num_participants, curr_round }
    }

    /// Digest one rendezvous notification into the action to take.
    ///
    /// A report round below the last observed one is refused: the round
    /// this monitor has observed never decreases.  A compatible proposal is
    /// accepted (`CommitStaged`); an incompatible one is answered with a
    /// counter-proposal of the entry in force (`Rollback`), which the
    /// monitor stays on.
    pub fn handle_notify(
        &mut self,
        res: NegotiateRendezvousResult,
        handles: &Vec<UpgradeHandle>,
    ) -> (r: Result<NotifyAction, crate::NegotiateError>)
        requires
            old(self).wf(),
            forall|i: int| 0 <= i < handles@.len() ==> (#[trigger] handles@[i]).wf(),
            res matches NegotiateRendezvousResult::NoMatch { entry, .. } ==> entry.nonce.wf(),
        ensures
            final(self).wf(),
            final(self).offers == old(self).offers,
            final(self).curr_round >= old(self).curr_round,
            match res {
                NegotiateRendezvousResult::Matched { num_participants, round_number } => {
                    if round_number < old(self).curr_round {
                        r matches Result::Err(e) && e is RendezvousBackend && *final(self) == *old(
                            self,
                        )
                    } else if num_participants == old(self).curr_num_participants {
                        &&& r matches Result::Ok(a) && a is NoChange
                        &&& final(self).curr_round == round_number
                        &&& final(self).curr_entry == old(self).curr_entry
                        &&& final(self).curr_num_participants == old(self).curr_num_participants
                    } else {
                        r matches Result::Ok(a) && a matches NotifyAction::ParticipantsChanged(n)
                            && n == num_participants && *final(self) == *old(self)
                    }
                },
                NegotiateRendezvousResult::NoMatch { entry, num_participants, round_number } => {
                    if round_number < old(self).curr_round {
                        r matches Result::Err(e) && e is RendezvousBackend && *final(self) == *old(
                            self,
                        )
                    } else {
                        &&& final(self).curr_num_participants == num_participants
                        &&& final(self).curr_round == round_number
                        &&& final(self).curr_entry == old(self).curr_entry
                        &&& if all_handles_compatible(entry.nonce@, handles@) {
                            r matches Result::Ok(a) && a matches NotifyAction::CommitStaged(e)
                                && e.nonce.dv() == entry.nonce.dv()
                        } else {
                            r matches Result::Ok(a) && a matches NotifyAction::Rollback(e)
                                && e.nonce.dv() == old(self).curr_entry.nonce.dv()
                        }
                    }
                },
            },
    {
        match res {
            NegotiateRendezvousResult::Matched { num_participants, round_number } => {
                if round_number < self.curr_round {
                    Result::Err(crate::NegotiateError::RendezvousBackend)
                } else if num_participants == self.curr_num_participants {
                    self.curr_round = round_number;
                    Result::Ok(NotifyAction::NoChange)
                } else {
                    Result::Ok(NotifyAction::ParticipantsChanged(num_participants))
                }
            },
            NegotiateRendezvousResult::NoMatch { entry, num_participants, round_number } => {
                if round_number < self.curr_round {
                    Result::Err(crate::NegotiateError::RendezvousBackend)
                } else {
                    self.curr_num_participants = num_participants;
                    self.curr_round = round_number;
                    let mut compatible = true;
                    let n = handles.len();
                    let mut i: usize = 0;
                    while i < n
                        invariant
                            n == handles@.len(),
                            i <= n,
                            entry.nonce.wf(),
                            forall|k: int|
                                0 <= k < handles@.len() ==> (#[trigger] handles@[k]).wf(),
                            compatible ==> forall|k: int|
                                0 <= k < i ==> compatible_with_handle(
                                    entry.nonce@,
                                    crate::stack::nonce_dvs(
                                        (#[trigger] handles@[k]).left_offers@,
                                    ),
                                    crate::stack::nonce_dvs(handles@[k].right_offers@),
                                ),
                            !compatible ==> !all_handles_compatible(entry.nonce@, handles@),
                        decreases n - i,
                    {
                        if !handles[i].check_compatibility(&entry.nonce) {
                            compatible = false;
                        }
                        i = i + 1;
                    }
                    if compatible {
                        Result::Ok(NotifyAction::CommitStaged(entry))
                    } else {
                        Result::Ok(NotifyAction::Rollback(self.curr_entry.clone()))
                    }
                }
            },
        }
    }

    /// Resolve a triggered sub-stack change to the full nonce to propose:
    /// the first of the local stack's offers that keeps one of the wanted
    /// implementation choices.
    pub fn handle_trigger(&self, wanted: &Vec<StackNonce>) -> (r: Option<StackNonce>)
        requires
            self.wf(),
        ensures
            match r {
                Option::Some(st) => find_stack_spec(
                    crate::stack::nonce_dvs(wanted@),
                    crate::stack::nonce_dvs(self.offers@),
                ) == Option::Some(st.dv()) && st.wf(),
                Option::None => find_stack_spec(
                    crate::stack::nonce_dvs(wanted@),
                    crate::stack::nonce_dvs(self.offers@),
                ) is None,
            },
    {
        find_stack_from_stub(wanted, &self.offers)
    }

    /// Record a transition this participant has seen through to its commit:
    /// the connection is now on `entry` in `new_round`.  A round below the
    /// last observed one is refused.
    pub fn committed(&mut self, new_round: usize, entry: RendezvousEntry) -> (r: Result<
        (),
        crate::NegotiateError,
    >)
        requires
            old(self).wf(),
            entry.nonce.wf(),
        ensures
            final(self).wf(),
            final(self).offers == old(self).offers,
            final(self).curr_round >= old(self).curr_round,
            final(self).curr_num_participants == old(self).curr_num_participants,
            if new_round >= old(self).curr_round {
                &&& r is Ok
                &&& final(self).curr_round == new_round
                &&& final(self).curr_entry == entry
            } else {
                &&& r matches Result::Err(e) && e is RendezvousBackend
                &&& *final(self) == *old(self)
            },
    {
        if new_round < self.curr_round {
            return Result::Err(crate::NegotiateError::RendezvousBackend);
        }
        self.curr_round = new_round;
        self.curr_entry = entry;
        Result::Ok(())
    }
}

/// Join a rendezvous address: given the nonce this endpoint picked for
/// itself and the store's answer to registering it, adopt the semantics in
/// force, collapse the stack to them, and set up the monitor state.
///
/// An entry this stack cannot be collapsed to is a
/// `MonomorphizationFailed` error, never a panic.
pub fn negotiate_rendezvous(
    stack: &crate::stack::Stack,
    picked: StackNonce,
    res: NegotiateRendezvousResult,
) -> (r: Result<(crate::negotiate::ApplyResult, StackUpgradeHandle), crate::NegotiateError>)
    requires
        picked.wf(),
        res matches NegotiateRendezvousResult::NoMatch { entry, .. } ==> entry.nonce.wf(),
    ensures
        match r {
            Result::Ok((applied, handle)) => {
                &&& crate::stack::nonce_dvs(handle.offers@) == stack.offers_dv()
                &&& crate::negotiate::apply_spec(*stack, handle.curr_entry.nonce@)
                    == Option::Some(applied.model())
                &&& match res {
                    NegotiateRendezvousResult::Matched { num_participants, round_number } => {
                        &&& handle.curr_entry.nonce == picked
                        &&& handle.curr_num_participants == num_participants
                        &&& handle.curr_round == round_number
                    },
                    NegotiateRendezvousResult::NoMatch {
                        entry,
                        num_participants,
                        round_number,
                    } => {
                        &&& handle.curr_entry == entry
                        &&& handle.curr_num_participants == num_participants
                        &&& handle.curr_round == round_number
                    },
                }
            },
            Result::Err(e) => {
                &&& e is MonomorphizationFailed
                &&& match res {
                    NegotiateRendezvousResult::Matched { .. } => crate::negotiate::apply_spec(
                        *stack,
                        picked@,
                    ) is None,
                    NegotiateRendezvousResult::NoMatch { entry, .. } => crate::negotiate::apply_spec(
                        *stack,
                        entry.nonce@,
                    ) is None,
                }
            },
        },
{
    let (entry, num_participants, round_number) = match res {
        NegotiateRendezvousResult::Matched { num_participants, round_number } => {
            (RendezvousEntry { nonce: picked }, num_participants, round_number)
        },
        NegotiateRendezvousResult::NoMatch { entry, num_participants, round_number } => {
            (entry, num_participants, round_number)
        },
    };
    let applied = match crate::negotiate::apply(stack, &entry.nonce) {
        Result::Ok(a) => a,
        Result::Err(e) => {
            return Result::Err(e);
        },
    };
    let offers = stack.offers();
    let handle = StackUpgradeHandle {
        offers,
        curr_entry: entry,
        curr_num_participants: num_participants,
        curr_round: round_number,
    };
    Result::Ok((applied, handle))
}

} // verus!

verus! {

/// The runtime state of an upgradable connection: both branches of its
/// choice, kept for later re-application, and the concrete stack currently
/// carrying traffic.
///
/// The surrounding I/O shell holds the base transport and the channel that
/// delivers new nonces; when one arrives it calls `try_upgrade` and
/// rebuilds the carried connection from the new layers.
#[derive(Debug)]
pub struct UpgradeEitherConn {
    /// The left branch, as built.
    pub left: crate::stack::Stack,
    /// The right branch, as built.
    pub right: crate::stack::Stack,
    /// The choice's declared preference.
    pub prefer: crate::stack::Preference,
    /// The concrete stack currently in force.
    pub current: crate::negotiate::ApplyResult,
}

impl UpgradeEitherConn {
    /// Build the connection state by collapsing the choice against the
    /// nonce negotiation picked.
    pub fn new(
        left: crate::stack::Stack,
        right: crate::stack::Stack,
        prefer: crate::stack::Preference,
        picked: &StackNonce,
    ) -> (r: Result<UpgradeEitherConn, crate::NegotiateError>)
        requires
            picked.wf(),
        ensures
            match r {
                Result::Ok(c) => {
                    &&& c.left == left
                    &&& c.right == right
                    &&& c.prefer == prefer
                    &&& crate::negotiate::apply_spec(
                        crate::stack::Stack::Select(Box::new(left), Box::new(right), prefer),
                        picked@,
                    ) == Option::Some(c.current.model())
                },
                Result::Err(e) => e is MonomorphizationFailed && crate::negotiate::apply_spec(
                    crate::stack::Stack::Select(Box::new(left), Box::new(right), prefer),
                    picked@,
                ) is None,
            },
    {
        let current = match crate::negotiate::apply_select(&left, &right, prefer, picked) {
            Result::Ok(a) => a,
            Result::Err(e) => {
                return Result::Err(e);
            },
        };
        Result::Ok(UpgradeEitherConn { left, right, prefer, current })
    }

    /// Re-apply the choice to a newly arrived nonce and swap the concrete
    /// stack; on an unresolvable nonce the connection stays as it was.
    pub fn try_upgrade(&mut self, new_offers: &StackNonce) -> (r: Result<
        (),
        crate::NegotiateError,
    >)
        requires
            new_offers.wf(),
        ensures
            final(self).left == old(self).left,
            final(self).right == old(self).right,
            final(self).prefer == old(self).prefer,
            match r {
                Result::Ok(()) => crate::negotiate::apply_spec(
                    crate::stack::Stack::Select(
                        Box::new(old(self).left),
                        Box::new(old(self).right),
                        old(self).prefer,
                    ),
                    new_offers@,
                ) == Option::Some(final(self).current.model()),
                Result::Err(e) => {
                    &&& e is MonomorphizationFailed
                    &&& crate::negotiate::apply_spec(
                        crate::stack::Stack::Select(
                            Box::new(old(self).left),
                            Box::new(old(self).right),
                            old(self).prefer,
                        ),
                        new_offers@,
                    ) is None
                    &&& final(self).current == old(self).current
                },
            },
    {
        match crate::negotiate::apply_select(&self.left, &self.right, self.prefer, new_offers) {
            Result::Ok(a) => {
                self.current = a;
                Result::Ok(())
            },
            Result::Err(e) => Result::Err(e),
        }
    }
}

} // verus!
