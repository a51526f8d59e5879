//! The one-shot client/server negotiation handshake, and the per-peer cache
//! that makes server-side retries idempotent.

use vstd::prelude::*;
use crate::NegotiateError;
use crate::negotiate::{
    ApplyResult, apply, apply_spec, clone_nonces, monomorphize, monomorphize_spec, sat_add,
};
use crate::nonce::{OfferData, StackNonce, nonce_eq, offers_map};
use crate::stack::{Stack, lemma_offers_dv_wf, nonce_dvs};
use crate::wire::NegotiateMsg;

verus! {

/// The most simultaneous offers a server accepts in one `ClientOffer`.
pub const MAX_OFFER_LIST: usize = 256;

/// Reply detail code: the client offered too many nonces at once.
pub const REPLY_ERR_OFFER_LIST_TOO_LARGE: u8 = 1;

/// Reply detail code: no mutually valid stack exists.
pub const REPLY_ERR_NO_COMPATIBLE_STACK: u8 = 2;

/// One remembered handshake: which peer and handshake id it was for, what
/// was picked, and when the retry window closes.
#[derive(Debug)]
pub struct CacheEntry {
    pub peer: u64,
    pub id: u64,
    pub picked: StackNonce,
    pub expires_at: u64,
}

/// The server's per-peer handshake cache: a duplicate `ClientOffer` within
/// the retry window is answered with the nonce picked the first time.
#[derive(Debug)]
pub struct HandshakeCache {
    pub entries: Vec<CacheEntry>,
}

/// The first unexpired entry for this peer and handshake id.
pub open spec fn cache_find(s: Seq<CacheEntry>, peer: u64, id: u64, now: u64) -> Option<int>
    decreases s.len(),
{
    if s.len() == 0 {
        Option::None
    } else if s.first().peer == peer && s.first().id == id && s.first().expires_at >= now {
        Option::Some(0)
    } else {
        match cache_find(s.drop_first(), peer, id, now) {
            Option::Some(i) => Option::Some(i + 1),
            Option::None => Option::None,
        }
    }
}

/// A found entry is in range and matches.
pub proof fn lemma_cache_find(s: Seq<CacheEntry>, peer: u64, id: u64, now: u64)
    requires
        cache_find(s, peer, id, now) is Some,
    ensures
        0 <= cache_find(s, peer, id, now)->Some_0 < s.len(),
        s[cache_find(s, peer, id, now)->Some_0].peer == peer,
        s[cache_find(s, peer, id, now)->Some_0].id == id,
        s[cache_find(s, peer, id, now)->Some_0].expires_at >= now,
    decreases s.len(),
{
    if s.len() > 0 {
        if !(s.first().peer == peer && s.first().id == id && s.first().expires_at >= now) {
            lemma_cache_find(s.drop_first(), peer, id, now);
            let i = cache_find(s.drop_first(), peer, id, now)->Some_0;
            assert(s[i + 1] == s.drop_first()[i]);
        }
    }
}

impl HandshakeCache {
    /// Every remembered nonce mentions each guid at most once.
    pub open spec fn wf(&self) -> bool {
        forall|i: int| 0 <= i < self.entries@.len() ==> (#[trigger] self.entries@[i]).picked.wf()
    }

    /// An empty cache.
    pub fn new() -> (r: HandshakeCache)
        ensures
            r.entries@.len() == 0,
            r.wf(),
    {
        HandshakeCache { entries: Vec::new() }
    }

    /// The nonce remembered for this peer and handshake id, if its retry
    /// window is still open.
    pub fn lookup(&self, peer: u64, id: u64, now: u64) -> (r: Option<StackNonce>)
        requires
            self.wf(),
        ensures
            match r {
                Option::Some(n) => {
                    &&& cache_find(self.entries@, peer, id, now) is Some
                    &&& n.dv() == self.entries@[cache_find(self.entries@, peer, id, now)->Some_0
                    ].picked.dv()
                    &&& n.wf()
                },
                Option::None => cache_find(self.entries@, peer, id, now) is None,
            },
    {
        let ghost s = self.entries@;
        let n = self.entries.len();
        let mut i: usize = 0;
        proof {
            assert(s.skip(0) =~= s);
            if cache_find(s, peer, id, now) is Some {
                lemma_cache_find(s, peer, id, now);
            }
        }
        while i < n
            invariant
                n == self.entries@.len(),
                i <= n,
                s == self.entries@,
                self.wf(),
                cache_find(s, peer, id, now) matches Option::Some(x) ==> x >= i,
                (cache_find(s, peer, id, now) matches Option::Some(x) ==> cache_find(
                    s.skip(i as int),
                    peer,
                    id,
                    now,
                ) == Option::Some(x - i)),
                cache_find(s, peer, id, now) is None ==> cache_find(
                    s.skip(i as int),
                    peer,
                    id,
                    now,
                ) is None,
            decreases n - i,
        {
            let e = &self.entries[i];
            proof {
                assert(s.skip(i as int).first() == s[i as int]);
                assert(s.skip(i as int).drop_first() =~= s.skip(i as int + 1));
            }
            if e.peer == peer && e.id == id && e.expires_at >= now {
                proof {
                    assert(cache_find(s.skip(i as int), peer, id, now) == Option::Some(0int));
                }
                return Option::Some(e.picked.clone());
            }
            proof {
                if cache_find(s, peer, id, now) is Some {
                    let x = cache_find(s, peer, id, now)->Some_0;
                    assert(cache_find(s.skip(i as int), peer, id, now) == Option::Some(x - i));
                    assert(cache_find(s.skip(i as int + 1), peer, id, now) == Option::Some(
                        x - i - 1,
                    ));
                    lemma_cache_find(s.skip(i as int + 1), peer, id, now);
                }
            }
            i = i + 1;
        }
        proof {
            assert(s.skip(n as int) =~= Seq::<CacheEntry>::empty());
        }
        Option::None
    }

    /// Remember a picked nonce for this peer and handshake id until
    /// `expires_at`.
    pub fn insert(&mut self, peer: u64, id: u64, picked: StackNonce, expires_at: u64)
        requires
            old(self).wf(),
            picked.wf(),
        ensures
            final(self).wf(),
            final(self).entries@.len() == old(self).entries@.len() + 1,
            final(self).entries@.last().peer == peer,
            final(self).entries@.last().id == id,
            final(self).entries@.last().picked.dv() == picked.dv(),
            final(self).entries@.last().expires_at == expires_at,
            forall|i: int|
                0 <= i < old(self).entries@.len() ==> final(self).entries@[i] == #[trigger] old(
                    self,
                ).entries@[i],
    {
        self.entries.push(CacheEntry { peer, id, picked, expires_at });
    }
}

/// The client's opening message: every nonce its stack can represent,
/// under a fresh handshake id.
pub fn client_offer(stack: &Stack, id: u64) -> (r: NegotiateMsg)
    requires
        stack.wf(),
    ensures
        r matches NegotiateMsg::ClientOffer { id: rid, offers } && rid == id && nonce_dvs(offers@)
            == stack.offers_dv() && (forall|i: int|
            0 <= i < offers@.len() ==> (#[trigger] offers@[i]).wf()),
{
    let offers = stack.offers();
    proof {
        assert forall|i: int| 0 <= i < offers@.len() implies (#[trigger] offers@[i]).wf() by {
            lemma_offers_dv_wf(*stack, i);
        }
    }
    NegotiateMsg::ClientOffer { id, offers }
}

/// Is `n` one of the listed nonces, as a capability map?
pub open spec fn nonce_in(n: Map<u64, OfferData>, list: Seq<Seq<OfferData>>) -> bool {
    exists|i: int| 0 <= i < list.len() && offers_map(#[trigger] list[i]) == n
}

/// Does `n` denote the same capability map as one of the listed nonces?
fn nonce_in_list(n: &StackNonce, list: &Vec<StackNonce>) -> (r: bool)
    requires
        n.wf(),
        forall|i: int| 0 <= i < list@.len() ==> (#[trigger] list@[i]).wf(),
    ensures
        r == nonce_in(n@, nonce_dvs(list@)),
{
    let ghost lv = nonce_dvs(list@);
    let count = list.len();
    let mut i: usize = 0;
    while i < count
        invariant
            count == list@.len(),
            i <= count,
            n.wf(),
            lv == nonce_dvs(list@),
            forall|k: int| 0 <= k < list@.len() ==> (#[trigger] list@[k]).wf(),
            forall|k: int| 0 <= k < i ==> offers_map(#[trigger] lv[k]) != n@,
        decreases count - i,
    {
        if nonce_eq(&list[i], n) {
            proof {
                assert(offers_map(lv[i as int]) == n@);
            }
            return true;
        }
        i = i + 1;
    }
    false
}

/// Finish the handshake on the client: accept the server's pick only if it
/// answers this handshake and is one of the offers the client itself sent,
/// then collapse the stack to it.
///
/// A `ServerReplyErr` surfaces as `NoCompatibleStack`; any other message,
/// a wrong id, or a pick the client never offered is a `ProtocolError`.
pub fn client_complete(
    stack: &Stack,
    offers: &Vec<StackNonce>,
    id: u64,
    reply: NegotiateMsg,
) -> (r: Result<(StackNonce, ApplyResult), NegotiateError>)
    requires
        forall|i: int| 0 <= i < offers@.len() ==> (#[trigger] offers@[i]).wf(),
        reply matches NegotiateMsg::ServerNonce { picked, .. } ==> picked.wf(),
    ensures
        match reply {
            NegotiateMsg::ServerNonce { id: rid, picked } => {
                if rid == id && nonce_in(picked@, nonce_dvs(offers@)) {
                    match r {
                        Result::Ok((p, a)) => p.dv() == picked.dv() && apply_spec(*stack, picked@)
                            == Option::Some(a.model()),
                        Result::Err(e) => e is MonomorphizationFailed && apply_spec(
                            *stack,
                            picked@,
                        ) is None,
                    }
                } else {
                    r matches Result::Err(e) && e is ProtocolError
                }
            },
            NegotiateMsg::ServerReplyErr { detail } => {
                if detail@ == seq![REPLY_ERR_OFFER_LIST_TOO_LARGE] {
                    r matches Result::Err(e) && e is OfferListTooLarge
                } else {
                    r matches Result::Err(e) && e matches NegotiateError::NoCompatibleStack {
                        client_offers,
                        server_offers,
                    } && nonce_dvs(client_offers@) == nonce_dvs(offers@) && server_offers@.len()
                        == 0
                }
            },
            _ => r matches Result::Err(e) && e is ProtocolError,
        },
{
    match reply {
        NegotiateMsg::ServerNonce { id: rid, picked } => {
            if rid != id {
                return Result::Err(NegotiateError::ProtocolError);
            }
            if !nonce_in_list(&picked, offers) {
                return Result::Err(NegotiateError::ProtocolError);
            }
            match apply(stack, &picked) {
                Result::Ok(a) => Result::Ok((picked, a)),
                Result::Err(e) => Result::Err(e),
            }
        },
        NegotiateMsg::ServerReplyErr { detail } => {
            if detail.len() == 1 && detail[0] == REPLY_ERR_OFFER_LIST_TOO_LARGE {
                proof {
                    assert(detail@ =~= seq![REPLY_ERR_OFFER_LIST_TOO_LARGE]);
                }
                Result::Err(NegotiateError::OfferListTooLarge)
            } else {
                proof {
                    if detail@ == seq![REPLY_ERR_OFFER_LIST_TOO_LARGE] {
                        assert(detail@.len() == 1 && detail@[0]
                            == REPLY_ERR_OFFER_LIST_TOO_LARGE);
                    }
                }
                Result::Err(
                    NegotiateError::NoCompatibleStack {
                        client_offers: clone_nonces(offers),
                        server_offers: Vec::new(),
                    },
                )
            }
        },
        _ => Result::Err(NegotiateError::ProtocolError),
    }
}

/// What the server should do after handling one `ClientOffer`: the reply
/// to send, and the collapsed stack for the new connection when the
/// handshake was fresh and compatible.
pub struct ServerAnswer {
    /// The reply to send to the peer.
    pub reply: NegotiateMsg,
    /// The concrete stack for the connection, absent on replays and
    /// refusals.
    pub applied: Option<ApplyResult>,
}

/// Handle one handshake message on the server.
///
/// A duplicate of a remembered handshake is answered with the same pick.
/// An over-long offer list is refused with `REPLY_ERR_OFFER_LIST_TOO_LARGE`;
/// offers with no mutually valid stack are refused with
/// `REPLY_ERR_NO_COMPATIBLE_STACK`.  A fresh, compatible offer is answered
/// with the monomorphizer's pick, remembered until `now + ttl`.  Anything
/// but a `ClientOffer` is a `ProtocolError`: the connection is closed
/// without a reply.
pub fn server_handle(
    stack: &Stack,
    cache: &mut HandshakeCache,
    peer: u64,
    msg: NegotiateMsg,
    now: u64,
    ttl: u64,
) -> (r: Result<ServerAnswer, NegotiateError>)
    requires
        stack.wf(),
        old(cache).wf(),
        msg matches NegotiateMsg::ClientOffer { offers, .. } ==> forall|i: int|
            0 <= i < offers@.len() ==> (#[trigger] offers@[i]).wf(),
    ensures
        final(cache).wf(),
        match msg {
            NegotiateMsg::ClientOffer { id, offers } => {
                if offers@.len() > MAX_OFFER_LIST {
                    &&& r matches Result::Ok(ans)
                    &&& ans.reply matches NegotiateMsg::ServerReplyErr { detail } && detail@
                        == seq![REPLY_ERR_OFFER_LIST_TOO_LARGE]
                    &&& ans.applied is None
                    &&& *final(cache) == *old(cache)
                } else if cache_find(old(cache).entries@, peer, id, now) is Some {
                    &&& r matches Result::Ok(ans)
                    &&& ans.reply matches NegotiateMsg::ServerNonce { id: rid, picked } && rid
                        == id && picked.dv() == old(cache).entries@[cache_find(
                        old(cache).entries@,
                        peer,
                        id,
                        now,
                    )->Some_0].picked.dv()
                    &&& ans.applied is None
                    &&& *final(cache) == *old(cache)
                } else {
                    match monomorphize_spec(*stack, nonce_dvs(offers@)) {
                        Option::Some(picked_dv) => {
                            match r {
                                Result::Ok(ans) => {
                                    &&& ans.reply matches NegotiateMsg::ServerNonce {
                                        id: rid,
                                        picked,
                                    } && rid == id && picked.dv() == picked_dv
                                    &&& ans.applied matches Option::Some(a) && apply_spec(
                                        *stack,
                                        offers_map(picked_dv),
                                    ) == Option::Some(a.model())
                                    &&& final(cache).entries@.len() == old(
                                        cache,
                                    ).entries@.len() + 1
                                    &&& final(cache).entries@.last().peer == peer
                                    &&& final(cache).entries@.last().id == id
                                    &&& final(cache).entries@.last().picked.dv() == picked_dv
                                    &&& final(cache).entries@.last().expires_at
                                        == crate::negotiate::sat_add_spec(now, ttl)
                                },
                                Result::Err(e) => e is MonomorphizationFailed && apply_spec(
                                    *stack,
                                    offers_map(picked_dv),
                                ) is None,
                            }
                        },
                        Option::None => {
                            &&& r matches Result::Ok(ans)
                            &&& ans.reply matches NegotiateMsg::ServerReplyErr { detail }
                                && detail@ == seq![REPLY_ERR_NO_COMPATIBLE_STACK]
                            &&& ans.applied is None
                            &&& *final(cache) == *old(cache)
                        },
                    }
                }
            },
            _ => r matches Result::Err(e) && e is ProtocolError && *final(cache) == *old(cache),
        },
{
    match msg {
        NegotiateMsg::ClientOffer { id, offers } => {
            if offers.len() > MAX_OFFER_LIST {
                let mut detail: Vec<u8> = Vec::new();
                detail.push(REPLY_ERR_OFFER_LIST_TOO_LARGE);
                proof {
                    assert(detail@ =~= seq![REPLY_ERR_OFFER_LIST_TOO_LARGE]);
                }
                return Result::Ok(
                    ServerAnswer {
                        reply: NegotiateMsg::ServerReplyErr { detail },
                        applied: Option::None,
                    },
                );
            }
            match cache.lookup(peer, id, now) {
                Option::Some(picked) => Result::Ok(
                    ServerAnswer {
                        reply: NegotiateMsg::ServerNonce { id, picked },
                        applied: Option::None,
                    },
                ),
                Option::None => {
                    match monomorphize(stack, &offers) {
                        Result::Ok((picked, applied)) => {
                            cache.insert(peer, id, picked.clone(), sat_add(now, ttl));
                            Result::Ok(
                                ServerAnswer {
                                    reply: NegotiateMsg::ServerNonce { id, picked },
                                    applied: Option::Some(applied),
                                },
                            )
                        },
                        Result::Err(NegotiateError::NoCompatibleStack { .. }) => {
                            let mut detail: Vec<u8> = Vec::new();
                            detail.push(REPLY_ERR_NO_COMPATIBLE_STACK);
                            proof {
                                assert(detail@ =~= seq![REPLY_ERR_NO_COMPATIBLE_STACK]);
                            }
                            Result::Ok(
                                ServerAnswer {
                                    reply: NegotiateMsg::ServerReplyErr { detail },
                                    applied: Option::None,
                                },
                            )
                        },
                        Result::Err(e) => Result::Err(e),
                    }
                },
            }
        },
        _ => Result::Err(NegotiateError::ProtocolError),
    }
}

} // verus!
