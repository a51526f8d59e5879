//! The negotiation wire format: nonces are maps from capability guid to
//! offer records, messages are a tagged union, and every frame is prefixed
//! with a four-byte big-endian length.

use vstd::prelude::*;
use crate::nonce::{Offer, OfferData, StackNonce, offers_wf};
use crate::stack::nonce_dvs;

verus! {

/// A negotiation handshake message.
#[derive(Debug)]
pub enum NegotiateMsg {
    /// The client's opening: a handshake id and every nonce it offers.
    ClientOffer { id: u64, offers: Vec<StackNonce> },
    /// The server's answer: the concrete nonce it picked.
    ServerNonce { id: u64, picked: StackNonce },
    /// The server accepted; application data may flow.
    ServerReplyOk,
    /// The server refused, with a diagnostic detail.
    ServerReplyErr { detail: Vec<u8> },
    /// The client's confirmation of the picked nonce, for stateful layers.
    ClientNonce { id: u64, picked: StackNonce },
}

/// Mathematical image of a `NegotiateMsg`.
#[verifier::ext_equal]
pub enum NegotiateMsgData {
    ClientOffer { id: u64, offers: Seq<Seq<OfferData>> },
    ServerNonce { id: u64, picked: Seq<OfferData> },
    ServerReplyOk,
    ServerReplyErr { detail: Seq<u8> },
    ClientNonce { id: u64, picked: Seq<OfferData> },
}

impl NegotiateMsg {
    /// The message as a mathematical record.
    pub open spec fn dv(&self) -> NegotiateMsgData {
        match self {
            NegotiateMsg::ClientOffer { id, offers } => NegotiateMsgData::ClientOffer {
                id: *id,
                offers: nonce_dvs(offers@),
            },
            NegotiateMsg::ServerNonce { id, picked } => NegotiateMsgData::ServerNonce {
                id: *id,
                picked: picked.dv(),
            },
            NegotiateMsg::ServerReplyOk => NegotiateMsgData::ServerReplyOk,
            NegotiateMsg::ServerReplyErr { detail } => NegotiateMsgData::ServerReplyErr {
                detail: detail@,
            },
            NegotiateMsg::ClientNonce { id, picked } => NegotiateMsgData::ClientNonce {
                id: *id,
                picked: picked.dv(),
            },
        }
    }
}

/// A 32-bit value, big-endian.
pub open spec fn u32_bytes(v: u32) -> Seq<u8> {
    seq![(v >> 24) as u8, (v >> 16) as u8, (v >> 8) as u8, v as u8]
}

/// A 64-bit value, big-endian.
pub open spec fn u64_bytes(v: u64) -> Seq<u8> {
    seq![
        (v >> 56) as u8,
        (v >> 48) as u8,
        (v >> 40) as u8,
        (v >> 32) as u8,
        (v >> 24) as u8,
        (v >> 16) as u8,
        (v >> 8) as u8,
        v as u8,
    ]
}

/// Variant ids, one 32-bit value each.
pub open spec fn u32s_bytes(s: Seq<u32>) -> Seq<u8>
    decreases s.len(),
{
    if s.len() == 0 {
        Seq::empty()
    } else {
        u32_bytes(s.first()) + u32s_bytes(s.drop_first())
    }
}

/// A counted list of variant ids.
pub open spec fn vlist_bytes(s: Seq<u32>) -> Seq<u8> {
    u32_bytes(s.len() as u32) + u32s_bytes(s)
}

/// One offer record: capability guid, implementation guid, the sidedness
/// tag with the universe when one-sided, then the available variants.
pub open spec fn offer_bytes(o: OfferData) -> Seq<u8> {
    u64_bytes(o.capability_guid) + u64_bytes(o.impl_guid) + (match o.universe {
        Option::Some(u) => seq![1u8] + vlist_bytes(u),
        Option::None => seq![0u8],
    }) + vlist_bytes(o.available)
}

/// Offer records back to back.
pub open spec fn offers_bytes(s: Seq<OfferData>) -> Seq<u8>
    decreases s.len(),
{
    if s.len() == 0 {
        Seq::empty()
    } else {
        offer_bytes(s.first()) + offers_bytes(s.drop_first())
    }
}

/// A nonce: a counted list of offer records.
pub open spec fn nonce_bytes(s: Seq<OfferData>) -> Seq<u8> {
    u32_bytes(s.len() as u32) + offers_bytes(s)
}

/// Nonces back to back.
pub open spec fn nonces_bytes(s: Seq<Seq<OfferData>>) -> Seq<u8>
    decreases s.len(),
{
    if s.len() == 0 {
        Seq::empty()
    } else {
        nonce_bytes(s.first()) + nonces_bytes(s.drop_first())
    }
}

/// A whole message: a tag byte, then the variant's fields.
pub open spec fn msg_bytes(m: NegotiateMsgData) -> Seq<u8> {
    match m {
        NegotiateMsgData::ClientOffer { id, offers } => seq![0u8] + u64_bytes(id) + u32_bytes(
            offers.len() as u32,
        ) + nonces_bytes(offers),
        NegotiateMsgData::ServerNonce { id, picked } => seq![1u8] + u64_bytes(id) + nonce_bytes(
            picked,
        ),
        NegotiateMsgData::ServerReplyOk => seq![2u8],
        NegotiateMsgData::ServerReplyErr { detail } => seq![3u8] + u32_bytes(detail.len() as u32)
            + detail,
        NegotiateMsgData::ClientNonce { id, picked } => seq![4u8] + u64_bytes(id) + nonce_bytes(
            picked,
        ),
    }
}

/// Append a 32-bit value, big-endian.
fn push_u32(out: &mut Vec<u8>, v: u32)
    ensures
        final(out)@ == old(out)@ + u32_bytes(v),
{
    out.push((v >> 24) as u8);
    out.push((v >> 16) as u8);
    out.push((v >> 8) as u8);
    out.push(v as u8);
    proof {
        assert(out@ =~= old(out)@ + u32_bytes(v));
    }
}

/// Append a 64-bit value, big-endian.
fn push_u64(out: &mut Vec<u8>, v: u64)
    ensures
        final(out)@ == old(out)@ + u64_bytes(v),
{
    out.push((v >> 56) as u8);
    out.push((v >> 48) as u8);
    out.push((v >> 40) as u8);
    out.push((v >> 32) as u8);
    out.push((v >> 24) as u8);
    out.push((v >> 16) as u8);
    out.push((v >> 8) as u8);
    out.push(v as u8);
    proof {
        assert(out@ =~= old(out)@ + u64_bytes(v));
    }
}

/// `u32s_bytes` of one more element.
proof fn lemma_u32s_bytes_push(s: Seq<u32>, x: u32)
    ensures
        u32s_bytes(s.push(x)) =~= u32s_bytes(s) + u32_bytes(x),
    decreases s.len(),
{
    if s.len() == 0 {
        assert(s.push(x).first() == x);
        assert(s.push(x).drop_first() =~= Seq::<u32>::empty());
        assert(u32s_bytes(s.push(x).drop_first()) =~= Seq::empty());
    } else {
        assert(s.push(x).first() == s.first());
        assert(s.push(x).drop_first() =~= s.drop_first().push(x));
        lemma_u32s_bytes_push(s.drop_first(), x);
    }
}

/// Append a counted list of variant ids.
fn push_vlist(out: &mut Vec<u8>, s: &Vec<u32>)
    requires
        s@.len() <= u32::MAX,
    ensures
        final(out)@ == old(out)@ + vlist_bytes(s@),
{
    let n = s.len();
    push_u32(out, n as u32);
    let ghost base = out@;
    let mut i: usize = 0;
    while i < n
        invariant
            n == s@.len(),
            i <= n,
            out@ =~= base + u32s_bytes(s@.take(i as int)),
        decreases n - i,
    {
        push_u32(out, s[i]);
        proof {
            lemma_u32s_bytes_push(s@.take(i as int), s@[i as int]);
            assert(s@.take(i as int).push(s@[i as int]) =~= s@.take(i as int + 1));
        }
        i = i + 1;
    }
    proof {
        assert(s@.take(n as int) =~= s@);
        assert(out@ =~= old(out)@ + vlist_bytes(s@));
    }
}

/// Append one offer record.
fn push_offer(out: &mut Vec<u8>, o: &Offer)
    requires
        o.available@.len() <= u32::MAX,
        o.universe matches Option::Some(u) ==> u@.len() <= u32::MAX,
    ensures
        final(out)@ == old(out)@ + offer_bytes(o.dv()),
{
    push_u64(out, o.capability_guid);
    push_u64(out, o.impl_guid);
    match &o.universe {
        Option::Some(u) => {
            out.push(1u8);
            proof {
                assert(out@ =~= old(out)@ + u64_bytes(o.capability_guid) + u64_bytes(o.impl_guid)
                    + seq![1u8]);
            }
            push_vlist(out, u);
        },
        Option::None => {
            out.push(0u8);
            proof {
                assert(out@ =~= old(out)@ + u64_bytes(o.capability_guid) + u64_bytes(o.impl_guid)
                    + seq![0u8]);
            }
        },
    }
    push_vlist(out, &o.available);
    proof {
        assert(out@ =~= old(out)@ + offer_bytes(o.dv()));
    }
}

/// `offers_bytes` of one more offer.
proof fn lemma_offers_bytes_push(s: Seq<OfferData>, x: OfferData)
    ensures
        offers_bytes(s.push(x)) =~= offers_bytes(s) + offer_bytes(x),
    decreases s.len(),
{
    if s.len() == 0 {
        assert(s.push(x).first() == x);
        assert(s.push(x).drop_first() =~= Seq::<OfferData>::empty());
        assert(offers_bytes(s.push(x).drop_first()) =~= Seq::empty());
    } else {
        assert(s.push(x).first() == s.first());
        assert(s.push(x).drop_first() =~= s.drop_first().push(x));
        lemma_offers_bytes_push(s.drop_first(), x);
    }
}

/// Offer sizes the wire format can carry.
pub open spec fn offer_encodable(o: OfferData) -> bool {
    &&& o.available.len() <= u32::MAX
    &&& (o.universe matches Option::Some(u) ==> u.len() <= u32::MAX)
}

/// Nonce sizes the wire format can carry.
pub open spec fn nonce_encodable(s: Seq<OfferData>) -> bool {
    &&& s.len() <= u32::MAX
    &&& forall|i: int| 0 <= i < s.len() ==> offer_encodable(#[trigger] s[i])
}

/// Append one nonce.
fn push_nonce(out: &mut Vec<u8>, n: &StackNonce)
    requires
        nonce_encodable(n.dv()),
    ensures
        final(out)@ == old(out)@ + nonce_bytes(n.dv()),
{
    let count = n.offers.len();
    push_u32(out, count as u32);
    let ghost base = out@;
    let mut i: usize = 0;
    while i < count
        invariant
            count == n.offers@.len(),
            i <= count,
            nonce_encodable(n.dv()),
            out@ =~= base + offers_bytes(n.dv().take(i as int)),
        decreases count - i,
    {
        proof {
            assert(offer_encodable(n.dv()[i as int]));
            assert(n.dv()[i as int] == n.offers@[i as int].dv());
        }
        push_offer(out, &n.offers[i]);
        proof {
            lemma_offers_bytes_push(n.dv().take(i as int), n.dv()[i as int]);
            assert(n.dv().take(i as int).push(n.dv()[i as int]) =~= n.dv().take(i as int + 1));
        }
        i = i + 1;
    }
    proof {
        assert(n.dv().take(count as int) =~= n.dv());
        assert(out@ =~= old(out)@ + nonce_bytes(n.dv()));
    }
}

/// `nonces_bytes` of one more nonce.
proof fn lemma_nonces_bytes_push(s: Seq<Seq<OfferData>>, x: Seq<OfferData>)
    ensures
        nonces_bytes(s.push(x)) =~= nonces_bytes(s) + nonce_bytes(x),
    decreases s.len(),
{
    if s.len() == 0 {
        assert(s.push(x).first() == x);
        assert(s.push(x).drop_first() =~= Seq::<Seq<OfferData>>::empty());
        assert(nonces_bytes(s.push(x).drop_first()) =~= Seq::empty());
    } else {
        assert(s.push(x).first() == s.first());
        assert(s.push(x).drop_first() =~= s.drop_first().push(x));
        lemma_nonces_bytes_push(s.drop_first(), x);
    }
}

/// Message sizes the wire format can carry.
pub open spec fn msg_encodable(m: NegotiateMsgData) -> bool {
    match m {
        NegotiateMsgData::ClientOffer { id, offers } => {
            &&& offers.len() <= u32::MAX
            &&& forall|i: int| 0 <= i < offers.len() ==> nonce_encodable(#[trigger] offers[i])
        },
        NegotiateMsgData::ServerNonce { id, picked } => nonce_encodable(picked),
        NegotiateMsgData::ServerReplyOk => true,
        NegotiateMsgData::ServerReplyErr { detail } => detail.len() <= u32::MAX,
        NegotiateMsgData::ClientNonce { id, picked } => nonce_encodable(picked),
    }
}

/// Serialize a message; see `msg_bytes` for the layout.
pub fn encode_msg(m: &NegotiateMsg) -> (r: Vec<u8>)
    requires
        msg_encodable(m.dv()),
    ensures
        r@ == msg_bytes(m.dv()),
{
    let mut out: Vec<u8> = Vec::new();
    match m {
        NegotiateMsg::ClientOffer { id, offers } => {
            out.push(0u8);
            proof {
                assert(out@ =~= seq![0u8]);
            }
            push_u64(&mut out, *id);
            let count = offers.len();
            push_u32(&mut out, count as u32);
            proof {
                assert forall|k: int| 0 <= k < offers@.len() implies nonce_encodable(
                    (#[trigger] offers@[k]).dv(),
                ) by {
                    assert(nonce_encodable(nonce_dvs(offers@)[k]));
                }
            }
            let ghost base = out@;
            let mut i: usize = 0;
            while i < count
                invariant
                    count == offers@.len(),
                    i <= count,
                    forall|k: int|
                        0 <= k < offers@.len() ==> nonce_encodable(
                            (#[trigger] offers@[k]).dv(),
                        ),
                    out@ =~= base + nonces_bytes(nonce_dvs(offers@).take(i as int)),
                decreases count - i,
            {
                push_nonce(&mut out, &offers[i]);
                proof {
                    lemma_nonces_bytes_push(
                        nonce_dvs(offers@).take(i as int),
                        nonce_dvs(offers@)[i as int],
                    );
                    assert(nonce_dvs(offers@).take(i as int).push(nonce_dvs(offers@)[i as int])
                        =~= nonce_dvs(offers@).take(i as int + 1));
                }
                i = i + 1;
            }
            proof {
                assert(nonce_dvs(offers@).take(count as int) =~= nonce_dvs(offers@));
                assert(out@ =~= msg_bytes(m.dv()));
            }
        },
        NegotiateMsg::ServerNonce { id, picked } => {
            out.push(1u8);
            proof {
                assert(out@ =~= seq![1u8]);
            }
            push_u64(&mut out, *id);
            push_nonce(&mut out, picked);
            proof {
                assert(out@ =~= msg_bytes(m.dv()));
            }
        },
        NegotiateMsg::ServerReplyOk => {
            out.push(2u8);
            proof {
                assert(out@ =~= msg_bytes(m.dv()));
            }
        },
        NegotiateMsg::ServerReplyErr { detail } => {
            out.push(3u8);
            proof {
                assert(out@ =~= seq![3u8]);
            }
            let count = detail.len();
            push_u32(&mut out, count as u32);
            let ghost base = out@;
            let mut i: usize = 0;
            while i < count
                invariant
                    count == detail@.len(),
                    i <= count,
                    out@ =~= base + detail@.take(i as int),
                decreases count - i,
            {
                out.push(detail[i]);
                proof {
                    assert(detail@.take(i as int).push(detail@[i as int]) =~= detail@.take(
                        i as int + 1,
                    ));
                    assert(out@ =~= base + detail@.take(i as int + 1));
                }
                i = i + 1;
            }
            proof {
                assert(detail@.take(count as int) =~= detail@);
                assert(out@ =~= msg_bytes(m.dv()));
            }
        },
        NegotiateMsg::ClientNonce { id, picked } => {
            out.push(4u8);
            proof {
                assert(out@ =~= seq![4u8]);
            }
            push_u64(&mut out, *id);
            push_nonce(&mut out, picked);
            proof {
                assert(out@ =~= msg_bytes(m.dv()));
            }
        },
    }
    out
}

} // verus!

verus! {

/// The 32-bit value at `i`, big-endian.
pub open spec fn u32_of(b: Seq<u8>, i: int) -> u32 {
    ((b[i] as u32) << 24) | ((b[i + 1] as u32) << 16) | ((b[i + 2] as u32) << 8) | (b[i + 3] as u32)
}

/// The 64-bit value at `i`, big-endian.
pub open spec fn u64_of(b: Seq<u8>, i: int) -> u64 {
    ((b[i] as u64) << 56) | ((b[i + 1] as u64) << 48) | ((b[i + 2] as u64) << 40) | ((b[i + 3] as u64)
        << 32) | ((b[i + 4] as u64) << 24) | ((b[i + 5] as u64) << 16) | ((b[i + 6] as u64) << 8) | (
    b[i + 7] as u64)
}

/// Take one byte.
pub open spec fn parse_u8(b: Seq<u8>, i: int) -> Option<(u8, int)> {
    if 0 <= i && i + 1 <= b.len() {
        Option::Some((b[i], i + 1))
    } else {
        Option::None
    }
}

/// Take a 32-bit value, big-endian.
pub open spec fn parse_u32(b: Seq<u8>, i: int) -> Option<(u32, int)> {
    if 0 <= i && i + 4 <= b.len() {
        Option::Some((u32_of(b, i), i + 4))
    } else {
        Option::None
    }
}

/// Take a 64-bit value, big-endian.
pub open spec fn parse_u64(b: Seq<u8>, i: int) -> Option<(u64, int)> {
    if 0 <= i && i + 8 <= b.len() {
        Option::Some((u64_of(b, i), i + 8))
    } else {
        Option::None
    }
}

/// Take `count` 32-bit values.
pub open spec fn parse_u32s(b: Seq<u8>, i: int, count: int) -> Option<(Seq<u32>, int)>
    decreases count,
{
    if count <= 0 {
        Option::Some((Seq::empty(), i))
    } else {
        match parse_u32(b, i) {
            Option::Some((v, j)) => match parse_u32s(b, j, count - 1) {
                Option::Some((rest, k)) => Option::Some((seq![v] + rest, k)),
                Option::None => Option::None,
            },
            Option::None => Option::None,
        }
    }
}

/// Take a counted list of variant ids.
pub open spec fn parse_vlist(b: Seq<u8>, i: int) -> Option<(Seq<u32>, int)> {
    match parse_u32(b, i) {
        Option::Some((count, j)) => parse_u32s(b, j, count as int),
        Option::None => Option::None,
    }
}

/// Take one offer record.
pub open spec fn parse_offer(b: Seq<u8>, i: int) -> Option<(OfferData, int)> {
    match parse_u64(b, i) {
        Option::Some((capability_guid, j)) => match parse_u64(b, j) {
            Option::Some((impl_guid, k)) => match parse_u8(b, k) {
                Option::Some((tag, l)) => {
                    if tag == 1 {
                        match parse_vlist(b, l) {
                            Option::Some((universe, m)) => match parse_vlist(b, m) {
                                Option::Some((available, n)) => Option::Some(
                                    (
                                        OfferData {
                                            capability_guid,
                                            impl_guid,
                                            universe: Option::Some(universe),
                                            available,
                                        },
                                        n,
                                    ),
                                ),
                                Option::None => Option::None,
                            },
                            Option::None => Option::None,
                        }
                    } else if tag == 0 {
                        match parse_vlist(b, l) {
                            Option::Some((available, n)) => Option::Some(
                                (
                                    OfferData {
                                        capability_guid,
                                        impl_guid,
                                        universe: Option::None,
                                        available,
                                    },
                                    n,
                                ),
                            ),
                            Option::None => Option::None,
                        }
                    } else {
                        Option::None
                    }
                },
                Option::None => Option::None,
            },
            Option::None => Option::None,
        },
        Option::None => Option::None,
    }
}

/// Take `count` offer records.
pub open spec fn parse_offers(b: Seq<u8>, i: int, count: int) -> Option<(Seq<OfferData>, int)>
    decreases count,
{
    if count <= 0 {
        Option::Some((Seq::empty(), i))
    } else {
        match parse_offer(b, i) {
            Option::Some((o, j)) => match parse_offers(b, j, count - 1) {
                Option::Some((rest, k)) => Option::Some((seq![o] + rest, k)),
                Option::None => Option::None,
            },
            Option::None => Option::None,
        }
    }
}

/// Take one nonce: a counted list of offers mentioning each guid at most
/// once.
pub open spec fn parse_nonce(b: Seq<u8>, i: int) -> Option<(Seq<OfferData>, int)> {
    match parse_u32(b, i) {
        Option::Some((count, j)) => match parse_offers(b, j, count as int) {
            Option::Some((offers, k)) => {
                if offers_wf(offers) {
                    Option::Some((offers, k))
                } else {
                    Option::None
                }
            },
            Option::None => Option::None,
        },
        Option::None => Option::None,
    }
}

/// Take `count` nonces.
pub open spec fn parse_nonces(b: Seq<u8>, i: int, count: int) -> Option<(Seq<Seq<OfferData>>, int)>
    decreases count,
{
    if count <= 0 {
        Option::Some((Seq::empty(), i))
    } else {
        match parse_nonce(b, i) {
            Option::Some((n, j)) => match parse_nonces(b, j, count - 1) {
                Option::Some((rest, k)) => Option::Some((seq![n] + rest, k)),
                Option::None => Option::None,
            },
            Option::None => Option::None,
        }
    }
}

/// Take `count` raw bytes.
pub open spec fn parse_raw(b: Seq<u8>, i: int, count: int) -> Option<(Seq<u8>, int)> {
    if 0 <= i && i + count <= b.len() && count >= 0 {
        Option::Some((b.subrange(i, i + count), i + count))
    } else {
        Option::None
    }
}

/// Parse a whole message; trailing bytes are refused.
pub open spec fn parse_msg(b: Seq<u8>) -> Option<NegotiateMsgData> {
    match parse_u8(b, 0) {
        Option::Some((tag, i)) => {
            if tag == 0 {
                match parse_u64(b, i) {
                    Option::Some((id, j)) => match parse_u32(b, j) {
                        Option::Some((count, k)) => match parse_nonces(b, k, count as int) {
                            Option::Some((offers, l)) => {
                                if l == b.len() {
                                    Option::Some(NegotiateMsgData::ClientOffer { id, offers })
                                } else {
                                    Option::None
                                }
                            },
                            Option::None => Option::None,
                        },
                        Option::None => Option::None,
                    },
                    Option::None => Option::None,
                }
            } else if tag == 1 || tag == 4 {
                match parse_u64(b, i) {
                    Option::Some((id, j)) => match parse_nonce(b, j) {
                        Option::Some((picked, k)) => {
                            if k == b.len() {
                                if tag == 1 {
                                    Option::Some(NegotiateMsgData::ServerNonce { id, picked })
                                } else {
                                    Option::Some(NegotiateMsgData::ClientNonce { id, picked })
                                }
                            } else {
                                Option::None
                            }
                        },
                        Option::None => Option::None,
                    },
                    Option::None => Option::None,
                }
            } else if tag == 2 {
                if i == b.len() {
                    Option::Some(NegotiateMsgData::ServerReplyOk)
                } else {
                    Option::None
                }
            } else if tag == 3 {
                match parse_u32(b, i) {
                    Option::Some((count, j)) => match parse_raw(b, j, count as int) {
                        Option::Some((detail, k)) => {
                            if k == b.len() {
                                Option::Some(NegotiateMsgData::ServerReplyErr { detail })
                            } else {
                                Option::None
                            }
                        },
                        Option::None => Option::None,
                    },
                    Option::None => Option::None,
                }
            } else {
                Option::None
            }
        },
        Option::None => Option::None,
    }
}

} // verus!

verus! {

/// Read one byte.
fn read_u8(buf: &Vec<u8>, i: usize) -> (r: Option<(u8, usize)>)
    ensures
        match r {
            Option::Some((v, j)) => parse_u8(buf@, i as int) == Option::Some((v, j as int)),
            Option::None => parse_u8(buf@, i as int) is None,
        },
{
    if i < buf.len() {
        Option::Some((buf[i], i + 1))
    } else {
        Option::None
    }
}

/// Read a 32-bit value, big-endian.
fn read_u32(buf: &Vec<u8>, i: usize) -> (r: Option<(u32, usize)>)
    ensures
        match r {
            Option::Some((v, j)) => parse_u32(buf@, i as int) == Option::Some((v, j as int)),
            Option::None => parse_u32(buf@, i as int) is None,
        },
{
    if i < buf.len() && buf.len() - i >= 4 {
        let v = ((buf[i] as u32) << 24u32) | ((buf[i + 1] as u32) << 16u32) | ((buf[i + 2] as u32)
            << 8u32) | (buf[i + 3] as u32);
        Option::Some((v, i + 4))
    } else {
        Option::None
    }
}

/// Read a 64-bit value, big-endian.
fn read_u64(buf: &Vec<u8>, i: usize) -> (r: Option<(u64, usize)>)
    ensures
        match r {
            Option::Some((v, j)) => parse_u64(buf@, i as int) == Option::Some((v, j as int)),
            Option::None => parse_u64(buf@, i as int) is None,
        },
{
    if i < buf.len() && buf.len() - i >= 8 {
        let v = ((buf[i] as u64) << 56u64) | ((buf[i + 1] as u64) << 48u64) | ((buf[i + 2] as u64)
            << 40u64) | ((buf[i + 3] as u64) << 32u64) | ((buf[i + 4] as u64) << 24u64) | ((buf[i
            + 5] as u64) << 16u64) | ((buf[i + 6] as u64) << 8u64) | (buf[i + 7] as u64);
        Option::Some((v, i + 8))
    } else {
        Option::None
    }
}

/// Read `count` 32-bit values.
fn read_u32s(buf: &Vec<u8>, i: usize, count: u32) -> (r: Option<(Vec<u32>, usize)>)
    ensures
        match r {
            Option::Some((vs, j)) => parse_u32s(buf@, i as int, count as int) == Option::Some(
                (vs@, j as int),
            ),
            Option::None => parse_u32s(buf@, i as int, count as int) is None,
        },
    decreases count,
{
    if count == 0 {
        let empty: Vec<u32> = Vec::new();
        proof {
            assert(empty@ =~= Seq::<u32>::empty());
        }
        return Option::Some((empty, i));
    }
    match read_u32(buf, i) {
        Option::Some((v, j)) => {
            match read_u32s(buf, j, count - 1) {
                Option::Some((mut rest, k)) => {
                    let ghost rest0 = rest@;
                    rest.insert(0, v);
                    proof {
                        assert(rest@ =~= seq![v] + rest0);
                    }
                    Option::Some((rest, k))
                },
                Option::None => Option::None,
            }
        },
        Option::None => Option::None,
    }
}

/// Read a counted list of variant ids.
fn read_vlist(buf: &Vec<u8>, i: usize) -> (r: Option<(Vec<u32>, usize)>)
    ensures
        match r {
            Option::Some((vs, j)) => parse_vlist(buf@, i as int) == Option::Some((vs@, j as int)),
            Option::None => parse_vlist(buf@, i as int) is None,
        },
{
    match read_u32(buf, i) {
        Option::Some((count, j)) => read_u32s(buf, j, count),
        Option::None => Option::None,
    }
}

/// Read one offer record.
fn read_offer(buf: &Vec<u8>, i: usize) -> (r: Option<(Offer, usize)>)
    ensures
        match r {
            Option::Some((o, j)) => parse_offer(buf@, i as int) == Option::Some(
                (o.dv(), j as int),
            ),
            Option::None => parse_offer(buf@, i as int) is None,
        },
{
    let (capability_guid, i1) = match read_u64(buf, i) {
        Option::Some(x) => x,
        Option::None => {
            return Option::None;
        },
    };
    let (impl_guid, i2) = match read_u64(buf, i1) {
        Option::Some(x) => x,
        Option::None => {
            return Option::None;
        },
    };
    let (tag, i3) = match read_u8(buf, i2) {
        Option::Some(x) => x,
        Option::None => {
            return Option::None;
        },
    };
    if tag == 1 {
        let (universe, i4) = match read_vlist(buf, i3) {
            Option::Some(x) => x,
            Option::None => {
                return Option::None;
            },
        };
        let (available, i5) = match read_vlist(buf, i4) {
            Option::Some(x) => x,
            Option::None => {
                return Option::None;
            },
        };
        Option::Some(
            (
                Offer { capability_guid, impl_guid, universe: Option::Some(universe), available },
                i5,
            ),
        )
    } else if tag == 0 {
        let (available, i4) = match read_vlist(buf, i3) {
            Option::Some(x) => x,
            Option::None => {
                return Option::None;
            },
        };
        Option::Some(
            (Offer { capability_guid, impl_guid, universe: Option::None, available }, i4),
        )
    } else {
        Option::None
    }
}

/// Read `count` offer records.
fn read_offers(buf: &Vec<u8>, i: usize, count: u32) -> (r: Option<(Vec<Offer>, usize)>)
    ensures
        match r {
            Option::Some((os, j)) => parse_offers(buf@, i as int, count as int) == Option::Some(
                (os@.map_values(|o: Offer| o.dv()), j as int),
            ),
            Option::None => parse_offers(buf@, i as int, count as int) is None,
        },
    decreases count,
{
    if count == 0 {
        let empty: Vec<Offer> = Vec::new();
        proof {
            assert(empty@.map_values(|o: Offer| o.dv()) =~= Seq::<OfferData>::empty());
        }
        return Option::Some((empty, i));
    }
    match read_offer(buf, i) {
        Option::Some((o, j)) => {
            match read_offers(buf, j, count - 1) {
                Option::Some((mut rest, k)) => {
                    let ghost rest0 = rest@;
                    let ghost odv = o.dv();
                    rest.insert(0, o);
                    proof {
                        assert(rest@ =~= seq![rest@[0]] + rest0);
                        assert(rest@.map_values(|x: Offer| x.dv()) =~= seq![odv]
                            + rest0.map_values(|x: Offer| x.dv()));
                    }
                    Option::Some((rest, k))
                },
                Option::None => Option::None,
            }
        },
        Option::None => Option::None,
    }
}

/// Does the nonce mention each guid at most once?
fn offers_unique(v: &Vec<Offer>) -> (r: bool)
    ensures
        r == offers_wf(v@.map_values(|o: Offer| o.dv())),
{
    let n = v.len();
    let ghost dv = v@.map_values(|o: Offer| o.dv());
    let mut i: usize = 0;
    while i < n
        invariant
            n == v@.len(),
            dv == v@.map_values(|o: Offer| o.dv()),
            i <= n,
            forall|x: int, y: int|
                0 <= x < y < n && x < i ==> #[trigger] dv[x].capability_guid
                    != #[trigger] dv[y].capability_guid,
        decreases n - i,
    {
        let mut j: usize = i + 1;
        while j < n
            invariant
                n == v@.len(),
                dv == v@.map_values(|o: Offer| o.dv()),
                i < j <= n,
                forall|y: int| i < y < j ==> #[trigger] dv[y].capability_guid
                    != dv[i as int].capability_guid,
            decreases n - j,
        {
            if v[j].capability_guid == v[i].capability_guid {
                proof {
                    assert(dv[i as int].capability_guid == dv[j as int].capability_guid);
                }
                return false;
            }
            j = j + 1;
        }
        i = i + 1;
    }
    true
}

/// Read one nonce, refusing one that mentions a guid twice.
fn read_nonce(buf: &Vec<u8>, i: usize) -> (r: Option<(StackNonce, usize)>)
    ensures
        match r {
            Option::Some((n, j)) => parse_nonce(buf@, i as int) == Option::Some(
                (n.dv(), j as int),
            ) && n.wf(),
            Option::None => parse_nonce(buf@, i as int) is None,
        },
{
    let (count, i1) = match read_u32(buf, i) {
        Option::Some(x) => x,
        Option::None => {
            return Option::None;
        },
    };
    let (offers, i2) = match read_offers(buf, i1, count) {
        Option::Some(x) => x,
        Option::None => {
            return Option::None;
        },
    };
    if !offers_unique(&offers) {
        return Option::None;
    }
    Option::Some((StackNonce { offers }, i2))
}

/// Read `count` nonces.
fn read_nonces(buf: &Vec<u8>, i: usize, count: u32) -> (r: Option<(Vec<StackNonce>, usize)>)
    ensures
        match r {
            Option::Some((ns, j)) => parse_nonces(buf@, i as int, count as int) == Option::Some(
                (nonce_dvs(ns@), j as int),
            ) && (forall|k: int| 0 <= k < ns@.len() ==> (#[trigger] ns@[k]).wf()),
            Option::None => parse_nonces(buf@, i as int, count as int) is None,
        },
    decreases count,
{
    if count == 0 {
        let empty: Vec<StackNonce> = Vec::new();
        proof {
            assert(nonce_dvs(empty@) =~= Seq::<Seq<OfferData>>::empty());
        }
        return Option::Some((empty, i));
    }
    match read_nonce(buf, i) {
        Option::Some((n, j)) => {
            match read_nonces(buf, j, count - 1) {
                Option::Some((mut rest, k)) => {
                    let ghost rest0 = rest@;
                    let ghost ndv = n.dv();
                    rest.insert(0, n);
                    proof {
                        assert(nonce_dvs(rest@) =~= seq![ndv] + nonce_dvs(rest0));
                    }
                    Option::Some((rest, k))
                },
                Option::None => Option::None,
            }
        },
        Option::None => Option::None,
    }
}

/// Deserialize a message, exactly as `parse_msg` reads it: a malformed or
/// oversized buffer, an unknown tag, a nonce with a repeated guid, or
/// trailing bytes give nothing.
pub fn decode_msg(buf: &Vec<u8>) -> (r: Option<NegotiateMsg>)
    ensures
        match r {
            Option::Some(m) => {
                &&& parse_msg(buf@) == Option::Some(m.dv())
                &&& match m {
                    NegotiateMsg::ClientOffer { offers, .. } => forall|k: int|
                        0 <= k < offers@.len() ==> (#[trigger] offers@[k]).wf(),
                    NegotiateMsg::ServerNonce { picked, .. } => picked.wf(),
                    NegotiateMsg::ClientNonce { picked, .. } => picked.wf(),
                    _ => true,
                }
            },
            Option::None => parse_msg(buf@) is None,
        },
{
    let (tag, i) = match read_u8(buf, 0) {
        Option::Some(x) => x,
        Option::None => {
            return Option::None;
        },
    };
    if tag == 0 {
        let (id, j) = match read_u64(buf, i) {
            Option::Some(x) => x,
            Option::None => {
                return Option::None;
            },
        };
        let (count, k) = match read_u32(buf, j) {
            Option::Some(x) => x,
            Option::None => {
                return Option::None;
            },
        };
        let (offers, l) = match read_nonces(buf, k, count) {
            Option::Some(x) => x,
            Option::None => {
                return Option::None;
            },
        };
        if l == buf.len() {
            Option::Some(NegotiateMsg::ClientOffer { id, offers })
        } else {
            Option::None
        }
    } else if tag == 1 || tag == 4 {
        let (id, j) = match read_u64(buf, i) {
            Option::Some(x) => x,
            Option::None => {
                return Option::None;
            },
        };
        let (picked, k) = match read_nonce(buf, j) {
            Option::Some(x) => x,
            Option::None => {
                return Option::None;
            },
        };
        if k == buf.len() {
            if tag == 1 {
                Option::Some(NegotiateMsg::ServerNonce { id, picked })
            } else {
                Option::Some(NegotiateMsg::ClientNonce { id, picked })
            }
        } else {
            Option::None
        }
    } else if tag == 2 {
        if i == buf.len() {
            Option::Some(NegotiateMsg::ServerReplyOk)
        } else {
            Option::None
        }
    } else if tag == 3 {
        let (count, j) = match read_u32(buf, i) {
            Option::Some(x) => x,
            Option::None => {
                return Option::None;
            },
        };
        let total = buf.len();
        if count as usize <= total && j <= total - (count as usize) {
            let mut detail: Vec<u8> = Vec::new();
            let mut x: usize = 0;
            while x < count as usize
                invariant
                    total == buf@.len(),
                    j + count <= total,
                    x <= count,
                    detail@ =~= buf@.subrange(j as int, j + x),
                decreases count - x,
            {
                proof {
                    assert(j + x < buf@.len());
                }
                detail.push(buf[j + x]);
                x = x + 1;
                proof {
                    assert(detail@ =~= buf@.subrange(j as int, j + x));
                }
            }
            if j + count as usize == buf.len() {
                proof {
                    assert(parse_raw(buf@, j as int, count as int) == Option::Some(
                        (detail@, j + count as int),
                    ));
                }
                Option::Some(NegotiateMsg::ServerReplyErr { detail })
            } else {
                Option::None
            }
        } else {
            Option::None
        }
    } else {
        Option::None
    }
}

} // verus!

verus! {

/// Reading back four big-endian bytes gives the value written.
proof fn lemma_parse_u32_of(pre: Seq<u8>, v: u32, suf: Seq<u8>)
    ensures
        parse_u32(pre + u32_bytes(v) + suf, pre.len() as int) == Option::Some(
            (v, pre.len() as int + 4),
        ),
{
    let b = pre + u32_bytes(v) + suf;
    let i = pre.len() as int;
    assert(b[i] == (v >> 24) as u8);
    assert(b[i + 1] == (v >> 16) as u8);
    assert(b[i + 2] == (v >> 8) as u8);
    assert(b[i + 3] == v as u8);
    assert((((v >> 24) as u8 as u32) << 24) | (((v >> 16) as u8 as u32) << 16) | (((v
        >> 8) as u8 as u32) << 8) | (v as u8 as u32) == v) by (bit_vector);
}

/// Reading back eight big-endian bytes gives the value written.
proof fn lemma_parse_u64_of(pre: Seq<u8>, v: u64, suf: Seq<u8>)
    ensures
        parse_u64(pre + u64_bytes(v) + suf, pre.len() as int) == Option::Some(
            (v, pre.len() as int + 8),
        ),
{
    let b = pre + u64_bytes(v) + suf;
    let i = pre.len() as int;
    assert(b[i] == (v >> 56) as u8);
    assert(b[i + 1] == (v >> 48) as u8);
    assert(b[i + 2] == (v >> 40) as u8);
    assert(b[i + 3] == (v >> 32) as u8);
    assert(b[i + 4] == (v >> 24) as u8);
    assert(b[i + 5] == (v >> 16) as u8);
    assert(b[i + 6] == (v >> 8) as u8);
    assert(b[i + 7] == v as u8);
    assert((((v >> 56) as u8 as u64) << 56) | (((v >> 48) as u8 as u64) << 48) | (((v
        >> 40) as u8 as u64) << 40) | (((v >> 32) as u8 as u64) << 32) | (((v
        >> 24) as u8 as u64) << 24) | (((v >> 16) as u8 as u64) << 16) | (((v
        >> 8) as u8 as u64) << 8) | (v as u8 as u64) == v) by (bit_vector);
}

/// Reading back a run of 32-bit values gives the values written.
proof fn lemma_parse_u32s_of(pre: Seq<u8>, s: Seq<u32>, suf: Seq<u8>)
    ensures
        parse_u32s(pre + u32s_bytes(s) + suf, pre.len() as int, s.len() as int) == Option::Some(
            (s, pre.len() as int + u32s_bytes(s).len() as int),
        ),
    decreases s.len(),
{
    let b = pre + u32s_bytes(s) + suf;
    if s.len() == 0 {
        assert(b =~= pre + suf);
        assert(s =~= Seq::<u32>::empty());
    } else {
        let first_bytes = u32_bytes(s.first());
        let rest_bytes = u32s_bytes(s.drop_first());
        assert(u32s_bytes(s) == first_bytes + rest_bytes);
        assert(b =~= pre + first_bytes + (rest_bytes + suf));
        lemma_parse_u32_of(pre, s.first(), rest_bytes + suf);
        let pre2 = pre + first_bytes;
        assert(b =~= pre2 + rest_bytes + suf);
        lemma_parse_u32s_of(pre2, s.drop_first(), suf);
        assert(parse_u32(b, pre.len() as int) == Option::Some((s.first(), pre.len() as int + 4)));
        assert(pre2.len() == pre.len() + 4);
        assert(seq![s.first()] + s.drop_first() =~= s);
    }
}

/// Reading back a counted variant list gives the list written.
proof fn lemma_parse_vlist_of(pre: Seq<u8>, s: Seq<u32>, suf: Seq<u8>)
    requires
        s.len() <= u32::MAX,
    ensures
        parse_vlist(pre + vlist_bytes(s) + suf, pre.len() as int) == Option::Some(
            (s, pre.len() as int + vlist_bytes(s).len() as int),
        ),
{
    let count_bytes = u32_bytes(s.len() as u32);
    let body = u32s_bytes(s);
    assert(vlist_bytes(s) == count_bytes + body);
    let b = pre + vlist_bytes(s) + suf;
    assert(b =~= pre + count_bytes + (body + suf));
    lemma_parse_u32_of(pre, s.len() as u32, body + suf);
    let pre2 = pre + count_bytes;
    assert(b =~= pre2 + body + suf);
    lemma_parse_u32s_of(pre2, s, suf);
    assert((s.len() as u32) as int == s.len() as int);
}

/// Reading back one offer record gives the record written.
#[verifier::rlimit(100)]
#[verifier::spinoff_prover]
proof fn lemma_parse_offer_of(pre: Seq<u8>, o: OfferData, suf: Seq<u8>)
    requires
        offer_encodable(o),
    ensures
        parse_offer(pre + offer_bytes(o) + suf, pre.len() as int) == Option::Some(
            (o, pre.len() as int + offer_bytes(o).len() as int),
        ),
{
    let b = pre + offer_bytes(o) + suf;
    let cap_bytes = u64_bytes(o.capability_guid);
    let impl_bytes = u64_bytes(o.impl_guid);
    match o.universe {
        Option::Some(u) => {
            let mid = seq![1u8] + vlist_bytes(u);
            let avail = vlist_bytes(o.available);
            assert(offer_bytes(o) == cap_bytes + impl_bytes + mid + avail);
            assert(b =~= pre + cap_bytes + (impl_bytes + mid + avail + suf));
            lemma_parse_u64_of(pre, o.capability_guid, impl_bytes + mid + avail + suf);
            let pre2 = pre + cap_bytes;
            assert(b =~= pre2 + impl_bytes + (mid + avail + suf));
            lemma_parse_u64_of(pre2, o.impl_guid, mid + avail + suf);
            let pre3 = pre2 + impl_bytes;
            assert(b[pre3.len() as int] == 1u8);
            assert(parse_u8(b, pre3.len() as int) == Option::Some((1u8, pre3.len() as int + 1)));
            let pre4 = pre3 + seq![1u8];
            assert(b =~= pre4 + vlist_bytes(u) + (avail + suf));
            lemma_parse_vlist_of(pre4, u, avail + suf);
            let pre5 = pre4 + vlist_bytes(u);
            assert(b =~= pre5 + avail + suf);
            lemma_parse_vlist_of(pre5, o.available, suf);
            assert(pre5 + vlist_bytes(o.available) =~= pre + offer_bytes(o));
        },
        Option::None => {
            let avail = vlist_bytes(o.available);
            assert(offer_bytes(o) == cap_bytes + impl_bytes + seq![0u8] + avail);
            assert(b =~= pre + cap_bytes + (impl_bytes + seq![0u8] + avail + suf));
            lemma_parse_u64_of(pre, o.capability_guid, impl_bytes + seq![0u8] + avail + suf);
            let pre2 = pre + cap_bytes;
            assert(b =~= pre2 + impl_bytes + (seq![0u8] + avail + suf));
            lemma_parse_u64_of(pre2, o.impl_guid, seq![0u8] + avail + suf);
            let pre3 = pre2 + impl_bytes;
            assert(b[pre3.len() as int] == 0u8);
            assert(parse_u8(b, pre3.len() as int) == Option::Some((0u8, pre3.len() as int + 1)));
            let pre4 = pre3 + seq![0u8];
            assert(b =~= pre4 + avail + suf);
            lemma_parse_vlist_of(pre4, o.available, suf);
            assert(pre4 + vlist_bytes(o.available) =~= pre + offer_bytes(o));
        },
    }
}

/// Reading back a run of offer records gives the records written.
#[verifier::rlimit(100)]
#[verifier::spinoff_prover]
proof fn lemma_parse_offers_of(pre: Seq<u8>, s: Seq<OfferData>, suf: Seq<u8>)
    requires
        forall|i: int| 0 <= i < s.len() ==> offer_encodable(#[trigger] s[i]),
    ensures
        parse_offers(pre + offers_bytes(s) + suf, pre.len() as int, s.len() as int)
            == Option::Some((s, pre.len() as int + offers_bytes(s).len() as int)),
    decreases s.len(),
{
    let b = pre + offers_bytes(s) + suf;
    if s.len() == 0 {
        assert(b =~= pre + suf);
        assert(s =~= Seq::<OfferData>::empty());
    } else {
        let first_bytes = offer_bytes(s.first());
        let rest_bytes = offers_bytes(s.drop_first());
        assert(offers_bytes(s) == first_bytes + rest_bytes);
        assert(b =~= pre + first_bytes + (rest_bytes + suf));
        lemma_parse_offer_of(pre, s.first(), rest_bytes + suf);
        let pre2 = pre + first_bytes;
        assert(b =~= pre2 + rest_bytes + suf);
        assert(forall|i: int|
            0 <= i < s.drop_first().len() ==> offer_encodable(#[trigger] s.drop_first()[i]));
        lemma_parse_offers_of(pre2, s.drop_first(), suf);
        assert(seq![s.first()] + s.drop_first() =~= s);
    }
}

/// Reading back one nonce gives the nonce written, provided it is
/// well-formed.
#[verifier::rlimit(100)]
#[verifier::spinoff_prover]
proof fn lemma_parse_nonce_of(pre: Seq<u8>, s: Seq<OfferData>, suf: Seq<u8>)
    requires
        nonce_encodable(s),
        offers_wf(s),
    ensures
        parse_nonce(pre + nonce_bytes(s) + suf, pre.len() as int) == Option::Some(
            (s, pre.len() as int + nonce_bytes(s).len() as int),
        ),
{
    let count_bytes = u32_bytes(s.len() as u32);
    let body = offers_bytes(s);
    assert(nonce_bytes(s) == count_bytes + body);
    let b = pre + nonce_bytes(s) + suf;
    assert(b =~= pre + count_bytes + (body + suf));
    lemma_parse_u32_of(pre, s.len() as u32, body + suf);
    let pre2 = pre + count_bytes;
    assert(b =~= pre2 + body + suf);
    lemma_parse_offers_of(pre2, s, suf);
    assert((s.len() as u32) as int == s.len() as int);
}

/// Reading back a run of nonces gives the nonces written.
#[verifier::rlimit(100)]
#[verifier::spinoff_prover]
proof fn lemma_parse_nonces_of(pre: Seq<u8>, s: Seq<Seq<OfferData>>, suf: Seq<u8>)
    requires
        forall|i: int| 0 <= i < s.len() ==> nonce_encodable(#[trigger] s[i]),
        forall|i: int| 0 <= i < s.len() ==> offers_wf(#[trigger] s[i]),
    ensures
        parse_nonces(pre + nonces_bytes(s) + suf, pre.len() as int, s.len() as int)
            == Option::Some((s, pre.len() as int + nonces_bytes(s).len() as int)),
    decreases s.len(),
{
    let b = pre + nonces_bytes(s) + suf;
    if s.len() == 0 {
        assert(b =~= pre + suf);
        assert(s =~= Seq::<Seq<OfferData>>::empty());
    } else {
        let first_bytes = nonce_bytes(s.first());
        let rest_bytes = nonces_bytes(s.drop_first());
        assert(nonces_bytes(s) == first_bytes + rest_bytes);
        assert(b =~= pre + first_bytes + (rest_bytes + suf));
        lemma_parse_nonce_of(pre, s.first(), rest_bytes + suf);
        let pre2 = pre + first_bytes;
        assert(b =~= pre2 + rest_bytes + suf);
        lemma_parse_nonces_of(pre2, s.drop_first(), suf);
        assert(seq![s.first()] + s.drop_first() =~= s);
    }
}

/// Every nonce of the message mentions each guid at most once.
pub open spec fn msg_wf(m: NegotiateMsgData) -> bool {
    match m {
        NegotiateMsgData::ClientOffer { offers, .. } => forall|i: int|
            0 <= i < offers.len() ==> offers_wf(#[trigger] offers[i]),
        NegotiateMsgData::ServerNonce { picked, .. } => offers_wf(picked),
        NegotiateMsgData::ClientNonce { picked, .. } => offers_wf(picked),
        _ => true,
    }
}

/// The wire format is lossless: a well-formed, encodable message parses
/// back from its own bytes, exactly.  Through the contracts of
/// `encode_msg` and `decode_msg`, decoding an encoded message always gives
/// the message back.
#[verifier::rlimit(100)]
#[verifier::spinoff_prover]
proof fn lemma_msg_round_trip_client_offer(id: u64, offers: Seq<Seq<OfferData>>)
    requires
        msg_encodable(NegotiateMsgData::ClientOffer { id, offers }),
        msg_wf(NegotiateMsgData::ClientOffer { id, offers }),
    ensures
        parse_msg(msg_bytes(NegotiateMsgData::ClientOffer { id, offers })) == Option::Some(
            NegotiateMsgData::ClientOffer { id, offers },
        ),
{
    let m = NegotiateMsgData::ClientOffer { id, offers };
    let b = msg_bytes(m);
    let tag = seq![0u8];
    let id_bytes = u64_bytes(id);
    let count_bytes = u32_bytes(offers.len() as u32);
    let body = nonces_bytes(offers);
    assert(b == tag + id_bytes + count_bytes + body);
    assert(b[0] == 0u8);
    assert(parse_u8(b, 0) == Option::Some((0u8, 1int)));
    assert(b =~= tag + id_bytes + (count_bytes + body));
    lemma_parse_u64_of(tag, id, count_bytes + body);
    let pre2 = tag + id_bytes;
    assert(b =~= pre2 + count_bytes + body);
    lemma_parse_u32_of(pre2, offers.len() as u32, body);
    let pre3 = pre2 + count_bytes;
    assert(b =~= pre3 + body + Seq::<u8>::empty());
    lemma_parse_nonces_of(pre3, offers, Seq::empty());
    assert((offers.len() as u32) as int == offers.len() as int);
    assert(pre3.len() + body.len() == b.len());
}

#[verifier::rlimit(100)]
#[verifier::spinoff_prover]
proof fn lemma_msg_round_trip_nonce(m: NegotiateMsgData)
    requires
        msg_encodable(m),
        msg_wf(m),
        m is ServerNonce || m is ClientNonce,
    ensures
        parse_msg(msg_bytes(m)) == Option::Some(m),
{
    let b = msg_bytes(m);
    match m {
        NegotiateMsgData::ServerNonce { id, picked } => {
            let tag = seq![1u8];
            let id_bytes = u64_bytes(id);
            let body = nonce_bytes(picked);
            assert(b == tag + id_bytes + body);
            assert(b[0] == 1u8);
            assert(parse_u8(b, 0) == Option::Some((1u8, 1int)));
            lemma_parse_u64_of(tag, id, body);
            let pre2 = tag + id_bytes;
            assert(b =~= pre2 + body + Seq::<u8>::empty());
            lemma_parse_nonce_of(pre2, picked, Seq::empty());
            assert(pre2.len() + body.len() == b.len());
        },
        NegotiateMsgData::ClientNonce { id, picked } => {
            let tag = seq![4u8];
            let id_bytes = u64_bytes(id);
            let body = nonce_bytes(picked);
            assert(b == tag + id_bytes + body);
            assert(b[0] == 4u8);
            assert(parse_u8(b, 0) == Option::Some((4u8, 1int)));
            lemma_parse_u64_of(tag, id, body);
            let pre2 = tag + id_bytes;
            assert(b =~= pre2 + body + Seq::<u8>::empty());
            lemma_parse_nonce_of(pre2, picked, Seq::empty());
            assert(pre2.len() + body.len() == b.len());
        },
        _ => {},
    }
}

/// The wire format is lossless: a well-formed, encodable message parses
/// back from its own bytes, exactly.  Through the contracts of
/// `encode_msg` and `decode_msg`, decoding an encoded message always gives
/// the message back.
pub proof fn lemma_msg_round_trip(m: NegotiateMsgData)
    requires
        msg_encodable(m),
        msg_wf(m),
    ensures
        parse_msg(msg_bytes(m)) == Option::Some(m),
{
    let b = msg_bytes(m);
    match m {
        NegotiateMsgData::ClientOffer { id, offers } => {
            lemma_msg_round_trip_client_offer(id, offers);
        },
        NegotiateMsgData::ServerNonce { .. } => {
            lemma_msg_round_trip_nonce(m);
        },
        NegotiateMsgData::ServerReplyOk => {
            assert(b =~= seq![2u8]);
            assert(b[0] == 2u8);
        },
        NegotiateMsgData::ServerReplyErr { detail } => {
            let tag = seq![3u8];
            let count_bytes = u32_bytes(detail.len() as u32);
            assert(b == tag + count_bytes + detail);
            assert(b[0] == 3u8);
            assert(parse_u8(b, 0) == Option::Some((3u8, 1int)));
            assert(b =~= tag + count_bytes + detail);
            lemma_parse_u32_of(tag, detail.len() as u32, detail);
            let pre2 = tag + count_bytes;
            assert((detail.len() as u32) as int == detail.len() as int);
            assert(b.subrange(pre2.len() as int, pre2.len() as int + detail.len() as int)
                =~= detail);
        },
        NegotiateMsgData::ClientNonce { .. } => {
            lemma_msg_round_trip_nonce(m);
        },
    }
}

} // verus!

verus! {

/// A frame on the raw transport: the payload behind a four-byte big-endian
/// length.
pub open spec fn frame_bytes(payload: Seq<u8>) -> Seq<u8> {
    u32_bytes(payload.len() as u32) + payload
}

/// Prefix a payload with its length, framing it for the raw transport.
pub fn frame_msg(payload: &Vec<u8>) -> (r: Vec<u8>)
    requires
        payload@.len() <= u32::MAX,
    ensures
        r@ == frame_bytes(payload@),
{
    let mut out: Vec<u8> = Vec::new();
    push_u32(&mut out, payload.len() as u32);
    let ghost base = out@;
    let n = payload.len();
    let mut i: usize = 0;
    while i < n
        invariant
            n == payload@.len(),
            i <= n,
            out@ =~= base + payload@.take(i as int),
        decreases n - i,
    {
        out.push(payload[i]);
        i = i + 1;
        proof {
            assert(out@ =~= base + payload@.take(i as int));
        }
    }
    proof {
        assert(payload@.take(n as int) =~= payload@);
        assert(out@ =~= frame_bytes(payload@));
    }
    out
}

/// Take one frame off the front of a buffer: the payload, and how many
/// bytes the frame occupied.  Nothing until the whole frame has arrived.
pub fn parse_frame(buf: &Vec<u8>) -> (r: Option<(Vec<u8>, usize)>)
    ensures
        match r {
            Option::Some((payload, consumed)) => {
                &&& consumed == 4 + payload@.len()
                &&& consumed <= buf@.len()
                &&& buf@.subrange(0, consumed as int) == frame_bytes(payload@)
            },
            Option::None => buf@.len() < 4 || buf@.len() < 4 + u32_of(buf@, 0),
        },
{
    let (len, start) = match read_u32(buf, 0) {
        Option::Some(x) => x,
        Option::None => {
            return Option::None;
        },
    };
    let total = buf.len();
    if (len as usize) > total - 4 {
        return Option::None;
    }
    let mut payload: Vec<u8> = Vec::new();
    let mut i: usize = 0;
    while i < len as usize
        invariant
            start == 4,
            4 + len <= total,
            total == buf@.len(),
            i <= len,
            payload@ =~= buf@.subrange(4, 4 + i),
        decreases len - i,
    {
        proof {
            assert(4 + i < buf@.len());
        }
        payload.push(buf[4 + i]);
        i = i + 1;
        proof {
            assert(payload@ =~= buf@.subrange(4, 4 + i));
        }
    }
    proof {
        let consumed = 4 + len as int;
        assert(buf@.subrange(0, consumed).subrange(0, 4) =~= u32_bytes(u32_of(buf@, 0)))
            by {
            lemma_u32_bytes_of(buf@, 0);
        }
        assert(buf@.subrange(0, consumed) =~= u32_bytes(len) + payload@);
    }
    Option::Some((payload, 4 + len as usize))
}

/// The four bytes at `i` re-encode to themselves.
proof fn lemma_u32_bytes_of(b: Seq<u8>, i: int)
    requires
        0 <= i,
        i + 4 <= b.len(),
    ensures
        u32_bytes(u32_of(b, i)) =~= b.subrange(i, i + 4),
{
    let v = u32_of(b, i);
    let b0 = b[i];
    let b1 = b[i + 1];
    let b2 = b[i + 2];
    let b3 = b[i + 3];
    assert(v == ((b0 as u32) << 24) | ((b1 as u32) << 16) | ((b2 as u32) << 8) | (b3 as u32));
    assert({
        let v2 = ((b0 as u32) << 24) | ((b1 as u32) << 16) | ((b2 as u32) << 8) | (b3 as u32);
        (v2 >> 24) as u8 == b0 && (v2 >> 16) as u8 == b1 && (v2 >> 8) as u8 == b2 && v2 as u8
            == b3
    }) by (bit_vector);
}

} // verus!
