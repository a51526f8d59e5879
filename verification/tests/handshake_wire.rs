use bertha::handshake::{
    client_complete, client_offer, server_handle, HandshakeCache, REPLY_ERR_NO_COMPATIBLE_STACK,
    REPLY_ERR_OFFER_LIST_TOO_LARGE,
};
use bertha::nonce::{nonce_eq, Offer, StackNonce};
use bertha::stack::{Layer, Stack};
use bertha::wire::{decode_msg, encode_msg, frame_msg, parse_frame, NegotiateMsg};
use bertha::NegotiateError;

const SERIALIZE_CAP: u64 = 0x51;
const SERIALIZE_IMPL: u64 = 0x52;
const BASE_CAP: u64 = 0xe0;
const BASE_IMPL: u64 = 0xe1;
const RELIABLE_CAP: u64 = 0x71;
const RELIABLE_IMPL: u64 = 0x72;
const BEST_EFFORT_IMPL: u64 = 0x73;

fn leaf(cap: u64, imp: u64) -> Stack {
    Stack::leaf(Layer {
        capability_guid: cap,
        impl_guid: imp,
        universe: None,
        available: vec![],
        priority: 0,
    })
}

#[test]
fn wire_round_trip_client_offer() {
    let stack = Stack::sequence(leaf(SERIALIZE_CAP, SERIALIZE_IMPL), leaf(BASE_CAP, BASE_IMPL));
    let msg = client_offer(&stack, 7);
    let bytes = encode_msg(&msg);
    let back = decode_msg(&bytes).expect("own encoding decodes");
    match (msg, back) {
        (
            NegotiateMsg::ClientOffer { id: id_a, offers: offers_a },
            NegotiateMsg::ClientOffer { id: id_b, offers: offers_b },
        ) => {
            assert_eq!(id_a, id_b);
            assert_eq!(offers_a.len(), offers_b.len());
            for (a, b) in offers_a.iter().zip(offers_b.iter()) {
                assert!(nonce_eq(a, b));
            }
        },
        _ => panic!("decoded to a different variant"),
    }
}

#[test]
fn wire_round_trip_offer_with_universe() {
    let picked = StackNonce {
        offers: vec![Offer {
            capability_guid: 9,
            impl_guid: 10,
            universe: Some(vec![1, 2, 3]),
            available: vec![2, 3],
        }],
    };
    let msg = NegotiateMsg::ServerNonce { id: 3, picked };
    let bytes = encode_msg(&msg);
    match decode_msg(&bytes).expect("own encoding decodes") {
        NegotiateMsg::ServerNonce { id, picked } => {
            assert_eq!(id, 3);
            let o = picked.get(9).unwrap();
            assert_eq!(o.impl_guid, 10);
            assert_eq!(o.universe.clone(), Some(vec![1, 2, 3]));
            assert_eq!(o.available.clone(), vec![2, 3]);
        },
        _ => panic!("decoded to a different variant"),
    }
}

#[test]
fn wire_rejects_malformed() {
    // An unknown tag.
    assert!(decode_msg(&vec![9u8]).is_none());
    // An empty buffer.
    assert!(decode_msg(&Vec::new()).is_none());
    // Trailing bytes after a valid reply.
    assert!(decode_msg(&vec![2u8, 0u8]).is_none());
    let ok = encode_msg(&NegotiateMsg::ServerReplyOk);
    assert!(decode_msg(&ok).is_some());
    // A truncated header.
    let msg = NegotiateMsg::ServerReplyErr { detail: vec![1, 2, 3] };
    let mut bytes = encode_msg(&msg);
    bytes.pop();
    assert!(decode_msg(&bytes).is_none());
}

#[test]
fn wire_rejects_repeated_guid() {
    let dup = StackNonce {
        offers: vec![
            Offer { capability_guid: 5, impl_guid: 1, universe: None, available: vec![] },
            Offer { capability_guid: 5, impl_guid: 2, universe: None, available: vec![] },
        ],
    };
    let msg = NegotiateMsg::ServerNonce { id: 1, picked: dup };
    let bytes = encode_msg(&msg);
    assert!(decode_msg(&bytes).is_none());
}

#[test]
fn two_party_happy_path() {
    // Both endpoints run Sequence(Serialize, base).
    let server_stack =
        Stack::sequence(leaf(SERIALIZE_CAP, SERIALIZE_IMPL), leaf(BASE_CAP, BASE_IMPL));
    let client_stack =
        Stack::sequence(leaf(SERIALIZE_CAP, SERIALIZE_IMPL), leaf(BASE_CAP, BASE_IMPL));

    let offer_msg = client_offer(&client_stack, 42);
    let client_offers = client_stack.offers();

    // The offer crosses the wire.
    let wire_bytes = encode_msg(&offer_msg);
    let received = decode_msg(&wire_bytes).expect("offer decodes");

    let mut cache = HandshakeCache::new();
    let answer = server_handle(&server_stack, &mut cache, 1, received, 1000, 30_000)
        .expect("server handles the offer");
    assert!(answer.applied.is_some());

    // The reply crosses back.
    let reply_bytes = encode_msg(&answer.reply);
    let reply = decode_msg(&reply_bytes).expect("reply decodes");
    let (picked, applied) =
        client_complete(&client_stack, &client_offers, 42, reply).expect("client accepts");
    assert!(picked.get(SERIALIZE_CAP).is_some());
    assert_eq!(applied.layers.len(), 2);

    // With the stacks agreed, the client's payload echoes back unchanged.
    let mut pipe: Vec<Vec<u8>> = Vec::new();
    pipe.push(vec![1u8]);
    let at_server = pipe.pop().unwrap();
    pipe.push(at_server);
    let echoed = pipe.pop().unwrap();
    assert_eq!(echoed, vec![1u8]);
}

#[test]
fn two_party_incompatible() {
    // Both sides declare the same both-sided capability with different
    // implementations: Reliable against BestEffort.
    let server_stack = leaf(RELIABLE_CAP, RELIABLE_IMPL);
    let client_stack = leaf(RELIABLE_CAP, BEST_EFFORT_IMPL);

    let offer_msg = client_offer(&client_stack, 9);
    let client_offers = client_stack.offers();

    let mut cache = HandshakeCache::new();
    let answer =
        server_handle(&server_stack, &mut cache, 1, offer_msg, 0, 1000).expect("server replies");
    assert!(answer.applied.is_none());
    match &answer.reply {
        NegotiateMsg::ServerReplyErr { detail } => {
            assert_eq!(detail, &vec![REPLY_ERR_NO_COMPATIBLE_STACK]);
        },
        _ => panic!("expected a refusal"),
    }

    match client_complete(&client_stack, &client_offers, 9, answer.reply) {
        Err(NegotiateError::NoCompatibleStack { .. }) => {},
        _ => panic!("client should fail with NoCompatibleStack"),
    }
}

#[test]
fn server_replays_cached_handshake() {
    let server_stack = leaf(BASE_CAP, BASE_IMPL);
    let client_stack = leaf(BASE_CAP, BASE_IMPL);

    let mut cache = HandshakeCache::new();
    let first = server_handle(&server_stack, &mut cache, 7, client_offer(&client_stack, 5), 100, 50)
        .expect("first handshake");
    let second =
        server_handle(&server_stack, &mut cache, 7, client_offer(&client_stack, 5), 120, 50)
            .expect("duplicate handshake");
    assert!(first.applied.is_some());
    assert!(second.applied.is_none());
    match (&first.reply, &second.reply) {
        (
            NegotiateMsg::ServerNonce { picked: first_pick, .. },
            NegotiateMsg::ServerNonce { picked: second_pick, .. },
        ) => {
            assert!(nonce_eq(first_pick, second_pick));
        },
        _ => panic!("expected picks from both handshakes"),
    }

    // After the retry window passes, the handshake is negotiated afresh.
    let third =
        server_handle(&server_stack, &mut cache, 7, client_offer(&client_stack, 5), 200, 50)
            .expect("fresh handshake after expiry");
    assert!(third.applied.is_some());
}

#[test]
fn server_rejects_oversized_offer_list() {
    let server_stack = leaf(BASE_CAP, BASE_IMPL);
    let one = leaf(BASE_CAP, BASE_IMPL).offers().pop().unwrap();
    let mut offers = Vec::new();
    for _ in 0..257 {
        offers.push(one.clone());
    }
    let msg = NegotiateMsg::ClientOffer { id: 1, offers };
    let mut cache = HandshakeCache::new();
    let answer = server_handle(&server_stack, &mut cache, 1, msg, 0, 1000).expect("server replies");
    match &answer.reply {
        NegotiateMsg::ServerReplyErr { detail } => {
            assert_eq!(detail, &vec![REPLY_ERR_OFFER_LIST_TOO_LARGE]);
        },
        _ => panic!("expected a refusal"),
    }

    // The client surfaces that refusal as its own error.
    let client_offers = server_stack.offers();
    match client_complete(&server_stack, &client_offers, 1, answer.reply) {
        Err(NegotiateError::OfferListTooLarge) => {},
        _ => panic!("client should fail with OfferListTooLarge"),
    }
}

#[test]
fn frames_round_trip() {
    let msg = NegotiateMsg::ServerReplyErr { detail: vec![7, 8] };
    let payload = encode_msg(&msg);
    let framed = frame_msg(&payload);
    let (back, consumed) = parse_frame(&framed).expect("a whole frame parses");
    assert_eq!(consumed, framed.len());
    assert_eq!(back, payload);

    // A partial frame yields nothing until the rest arrives.
    let mut partial = framed.clone();
    partial.pop();
    assert!(parse_frame(&partial).is_none());

    // Trailing bytes of the next frame are left alone.
    let mut two = framed.clone();
    two.extend_from_slice(&framed);
    let (first, consumed) = parse_frame(&two).expect("first frame parses");
    assert_eq!(first, payload);
    assert_eq!(consumed, framed.len());
}

#[test]
fn client_rejects_wrong_handshake() {
    let stack = leaf(BASE_CAP, BASE_IMPL);
    let offers = stack.offers();
    let picked = offers[0].clone();

    // A reply to some other handshake id.
    match client_complete(&stack, &offers, 5, NegotiateMsg::ServerNonce { id: 6, picked }) {
        Err(NegotiateError::ProtocolError) => {},
        _ => panic!("a mismatched id is a protocol error"),
    }

    // A pick the client never offered.
    let foreign = leaf(0x99, 0x9a).offers().pop().unwrap();
    match client_complete(&stack, &offers, 5, NegotiateMsg::ServerNonce { id: 5, picked: foreign })
    {
        Err(NegotiateError::ProtocolError) => {},
        _ => panic!("an unoffered pick is a protocol error"),
    }

    // An unexpected message type.
    match client_complete(&stack, &offers, 5, NegotiateMsg::ServerReplyOk) {
        Err(NegotiateError::ProtocolError) => {},
        _ => panic!("an unexpected message is a protocol error"),
    }
}

#[test]
fn server_closes_on_unexpected_message() {
    let server_stack = leaf(BASE_CAP, BASE_IMPL);
    let mut cache = HandshakeCache::new();
    match server_handle(&server_stack, &mut cache, 1, NegotiateMsg::ServerReplyOk, 0, 1000) {
        Err(NegotiateError::ProtocolError) => {},
        _ => panic!("only a ClientOffer opens a handshake"),
    }
}
