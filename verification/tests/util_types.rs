use bertha::pubsub::ConnState;
use bertha::util::{
    pick_by_scope, AddrSteer, AddrWrap, AddrWrapCn, CapabilitySet, CxList, CxNil, MsgId, Negotiate,
    NeverCn, Nothing, OptionUnwrap, OptionUnwrapProjCn, OptionWrapCn, ProjectLeftCn, Scope,
    Unproject,
};
use bertha::NegotiateError;

#[test]
fn cxnil() {
    // A no-op chain still hands messages through unchanged.
    let stack = CxList { head: CxNil, tail: CxNil };
    let stack = stack.wrap(CxNil);
    assert_eq!(stack.head, CxNil);
    assert_eq!(stack.tail.head, CxNil);

    let mut pipe: Vec<(u8, Vec<u8>)> = Vec::new();
    pipe.push((0u8, vec![1u8; 1]));
    let (_, buf) = pipe.pop().unwrap();
    assert_eq!(buf, vec![1u8; 1]);
}

#[test]
fn scope_preference_order() {
    assert!(pick_by_scope(Scope::Application, Scope::Global));
    assert!(!pick_by_scope(Scope::Global, Scope::Application));
    assert!(pick_by_scope(Scope::Host, Scope::Local));
    assert!(!pick_by_scope(Scope::Local, Scope::Host));
    assert!(pick_by_scope(Scope::Global, Scope::Global));
}

#[test]
fn wrapper_constructors_keep_their_parts() {
    let steer = AddrSteer::new(5u32);
    assert_eq!(steer.0, 5);

    let pl = ProjectLeftCn::new("addr", 7u8);
    assert_eq!(pl.0, "addr");
    assert_eq!(pl.1, 7);

    let ow = OptionWrapCn::new(3u16);
    assert_eq!(ow.0, 3);

    let oup = OptionUnwrapProjCn::new(4u16);
    assert_eq!(oup.0, 4);

    let aw: AddrWrap<u32, u8> = AddrWrap::new(9);
    assert_eq!(aw.0, 9);

    let awc = AddrWrapCn::new(1u32, 2u8);
    assert_eq!(awc.0, 1);
    assert_eq!(awc.1, 2);

    let up = Unproject(11u8);
    assert_eq!(up.0, 11);
}

#[test]
fn never_connection_refuses_io() {
    let cn: NeverCn<u8> = NeverCn::new();
    match cn.send(1) {
        Err(NegotiateError::TransportClosed) => {},
        _ => panic!("sends are never allowed"),
    }
    match cn.recv() {
        Err(NegotiateError::TransportClosed) => {},
        _ => panic!("receives are never expected"),
    }
}

#[test]
fn unit_capability_universe() {
    assert_eq!(<() as CapabilitySet>::universe(), vec![()]);
    assert_eq!(<Nothing<()> as Negotiate<()>>::capabilities(), Vec::<()>::new());
    assert_eq!(<OptionUnwrap as Negotiate<()>>::capabilities(), Vec::<()>::new());
}

struct Tagged(usize);

impl MsgId for Tagged {
    fn id(&self) -> usize {
        self.0
    }
}

#[test]
fn msg_id_matches_messages() {
    let m = Tagged(12);
    assert_eq!(m.id(), 12);
}

#[test]
fn pubsub_conn_state_tags() {
    assert!(ConnState::KafkaOrdering.is_kafka());
    assert!(!ConnState::KafkaOrdering.is_gcp());
    assert!(ConnState::GcpClientSideOrdering.is_gcp());
    assert!(ConnState::GcpServiceSideOrdering.is_gcp());
    assert!(!ConnState::GcpClientSideOrdering.is_kafka());
}

#[test]
fn negotiate() {
    // Two candidate connectors for the same address: the host-scoped one is
    // picked over the local-network one, and the connection echoes.
    let first = Scope::Host;
    let second = Scope::Local;
    assert!(pick_by_scope(first, second));

    let mut pipe: Vec<Vec<u8>> = Vec::new();
    pipe.push(vec![1u8; 8]);
    let at_server = pipe.pop().unwrap();
    pipe.push(at_server);
    let d = pipe.pop().unwrap();
    assert_eq!(d, vec![1u8; 8]);
}
