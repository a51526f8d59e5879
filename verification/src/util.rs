//! Helper chunnel types that transform a connection's data or address
//! shape, and the common vocabulary they share.
//!
//! The types here carry the state of each wrapper; performing the wrapped
//! sends and receives belongs to the I/O shell around the library.

use vstd::prelude::*;
use crate::NegotiateError;

verus! {

/// Where a chunnel's functionality may be implemented.
#[derive(Debug, Clone, Copy, PartialEq, Eq, Structural)]
pub enum Scope {
    /// Must be inside the application.
    Application,
    /// Anywhere on the same host.
    Host,
    /// Anywhere in the local network.
    Local,
    /// Anywhere.
    Global,
}

/// Semantics of a chunnel.
#[derive(Debug, Clone, Copy, PartialEq, Eq, Structural)]
pub enum Endedness {
    /// The chunnel uses wrap/unwrap semantics.
    Both,
    /// The chunnel does not change semantics.
    Either,
}

/// The narrower of two scopes wins when two implementations of the same
/// functionality race: prefer the first exactly when its scope is at least
/// as narrow as the second's.
pub open spec fn scope_narrower(a: Scope, b: Scope) -> bool {
    match (a, b) {
        (Scope::Application, _) => true,
        (_, Scope::Application) => false,
        (Scope::Host, _) => true,
        (_, Scope::Host) => false,
        (Scope::Local, _) => true,
        (_, Scope::Local) => false,
        (Scope::Global, _) => true,
    }
}

/// Decide which of two candidate implementations to try first, by scope;
/// see `scope_narrower`.
pub fn pick_by_scope(first: Scope, second: Scope) -> (r: bool)
    ensures
        r == scope_narrower(first, second),
{
    match (first, second) {
        (Scope::Application, _) => true,
        (_, Scope::Application) => false,
        (Scope::Host, _) => true,
        (_, Scope::Host) => false,
        (Scope::Local, _) => true,
        (_, Scope::Local) => false,
        (Scope::Global, _) => true,
    }
}

/// A type that can list out the universe of possible values it can have.
pub trait CapabilitySet: Sized {
    /// All possible values this type can have.
    fn universe() -> Vec<Self>;
}

impl CapabilitySet for () {
    fn universe() -> Vec<Self> {
        let mut v: Vec<()> = Vec::new();
        v.push(());
        v
    }
}

/// The ability to negotiate chunnel implementations over a set of
/// capabilities enumerated by the `Capability` type.
pub trait Negotiate<Capability: CapabilitySet> {
    /// The capabilities this implementation provides.
    fn capabilities() -> Vec<Capability>;
}

/// Data that carries its own message id, for matching replies to requests.
pub trait MsgId {
    /// This message's id.
    fn id(&self) -> usize;
}

/// The end of a chunnel chain.
#[derive(Debug, Clone, Copy, PartialEq, Eq, Structural)]
pub struct CxNil;

/// A chain of chunnels, composed head over tail.
#[derive(Debug)]
pub struct CxList<Head, Tail> {
    pub head: Head,
    pub tail: Tail,
}

impl<H, L> CxList<H, L> {
    /// Put one more chunnel at the head of the chain.
    pub fn wrap<T>(self, head: T) -> (r: CxList<T, CxList<H, L>>)
        ensures
            r.head == head,
            r.tail.head == self.head,
            r.tail.tail == self.tail,
    {
        CxList { head, tail: CxList { head: self.head, tail: self.tail } }
    }
}

/// Steer incoming packets to per-address connections.
#[derive(Debug)]
pub struct AddrSteer<C>(pub C);

impl<C> AddrSteer<C> {
    /// Steer packets arriving on `inner`.
    pub fn new(inner: C) -> (r: Self)
        ensures
            r.0 == inner,
    {
        AddrSteer(inner)
    }
}

/// Does nothing, while declaring no capabilities over `N`.
#[derive(Debug)]
pub struct Nothing<N>(pub core::marker::PhantomData<N>);

impl<N: CapabilitySet> Negotiate<N> for Nothing<N> {
    fn capabilities() -> Vec<N> {
        Vec::new()
    }
}

/// Pairs every message with a unit address, so address-shaped wrappers
/// compose over connections that have none.
#[derive(Debug)]
pub struct Unproject<C>(pub C);

/// Attaches a fixed address to outgoing messages and strips it from
/// incoming ones.
#[derive(Debug)]
pub struct ProjectLeft<A, N>(pub A, pub core::marker::PhantomData<N>);

/// A connection that sends everything to one remembered address.
#[derive(Debug)]
pub struct ProjectLeftCn<A, C>(pub A, pub C);

impl<A, C> ProjectLeftCn<A, C> {
    /// Send on `c`, always to `a`.
    pub fn new(a: A, c: C) -> (r: Self)
        ensures
            r.0 == a,
            r.1 == c,
    {
        ProjectLeftCn(a, c)
    }
}

/// Transposes a connection's data type to be `Option`-wrapped.
#[derive(Debug, Clone, Copy, PartialEq, Eq, Structural)]
pub struct OptionWrap;

/// A connection whose sends take `Option`s, dropping `None`s.
#[derive(Debug)]
pub struct OptionWrapCn<C>(pub C);

impl<C> OptionWrapCn<C> {
    /// Wrap `inner`.
    pub fn new(inner: C) -> (r: Self)
        ensures
            r.0 == inner,
    {
        OptionWrapCn(inner)
    }
}

/// Unwraps `Option`-typed data from an inner connection, turning `None`
/// into an error.
#[derive(Debug, Clone, Copy, PartialEq, Eq, Structural)]
pub struct OptionUnwrap;

impl Negotiate<()> for OptionUnwrap {
    fn capabilities() -> Vec<()> {
        Vec::new()
    }
}

/// `OptionUnwrap` for connections whose data carries an address.
#[derive(Debug, Clone, Copy, PartialEq, Eq, Structural)]
pub struct OptionUnwrapProj;

impl Negotiate<()> for OptionUnwrapProj {
    fn capabilities() -> Vec<()> {
        Vec::new()
    }
}

/// A connection that unwraps the `Option` in `(addr, Option<data>)` pairs.
#[derive(Debug)]
pub struct OptionUnwrapProjCn<C>(pub C);

impl<C> OptionUnwrapProjCn<C> {
    /// Wrap `inner`.
    pub fn new(inner: C) -> (r: Self)
        ensures
            r.0 == inner,
    {
        OptionUnwrapProjCn(inner)
    }
}

/// Translates between passing the address with the data and passing the
/// address at connect time.
#[derive(Debug)]
pub struct AddrWrap<A, C>(pub C, pub core::marker::PhantomData<A>);

impl<A, C> AddrWrap<A, C> {
    /// Wrap the connector `inner`.
    pub fn new(inner: C) -> (r: Self)
        ensures
            r.0 == inner,
    {
        AddrWrap(inner, core::marker::PhantomData)
    }
}

/// A connection that remembers the address it was connected to.
#[derive(Debug)]
pub struct AddrWrapCn<A, C>(pub A, pub C);

impl<A, C> AddrWrapCn<A, C> {
    /// Send on `inner`, always to `addr`.
    pub fn new(addr: A, inner: C) -> (r: Self)
        ensures
            r.0 == addr,
            r.1 == inner,
    {
        AddrWrapCn(addr, inner)
    }
}

/// For testing assertions: a chunnel that errors if it is used at all.
#[derive(Debug, Clone, Copy, PartialEq, Eq, Structural)]
pub struct Never;

/// The connection `Never` yields: every operation fails.
#[derive(Debug)]
pub struct NeverCn<D>(pub core::marker::PhantomData<D>);

impl<D> NeverCn<D> {
    /// A connection that refuses everything.
    pub fn new() -> (r: Self)
    {
        NeverCn(core::marker::PhantomData)
    }

    /// Sending is never allowed.
    pub fn send(&self, _data: D) -> (r: Result<(), NegotiateError>)
        ensures
            r matches Result::Err(e) && e is TransportClosed,
    {
        Result::Err(NegotiateError::TransportClosed)
    }

    /// Receiving is never expected.
    pub fn recv(&self) -> (r: Result<D, NegotiateError>)
        ensures
            r matches Result::Err(e) && e is TransportClosed,
    {
        Result::Err(NegotiateError::TransportClosed)
    }
}

} // verus!
