//! A composable, self-negotiating networking stack library: the negotiation
//! core.
//!
//! An application describes a communication pipeline as a declarative stack of
//! capability-tagged layers.  Stacks may contain `Select` branches; the
//! negotiation subsystem enumerates the concrete stacks such a value can
//! represent, compares them with a peer's offers, and chooses one that both
//! endpoints can live with.  The chosen concrete stack is identified by a
//! `StackNonce`, the unit of exchange on the wire.
//!
//! The crate covers three tightly coupled parts:
//! - the stack algebra and monomorphizer (`stack`, `negotiate`),
//! - the one-shot client/server handshake (`handshake`, `wire`),
//! - the N-party rendezvous protocol with live upgrades (`rendezvous`).
//!
//! Concrete transports and concrete capability implementations are out of
//! scope: they appear only through the plain data types they exchange with the
//! negotiation core.

use vstd::prelude::*;

pub mod compat;
pub mod handshake;
pub mod negotiate;
pub mod nonce;
pub mod pubsub;
pub mod rendezvous;
pub mod stack;
pub mod util;
pub mod wire;

verus! {

/// Errors surfaced by the negotiation subsystem.
#[derive(Debug)]
pub enum NegotiateError {
    /// The monomorphizer found no mutually valid pair of offers.  Both
    /// parties' offers are carried for diagnostics.
    NoCompatibleStack {
        client_offers: Vec<nonce::StackNonce>,
        server_offers: Vec<nonce::StackNonce>,
    },
    /// `apply` could not resolve a `Select` against the picked nonce.
    MonomorphizationFailed,
    /// A malformed or unexpected handshake message.
    ProtocolError,
    /// A rendezvous store operation was invalid in the current state.
    RendezvousBackend,
    /// A proposed transition failed compatibility or lost a race.
    TransitionRejected,
    /// The underlying raw connection died.
    TransportClosed,
    /// A client announced more simultaneous offers than a server accepts.
    OfferListTooLarge,
}

} // verus!
