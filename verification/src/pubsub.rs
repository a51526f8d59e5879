//! Connection-state tags for a publish/subscribe deployment that can
//! negotiate its way onto different message brokers at runtime.

use vstd::prelude::*;

verus! {

/// Which broker and ordering mode a negotiated pub/sub connection ended up
/// on.
#[derive(Debug, Clone, Copy, PartialEq, Eq, Structural)]
pub enum ConnState {
    /// Ordering provided by a Kafka topic.
    KafkaOrdering,
    /// Cloud pub/sub with ordering restored client-side.
    GcpClientSideOrdering,
    /// Cloud pub/sub with ordering provided by the service.
    GcpServiceSideOrdering,
}

impl ConnState {
    /// Is the connection on the Kafka broker?
    pub fn is_kafka(&self) -> (r: bool)
        ensures
            r == (*self is KafkaOrdering),
    {
        match self {
            ConnState::KafkaOrdering => true,
            ConnState::GcpClientSideOrdering | ConnState::GcpServiceSideOrdering => false,
        }
    }

    /// Is the connection on the cloud pub/sub service?
    pub fn is_gcp(&self) -> (r: bool)
        ensures
            r == !(*self is KafkaOrdering),
    {
        !self.is_kafka()
    }
}

} // verus!
