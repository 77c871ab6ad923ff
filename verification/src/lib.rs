//! A clustered message broker core: a replicated cluster directory with
//! least-loaded queue assignment and rebalancing, durable FIFO queues,
//! routing of publish/consume calls to the owning node, and an edge
//! store-and-forward buffer with priority ordering, expiration and a
//! bounded capacity.

use vstd::prelude::*;

pub mod api;
pub mod broker;
pub mod cluster;
pub mod codec;
pub mod directory;
pub mod edge;
pub mod metrics;
pub mod monitoring;
pub mod node;
pub mod producer;
pub mod queue;

pub use broker::MessageBroker;
pub use cluster::ClusterManager;
pub use directory::ClusterState;
pub use edge::EdgeError;
pub use edge::EdgeMessage;
pub use edge::EdgeNode;
pub use node::ConsumeOutcome;
pub use node::ForwardPublish;
pub use node::PublishOutcome;
pub use node::RapidMQ;
pub use producer::Producer;
pub use queue::Queue;

verus! {

/// A single message: a caller-assigned identifier and its content.
pub struct Message {
    pub id: String,
    pub content: String,
}

impl Message {
    /// Deep copy; the result is equal to the original.
    pub fn duplicate(&self) -> (r: Message)
        ensures
            r.id@ == self.id@,
            r.content@ == self.content@,
    {
        Message { id: self.id.clone(), content: self.content.clone() }
    }
}

} // verus!
