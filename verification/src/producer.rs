//! The producer-side wrapper. A producer configured with an edge store
//! buffers its messages there while disconnected; one without sends
//! directly, which is the transport layer's concern. Flushing hands the
//! caller the batch to upload, in the edge buffer's priority order.

use vstd::prelude::*;

use crate::edge::{keep_unexpired, msg_seq, sync_spec, EdgeError, EdgeMessage, EdgeNode};

verus! {

/// How many pending messages one flush cycle uploads at most.
pub open spec fn flush_limit() -> usize {
    100
}

/// A producer, optionally backed by a local edge buffer.
pub struct Producer {
    pub broker_url: String,
    pub edge_node: Option<EdgeNode>,
}

impl Producer {
    pub open spec fn wf(self) -> bool {
        match self.edge_node {
            Some(e) => e.wf(),
            None => true,
        }
    }

    /// A producer for `broker_url`; with an edge node id it buffers
    /// locally, holding up to a thousand pending messages.
    pub fn new(broker_url: String, edge_node_id: Option<String>) -> (r: Producer)
        ensures
            r.wf(),
            r.broker_url@ == broker_url@,
            match edge_node_id {
                Some(id) => r.edge_node matches Some(e) && e.node_id@ == id@
                    && e.pending_v().len() == 0 && e.capacity == 1000,
                None => r.edge_node is None,
            },
    {
        let edge_node = match edge_node_id {
            Some(id) => Some(EdgeNode::new(id, broker_url.clone(), 1000, 60)),
            None => None,
        };
        Producer { broker_url, edge_node }
    }

    /// Send a message: with an edge store it is buffered as pending
    /// (and rejected only when the buffer is full); without one, the
    /// transport layer delivers it directly and nothing is buffered.
    pub fn send(
        &mut self,
        topic: String,
        payload: String,
        priority: u8,
        expiration: Option<u64>,
        now: u64,
    ) -> (r: Result<(), EdgeError>)
        requires
            old(self).wf(),
            1 <= priority <= 5,
        ensures
            final(self).wf(),
            final(self).broker_url == old(self).broker_url,
            match old(self).edge_node {
                None => r is Ok && *final(self) == *old(self),
                Some(e) => final(self).edge_node matches Some(e2) && (e.pending@.len()
                    >= e.capacity ==> r == Result::<(), EdgeError>::Err(
                    EdgeError::CapacityExceeded,
                ) && e2 == e) && (e.pending@.len() < e.capacity ==> r is Ok
                    && e2.pending_v().len() == e.pending_v().len() + 1
                    && e2.pending_v().last().topic == topic@ && e2.pending_v().last().payload
                    == payload@ && e2.pending_v().last().priority == priority
                    && e2.pending_v().last().timestamp == now && e2.pending_v().last().expiration
                    == expiration),
            },
    {
        match &mut self.edge_node {
            Some(e) => {
                match e.store_message(topic, payload, priority, expiration, now) {
                    Ok(_) => Ok(()),
                    Err(err) => Err(err),
                }
            },
            None => Ok(()),
        }
    }

    /// One flush cycle's upload batch: with an edge store, its pending
    /// messages in priority order up to the cycle limit (expired ones
    /// purged and never included); nothing stays removed until the
    /// broker's acknowledgement is recorded on the edge node.
    pub fn flush(&mut self, now: u64) -> (r: Vec<EdgeMessage>)
        requires
            old(self).wf(),
        ensures
            final(self).wf(),
            final(self).broker_url == old(self).broker_url,
            match old(self).edge_node {
                None => r@.len() == 0 && *final(self) == *old(self),
                Some(e) => final(self).edge_node matches Some(e2) && e2.pending_v()
                    == keep_unexpired(e.pending_v(), now) && msg_seq(r@) == sync_spec(
                    e.pending_v(),
                    now,
                    Some(flush_limit()),
                ),
            },
    {
        match &mut self.edge_node {
            Some(e) => e.sync(Some(100), now),
            None => Vec::new(),
        }
    }
}

} // verus!
