//! Behavioural properties: FIFO order, the persistence round trip,
//! single ownership after a sync cycle, load conservation, the edge
//! buffer's capacity, expiration and priority rules, and the snapshot
//! and message codecs.

use rapidmq::codec::{decode_message, decode_state, encode_message, encode_state};
use rapidmq::ClusterManager;
use rapidmq::ConsumeOutcome;
use rapidmq::EdgeError;
use rapidmq::EdgeNode;
use rapidmq::Message;
use rapidmq::MessageBroker;
use rapidmq::PublishOutcome;
use rapidmq::Queue;
use rapidmq::RapidMQ;

fn msg(id: &str, content: &str) -> Message {
    Message { id: id.to_string(), content: content.to_string() }
}

#[test]
fn fifo_order() {
    let mut q = Queue::new("q".to_string(), Vec::new());
    q.enqueue(msg("1", "a"));
    q.enqueue(msg("2", "b"));
    q.enqueue(msg("3", "c"));
    assert_eq!(q.dequeue().unwrap().id, "1");
    assert_eq!(q.dequeue().unwrap().id, "2");
    assert_eq!(q.dequeue().unwrap().id, "3");
    assert!(q.dequeue().is_none());
}

#[test]
fn persistence_round_trip() {
    let mut q = Queue::new("q".to_string(), Vec::new());
    q.enqueue(msg("1", "a"));
    q.enqueue(msg("2", "b"));
    q.enqueue(msg("3", "c"));
    // restart: rebuild the queue from its persisted store only
    let mut reloaded = Queue::new("q".to_string(), q.persisted());
    assert_eq!(reloaded.len(), 3);
    assert_eq!(reloaded.dequeue().unwrap().id, "1");
    assert_eq!(reloaded.dequeue().unwrap().id, "2");
    let last = reloaded.dequeue().unwrap();
    assert_eq!(last.id, "3");
    assert_eq!(last.content, "c");
}

#[test]
fn single_ownership_after_sync() {
    let mut leader = ClusterManager::new(1, vec![2, 3]);
    leader.assign_queue(&"q1".to_string());
    let snapshot = encode_state(&leader.state);

    let mut f1 = ClusterManager::new(2, vec![1, 3]);
    let mut f2 = ClusterManager::new(3, vec![1, 2]);
    assert!(f1.update_state(&snapshot));
    assert!(f2.update_state(&snapshot));

    let o0 = leader.get_queue_node(&"q1".to_string());
    let o1 = f1.get_queue_node(&"q1".to_string());
    let o2 = f2.get_queue_node(&"q1".to_string());
    assert!(o0.is_some());
    assert_eq!(o0, o1);
    assert_eq!(o1, o2);
}

#[test]
fn rejected_snapshot_leaves_state() {
    let mut follower = ClusterManager::new(2, vec![1, 3]);
    let before = follower.get_state();
    let garbage: Vec<u8> = vec![7, 7, 7];
    assert!(!follower.update_state(&garbage));
    let after = follower.get_state();
    assert_eq!(before.nodes, after.nodes);
    assert_eq!(before.queue_assignments, after.queue_assignments);
    assert_eq!(before.node_loads, after.node_loads);
}

#[test]
fn load_conservation() {
    let mut mgr = ClusterManager::new(1, vec![2, 3]);
    for name in ["a", "b", "c", "d", "e"] {
        mgr.assign_queue(&name.to_string());
    }
    mgr.add_node(4, "127.0.0.1:50004".to_string());
    mgr.remove_node(2);
    let state = mgr.get_state();
    let total: usize = state.node_loads.iter().map(|p| p.1).sum();
    assert_eq!(total, state.queue_assignments.len());
}

#[test]
fn rebalance_bounds_load() {
    // one overloaded member, then three more join: afterwards nobody
    // holds more than ceil(9 / 4) = 3 queues, and every queue still
    // resolves to a member.
    let mut mgr = ClusterManager::new(1, Vec::new());
    for i in 0..9u32 {
        let name = format!("q{}", i);
        mgr.assign_queue(&name);
    }
    mgr.add_node(2, "127.0.0.1:50002".to_string());
    mgr.add_node(3, "127.0.0.1:50003".to_string());
    mgr.add_node(4, "127.0.0.1:50004".to_string());
    let state = mgr.get_state();
    assert_eq!(state.queue_assignments.len(), 9);
    for (_, load) in &state.node_loads {
        assert!(*load <= 3);
    }
    for (_, owner) in &state.queue_assignments {
        assert!(state.contains_node(*owner));
    }
}

#[test]
fn capacity_bound() {
    let mut edge = EdgeNode::new("edge-1".to_string(), "http://broker".to_string(), 3, 60);
    for i in 0..3u64 {
        let r = edge.store_message(
            "t".to_string(),
            format!("m{}", i),
            1,
            None,
            100,
        );
        assert!(r.is_ok());
    }
    let r = edge.store_message("t".to_string(), "overflow".to_string(), 1, None, 100);
    assert!(matches!(r, Err(EdgeError::CapacityExceeded)));
    assert_eq!(edge.get_pending_messages(usize::MAX).len(), 3);
}

#[test]
fn expiration() {
    let mut edge = EdgeNode::new("edge-1".to_string(), "http://broker".to_string(), 10, 60);
    let now = 100u64;
    edge.store_message("t".to_string(), "expiring".to_string(), 1, Some(now), now).unwrap();
    edge.store_message("t".to_string(), "lasting".to_string(), 1, None, now).unwrap();
    let batch = edge.sync(None, now + 1);
    assert_eq!(batch.len(), 1);
    assert_eq!(batch[0].payload, "lasting");
    assert_eq!(edge.get_pending_messages(usize::MAX).len(), 1);
}

#[test]
fn priority_sync() {
    let mut edge = EdgeNode::new("edge-1".to_string(), "http://broker".to_string(), 10, 60);
    for (i, p) in [1u8, 5, 3, 2, 4].iter().enumerate() {
        edge.store_message("t".to_string(), format!("m{}", i), *p, None, 100).unwrap();
    }
    let batch = edge.sync(Some(3), 100);
    assert_eq!(batch.len(), 3);
    assert_eq!(batch[0].priority, 5);
    assert_eq!(batch[1].priority, 4);
    assert_eq!(batch[2].priority, 3);
}

#[test]
fn failed_sync_loses_nothing() {
    let mut edge = EdgeNode::new("edge-1".to_string(), "http://broker".to_string(), 10, 60);
    for i in 0..3u64 {
        edge.store_message("t".to_string(), format!("m{}", i), 2, None, 100).unwrap();
    }
    // network unavailable: the transport never acknowledges the batch,
    // so nothing is removed
    let batch = edge.sync(None, 100);
    assert_eq!(batch.len(), 3);
    assert_eq!(edge.get_pending_messages(usize::MAX).len(), 3);
    // network back: the same pending set drains, then is acknowledged
    let batch = edge.sync(None, 100);
    assert_eq!(batch.len(), 3);
    let ids: Vec<u64> = batch.iter().map(|m| m.local_id).collect();
    edge.mark_messages_sent(&ids);
    assert_eq!(edge.get_pending_messages(usize::MAX).len(), 0);
}

#[test]
fn broker_accepts_json_payloads_only() {
    let mut broker = MessageBroker::new();
    let batch = vec![
        (1i64, "t1".to_string(), "{\"a\": 1}".to_string(), 10i64),
        (2i64, "t2".to_string(), "not json".to_string(), 11i64),
        (3i64, "t3".to_string(), "[1, 2, 3]".to_string(), 12i64),
    ];
    let accepted = broker.handle_edge_node_sync("edge-1", batch);
    assert_eq!(accepted, vec![1, 3]);
    assert_eq!(broker.received.len(), 2);
    assert_eq!(broker.received[0].0, "t1");
    assert_eq!(broker.received[1].0, "t3");
}

#[test]
fn message_codec_round_trip() {
    let m = msg("id-7", "payload bytes");
    let encoded = encode_message(&m);
    let decoded = decode_message(&encoded).unwrap();
    assert_eq!(decoded.id, m.id);
    assert_eq!(decoded.content, m.content);
    assert!(decode_message(&vec![1, 2, 3]).is_none());
}

#[test]
fn snapshot_codec_round_trip() {
    let mut mgr = ClusterManager::new(1, vec![2]);
    mgr.assign_queue(&"orders".to_string());
    let bytes = encode_state(&mgr.state);
    let decoded = decode_state(&bytes).unwrap();
    assert_eq!(decoded.nodes, mgr.state.nodes);
    assert_eq!(decoded.queue_assignments, mgr.state.queue_assignments);
    assert_eq!(decoded.node_loads, mgr.state.node_loads);
}

#[test]
fn scenario_publish_consume_once() {
    let mut nodes = vec![
        RapidMQ::new(1, vec![2, 3]),
        RapidMQ::new(2, vec![1, 3]),
        RapidMQ::new(3, vec![1, 2]),
    ];
    nodes[0].create_queue(&"q1".to_string());
    let snapshot = encode_state(&nodes[0].cluster.state);
    assert!(nodes[1].cluster.update_state(&snapshot));
    assert!(nodes[2].cluster.update_state(&snapshot));

    let out = nodes[0].publish(&"q1".to_string(), msg("1", "hello"));
    assert!(matches!(out, PublishOutcome::Local(_)));

    // consume from another node: the call routes to the owner, which
    // yields the message exactly once
    let owner = match nodes[2].consume(&"q1".to_string()) {
        ConsumeOutcome::Remote(o) => o,
        _ => panic!("expected routing to the owner"),
    };
    let consumed = match nodes[(owner - 1) as usize].consume(&"q1".to_string()) {
        ConsumeOutcome::Local(Some(m)) => m,
        _ => panic!("expected the message at the owner"),
    };
    assert_eq!(consumed.id, "1");
    assert_eq!(consumed.content, "hello");

    // a second consume, from any node, finds nothing
    match nodes[(owner - 1) as usize].consume(&"q1".to_string()) {
        ConsumeOutcome::Local(None) => {},
        _ => panic!("the message must be delivered exactly once"),
    }
}

#[test]
fn unowned_queue_absorbs_calls() {
    let mut mq = RapidMQ::new(1, vec![2]);
    let out = mq.publish(&"ghostly".to_string(), msg("1", "x"));
    assert!(matches!(out, PublishOutcome::NoOwner));
    assert!(matches!(mq.consume(&"ghostly".to_string()), ConsumeOutcome::NoOwner));
}

#[test]
fn authentication_checks_header() {
    let with = vec!["Accept".to_string(), "Authorization".to_string()];
    let without = vec!["Accept".to_string()];
    assert!(rapidmq::api::is_authenticated(&with));
    assert!(!rapidmq::api::is_authenticated(&without));
}

#[test]
fn metrics_registries_start_empty() {
    let m = rapidmq::metrics::register_metrics();
    assert_eq!(m.messages_published, 0);
    assert_eq!(m.total_messages, 0);
    let mut mon = rapidmq::monitoring::register_metrics();
    assert_eq!(mon.message_count, 0);
    mon.record_message();
    mon.set_queue_size(4);
    assert_eq!(mon.message_count, 1);
    assert_eq!(mon.queue_size, 4);
}

#[test]
fn producer_buffers_on_edge() {
    let mut p = rapidmq::Producer::new("http://broker".to_string(), Some("edge-9".to_string()));
    p.send("t".to_string(), "hello".to_string(), 4, None, 50).unwrap();
    p.send("t".to_string(), "world".to_string(), 2, None, 51).unwrap();
    let batch = p.flush(60);
    assert_eq!(batch.len(), 2);
    assert_eq!(batch[0].payload, "hello");
    assert_eq!(batch[1].payload, "world");
}

#[test]
fn routing_hint_overrides_route() {
    let mut mq = RapidMQ::new(1, vec![2, 3]);
    mq.create_queue(&"q1".to_string());
    let out = mq.adaptive_publish(&"q1".to_string(), msg("1", "x"), Some(3));
    match out {
        PublishOutcome::Remote(f) => {
            assert_eq!(f.node, 3);
            assert_eq!(f.queue, "q1");
        },
        _ => panic!("a valid routing hint must override the route"),
    }
}
