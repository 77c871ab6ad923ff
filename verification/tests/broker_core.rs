//! The original broker-level tests: queue creation, publish/consume,
//! subscriber fan-out, and membership changes.

use rapidmq::codec::encode_state;
use rapidmq::ConsumeOutcome;
use rapidmq::Message;
use rapidmq::PublishOutcome;
use rapidmq::RapidMQ;

fn setup() -> (RapidMQ, u64) {
    let node_id = 1u64;
    let peers = vec![2u64, 3u64];
    (RapidMQ::new(node_id, peers), node_id)
}

#[test]
fn test_create_queue() {
    let (mut mq, _) = setup();
    mq.create_queue(&"test_queue".to_string());
    assert!(mq.holds_queue(&"test_queue".to_string()));
    assert_eq!(mq.metrics.queue_count, 1);
}

#[test]
fn test_publish_consume() {
    let (mut mq, _) = setup();
    mq.create_queue(&"test_queue".to_string());

    let message = Message { id: "1".to_string(), content: "Test message".to_string() };

    let outcome = mq.publish(&"test_queue".to_string(), message.duplicate());
    assert!(matches!(outcome, PublishOutcome::Local(_)));
    assert_eq!(mq.metrics.messages_published, 1);
    assert_eq!(mq.metrics.total_messages, 1);

    let consumed = match mq.consume(&"test_queue".to_string()) {
        ConsumeOutcome::Local(Some(m)) => m,
        _ => panic!("expected a locally consumed message"),
    };
    assert_eq!(consumed.id, message.id);
    assert_eq!(consumed.content, message.content);
    assert_eq!(mq.metrics.messages_consumed, 1);
    assert_eq!(mq.metrics.total_messages, 0);
}

#[test]
fn test_subscribe() {
    let (mut mq, _) = setup();
    mq.create_queue(&"main_queue".to_string());
    mq.create_queue(&"subscriber_queue".to_string());

    mq.subscribe(&"main_queue".to_string(), &"subscriber_queue".to_string());

    let message = Message { id: "1".to_string(), content: "Test message".to_string() };

    let outcome = mq.publish(&"main_queue".to_string(), message.duplicate());

    // The subscriber queue was assigned to another member; this test
    // stands in for the RPC layer and carries the forwards to it after
    // a sync cycle has replicated the directory.
    let mut node2 = RapidMQ::new(2, vec![1, 3]);
    let snapshot = encode_state(&mq.cluster.state);
    assert!(node2.cluster.update_state(&snapshot));

    match outcome {
        PublishOutcome::Local(forwards) => {
            assert_eq!(forwards.len(), 1);
            for f in forwards {
                assert_eq!(f.node, 2);
                let delivered = node2.publish(&f.queue, f.message);
                assert!(matches!(delivered, PublishOutcome::Local(_)));
            }
        },
        _ => panic!("expected local delivery with forwards"),
    }

    let consumed_main = match mq.consume(&"main_queue".to_string()) {
        ConsumeOutcome::Local(Some(m)) => m,
        _ => panic!("expected a message on the main queue"),
    };
    let consumed_sub = match node2.consume(&"subscriber_queue".to_string()) {
        ConsumeOutcome::Local(Some(m)) => m,
        _ => panic!("expected a message on the subscriber queue"),
    };

    assert_eq!(consumed_main.id, message.id);
    assert_eq!(consumed_sub.id, message.id);
    assert_eq!(mq.metrics.messages_published, 1);
    assert_eq!(mq.metrics.messages_consumed + node2.metrics.messages_consumed, 2);
}

#[test]
fn test_add_remove_node() {
    let (mut mq, _) = setup();
    let new_node_id = 4u64;
    mq.add_node(new_node_id, "127.0.0.1:50004".to_string());

    let state = mq.cluster.get_state();
    assert!(state.contains_node(new_node_id));

    mq.remove_node(new_node_id);
    let state = mq.cluster.get_state();
    assert!(!state.contains_node(new_node_id));
}

#[test]
fn test_cluster_operations() {
    let mut nodes = vec![
        RapidMQ::new(1, vec![2, 3]),
        RapidMQ::new(2, vec![1, 3]),
        RapidMQ::new(3, vec![1, 2]),
    ];

    // Test queue creation, then replicate the directory as the leader's
    // sync cycle would.
    nodes[0].create_queue(&"test_queue".to_string());
    let snapshot = encode_state(&nodes[0].cluster.state);
    assert!(nodes[1].cluster.update_state(&snapshot));
    assert!(nodes[2].cluster.update_state(&snapshot));

    // Test message publishing and consuming across nodes.
    let message = Message { id: "1".to_string(), content: "Test message".to_string() };
    let out = nodes[0].publish(&"test_queue".to_string(), message.duplicate());
    assert!(matches!(out, PublishOutcome::Local(_)));

    let owner = match nodes[1].consume(&"test_queue".to_string()) {
        ConsumeOutcome::Remote(o) => o,
        _ => panic!("expected a forward to the owning node"),
    };
    assert_eq!(owner, 1);
    let consumed = match nodes[0].consume(&"test_queue".to_string()) {
        ConsumeOutcome::Local(Some(m)) => m,
        _ => panic!("expected the owner to hold the message"),
    };
    assert_eq!(consumed.id, message.id);
    assert_eq!(consumed.content, message.content);

    // Message prioritization enters through the pluggable strategy; with
    // no routing hint the standard path applies.
    let high_priority_message =
        Message { id: "2".to_string(), content: "High priority message".to_string() };
    let out = nodes[0].adaptive_publish(
        &"test_queue".to_string(),
        high_priority_message.duplicate(),
        None,
    );
    assert!(matches!(out, PublishOutcome::Local(_)));
    let consumed = match nodes[0].consume(&"test_queue".to_string()) {
        ConsumeOutcome::Local(Some(m)) => m,
        _ => panic!("expected the owner to hold the message"),
    };
    assert_eq!(consumed.id, high_priority_message.id);
}
