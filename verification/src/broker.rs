//! Broker-side intake of edge sync batches.
//!
//! An edge node uploads its pending records; the broker accepts exactly
//! those whose payload is a valid JSON document, publishes them, and
//! answers with the accepted ids so the edge node can mark them sent.

use vstd::prelude::*;

verus! {

/// Whether `serde_json` accepts the text as a JSON document; the result
/// depends on the characters alone.
pub uninterp spec fn json_accepts(s: Seq<char>) -> bool;

/// Relies on `serde_json::from_str::<Value>`: parsing succeeds exactly
/// on valid JSON documents.
#[verifier::external_body]
fn payload_parses(s: &str) -> (r: bool)
    ensures
        r == json_accepts(s@),
{
    serde_json::from_str::<serde_json::Value>(s).is_ok()
}

/// One uploaded record: local id, topic, payload, timestamp.
pub open spec fn batch_v(s: Seq<(i64, String, String, i64)>) -> Seq<(i64, Seq<char>, Seq<char>, i64)> {
    s.map_values(|p: (i64, String, String, i64)| (p.0, p.1@, p.2@, p.3))
}

/// The ids of the records whose payload is accepted, in upload order.
pub open spec fn accepted_ids(batch: Seq<(i64, Seq<char>, Seq<char>, i64)>) -> Seq<i64>
    decreases batch.len(),
{
    if batch.len() == 0 {
        Seq::empty()
    } else {
        let rest = accepted_ids(batch.drop_first());
        if json_accepts(batch[0].2) {
            seq![batch[0].0] + rest
        } else {
            rest
        }
    }
}

/// The accepted records themselves, as (topic, payload, timestamp).
pub open spec fn accepted_records(batch: Seq<(i64, Seq<char>, Seq<char>, i64)>) -> Seq<
    (Seq<char>, Seq<char>, i64),
>
    decreases batch.len(),
{
    if batch.len() == 0 {
        Seq::empty()
    } else {
        let rest = accepted_records(batch.drop_first());
        if json_accepts(batch[0].2) {
            seq![(batch[0].1, batch[0].2, batch[0].3)] + rest
        } else {
            rest
        }
    }
}

proof fn lemma_accepted_snoc(batch: Seq<(i64, Seq<char>, Seq<char>, i64)>, x: (i64, Seq<char>, Seq<char>, i64))
    ensures
        accepted_ids(batch.push(x)) == if json_accepts(x.2) {
            accepted_ids(batch).push(x.0)
        } else {
            accepted_ids(batch)
        },
        accepted_records(batch.push(x)) == if json_accepts(x.2) {
            accepted_records(batch).push((x.1, x.2, x.3))
        } else {
            accepted_records(batch)
        },
    decreases batch.len(),
{
    if batch.len() == 0 {
        assert(batch.push(x)[0] == x);
        assert(batch.push(x).drop_first() =~= Seq::<(i64, Seq<char>, Seq<char>, i64)>::empty());
        assert(accepted_ids(Seq::<(i64, Seq<char>, Seq<char>, i64)>::empty()) =~= Seq::<
            i64,
        >::empty());
        assert(accepted_records(Seq::<(i64, Seq<char>, Seq<char>, i64)>::empty()) =~= Seq::<
            (Seq<char>, Seq<char>, i64),
        >::empty());
        if json_accepts(x.2) {
            assert(seq![x.0] + Seq::<i64>::empty() =~= accepted_ids(batch).push(x.0));
            assert(seq![(x.1, x.2, x.3)] + Seq::<(Seq<char>, Seq<char>, i64)>::empty()
                =~= accepted_records(batch).push((x.1, x.2, x.3)));
        }
    } else {
        assert(batch.push(x)[0] == batch[0]);
        assert(batch.push(x).drop_first() =~= batch.drop_first().push(x));
        lemma_accepted_snoc(batch.drop_first(), x);
        if json_accepts(batch[0].2) && json_accepts(x.2) {
            assert(seq![batch[0].0] + accepted_ids(batch.drop_first()).push(x.0) =~= (seq![
                batch[0].0,
            ] + accepted_ids(batch.drop_first())).push(x.0));
            assert(seq![(batch[0].1, batch[0].2, batch[0].3)] + accepted_records(
                batch.drop_first(),
            ).push((x.1, x.2, x.3)) =~= (seq![(batch[0].1, batch[0].2, batch[0].3)]
                + accepted_records(batch.drop_first())).push((x.1, x.2, x.3)));
        }
    }
}

/// The broker's intake: every published (topic, payload, timestamp),
/// in arrival order.
pub struct MessageBroker {
    pub received: Vec<(String, String, i64)>,
}

impl MessageBroker {
    pub open spec fn received_v(self) -> Seq<(Seq<char>, Seq<char>, i64)> {
        self.received@.map_values(|p: (String, String, i64)| (p.0@, p.1@, p.2))
    }

    /// A broker that has received nothing yet.
    pub fn new() -> (r: MessageBroker)
        ensures
            r.received_v().len() == 0,
    {
        MessageBroker { received: Vec::new() }
    }

    fn publish(&mut self, topic: String, payload: String, timestamp: i64)
        ensures
            final(self).received_v() == old(self).received_v().push(
                (topic@, payload@, timestamp),
            ),
    {
        self.received.push((topic, payload, timestamp));
        proof {
            assert(self.received_v() =~= old(self).received_v().push(
                (topic@, payload@, timestamp),
            ));
        }
    }

    /// Take one uploaded batch from an edge node: publish every record
    /// whose payload is a valid JSON document and return the ids of
    /// exactly those records, in upload order.
    pub fn handle_edge_node_sync(
        &mut self,
        edge_node_id: &str,
        messages: Vec<(i64, String, String, i64)>,
    ) -> (r: Vec<i64>)
        ensures
            r@ == accepted_ids(batch_v(messages@)),
            final(self).received_v() == old(self).received_v() + accepted_records(
                batch_v(messages@),
            ),
    {
        let ghost batch = batch_v(messages@);
        let ghost start = self.received_v();
        let mut processed_ids: Vec<i64> = Vec::new();
        let mut i: usize = 0;
        while i < messages.len()
            invariant
                i <= messages@.len(),
                batch == batch_v(messages@),
                processed_ids@ == accepted_ids(batch.take(i as int)),
                self.received_v() == start + accepted_records(batch.take(i as int)),
            decreases messages@.len() - i,
        {
            let ghost prev_ids = processed_ids@;
            let ghost prev_recv = self.received_v();
            let ok = payload_parses(messages[i].2.as_str());
            if ok {
                self.publish(messages[i].1.clone(), messages[i].2.clone(), messages[i].3);
                processed_ids.push(messages[i].0);
            }
            proof {
                lemma_accepted_snoc(batch.take(i as int), batch[i as int]);
                assert(batch.take(i as int + 1) =~= batch.take(i as int).push(batch[i as int]));
                assert(batch[i as int] == (
                    messages@[i as int].0,
                    messages@[i as int].1@,
                    messages@[i as int].2@,
                    messages@[i as int].3,
                ));
                if ok {
                    assert(start + accepted_records(batch.take(i as int)).push(
                        (batch[i as int].1, batch[i as int].2, batch[i as int].3),
                    ) =~= (start + accepted_records(batch.take(i as int))).push(
                        (batch[i as int].1, batch[i as int].2, batch[i as int].3),
                    ));
                }
            }
            i = i + 1;
        }
        proof {
            assert(batch.take(batch.len() as int) =~= batch);
        }
        processed_ids
    }
}

} // verus!
