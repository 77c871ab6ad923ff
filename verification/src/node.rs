//! The per-node messaging system: local durable queues, the subscriber
//! fan-out table, the local directory copy, and the routing decisions.
//!
//! A publish or consume call first resolves the queue's owner in the
//! local directory. The owning node mutates its durable queue directly;
//! any other node hands back a forwarding directive with the owner's id,
//! and the caller (the RPC layer) carries it out. A queue with no
//! recorded owner absorbs the call: a publish is dropped and a consume
//! returns nothing.

use vstd::prelude::*;

use crate::cluster::ClusterManager;
use crate::directory::assign_post;
use crate::metrics::{bump, drop_one, register_metrics, MetricsRegistry};
use crate::queue::Queue;
use crate::Message;

verus! {

/// A publish that must be carried out on another node.
pub struct ForwardPublish {
    pub node: u64,
    pub queue: String,
    pub message: Message,
}

/// What a publish call decided.
pub enum PublishOutcome {
    /// The queue has no recorded owner; the message was dropped.
    NoOwner,
    /// Delivered to the local queue; the listed forwards remain to be
    /// carried out for remotely-owned subscriber queues.
    Local(Vec<ForwardPublish>),
    /// This node does not own the queue: forward to the owner.
    Remote(ForwardPublish),
}

/// What a consume call decided.
pub enum ConsumeOutcome {
    /// The queue has no recorded owner.
    NoOwner,
    /// Consumed locally (or the local queue was empty).
    Local(Option<Message>),
    /// This node does not own the queue: consume from the given owner.
    Remote(u64),
}

/// The subscriber queues of `q`: the list under its first matching entry.
pub open spec fn subs_of(subs: Seq<(String, Vec<String>)>, q: Seq<char>) -> Seq<Seq<char>>
    decreases subs.len(),
{
    if subs.len() == 0 {
        Seq::empty()
    } else if subs[0].0@ == q {
        subs[0].1@.map_values(|s: String| s@)
    } else {
        subs_of(subs.drop_first(), q)
    }
}

/// A queue name that this publish must deliver to locally: the queue
/// itself, or one of its subscriber queues that this node owns.
pub open spec fn fan_target(pre: RapidMQ, q: Seq<char>, x: Seq<char>) -> bool {
    x == q || (subs_of(pre.subscribers@, q).contains(x) && x != q && pre.cluster.state.owns(
        x,
        pre.node_id,
    ))
}

/// The messaging system of one cluster node.
pub struct RapidMQ {
    pub node_id: u64,
    pub queues: Vec<(String, Queue)>,
    pub subscribers: Vec<(String, Vec<String>)>,
    pub cluster: ClusterManager,
    pub metrics: MetricsRegistry,
}

impl RapidMQ {
    pub open spec fn wf(self) -> bool {
        &&& self.cluster.wf()
        &&& self.cluster.node_id == self.node_id
        &&& forall|i: int, j: int|
            0 <= i < j < self.queues@.len() ==> self.queues@[i].0@ != self.queues@[j].0@
        &&& forall|i: int|
            0 <= i < self.queues@.len() ==> (#[trigger] self.queues@[i]).1.wf()
                && self.queues@[i].1.name_spec() == self.queues@[i].0@
        &&& forall|i: int, j: int|
            0 <= i < j < self.subscribers@.len() ==> self.subscribers@[i].0@
                != self.subscribers@[j].0@
        &&& forall|i: int, a: int, b: int|
            #![trigger self.subscribers@[i].1@[a], self.subscribers@[i].1@[b]]
            0 <= i < self.subscribers@.len() && 0 <= a < b < self.subscribers@[i].1@.len()
                ==> self.subscribers@[i].1@[a]@ != self.subscribers@[i].1@[b]@
    }

    /// The queue names held locally.
    pub open spec fn has_local_queue(self, q: Seq<char>) -> bool {
        exists|i: int| 0 <= i < self.queues@.len() && (#[trigger] self.queues@[i]).0@ == q
    }

    /// Bootstrap one node of the cluster from its id and peer list.
    pub fn new(node_id: u64, peers: Vec<u64>) -> (r: RapidMQ)
        ensures
            r.wf(),
            r.node_id == node_id,
            r.cluster.state.has_node(node_id),
            forall|i: int| 0 <= i < peers@.len() ==> r.cluster.state.has_node(#[trigger] peers@[i]),
            r.queues@.len() == 0,
            r.subscribers@.len() == 0,
            r.cluster.state.queue_assignments@.len() == 0,
            r.metrics == (register_spec()),
    {
        RapidMQ {
            node_id,
            queues: Vec::new(),
            subscribers: Vec::new(),
            cluster: ClusterManager::new(node_id, peers),
            metrics: register_metrics(),
        }
    }

    /// Whether a queue of this name is held locally.
    pub fn holds_queue(&self, queue_name: &String) -> (r: bool)
        ensures
            r == self.has_local_queue(queue_name@),
    {
        let mut i: usize = 0;
        while i < self.queues.len()
            invariant
                i <= self.queues@.len(),
                forall|k: int| 0 <= k < i ==> (#[trigger] self.queues@[k]).0@ != queue_name@,
            decreases self.queues@.len() - i,
        {
            if self.queues[i].0 == *queue_name {
                return true;
            }
            i = i + 1;
        }
        false
    }

    /// Create a queue: record an owner for it (idempotently) and, when
    /// that owner is this node, make sure the local durable queue
    /// exists. The queue counter is bumped on every call, as the
    /// front-end counts creation requests.
    pub fn create_queue(&mut self, queue_name: &String)
        requires
            old(self).wf(),
        ensures
            final(self).wf(),
            final(self).node_id == old(self).node_id,
            final(self).subscribers@ == old(self).subscribers@,
            exists|r: Option<u64>|
                assign_post(
                    old(self).cluster.state,
                    final(self).cluster.state,
                    queue_name@,
                    None,
                    r,
                ),
            final(self).cluster.state.owns(queue_name@, old(self).node_id) ==> final(self).has_local_queue(queue_name@),
            final(self).queues@.len() >= old(self).queues@.len(),
            forall|i: int|
                0 <= i < old(self).queues@.len() ==> final(self).queues@[i].0@ == old(self).queues@[i].0@ && final(self).queues@[i].1.contents() == old(self).queues@[i].1.contents(),
            final(self).metrics == (MetricsRegistry {
                queue_count: bump(old(self).metrics.queue_count),
                ..old(self).metrics
            }),
    {
        let assigned = self.cluster.assign_queue(queue_name);
        let ghost post_assign = *self;
        match assigned {
            Some(owner) => {
                if owner == self.node_id && !self.holds_queue(queue_name) {
                    let q = Queue::new(queue_name.clone(), Vec::new());
                    self.queues.push((queue_name.clone(), q));
                    proof {
                        assert(self.queues@.last().0@ == queue_name@);
                        assert(forall|i: int|
                            0 <= i < post_assign.queues@.len() ==> self.queues@[i]
                                == post_assign.queues@[i]);
                    }
                }
            },
            None => {},
        }
        self.metrics.inc_queue_count();
        proof {
            if self.cluster.state.owns(queue_name@, old(self).node_id) {
                match assigned {
                    Some(owner) => {
                        self.cluster.state.lemma_owner_unique(
                            queue_name@,
                            owner,
                            old(self).node_id,
                        );
                    },
                    None => {},
                }
            }
            assert(self.wf());
        }
    }

    /// Record `subscriber_queue` as a subscriber of `queue_name`: every
    /// later publish to the queue is also delivered to it. Subscribing
    /// the same pair twice changes nothing further.
    pub fn subscribe(&mut self, queue_name: &String, subscriber_queue: &String)
        requires
            old(self).wf(),
        ensures
            final(self).wf(),
            final(self).node_id == old(self).node_id,
            final(self).queues@ == old(self).queues@,
            final(self).cluster == old(self).cluster,
            final(self).metrics == old(self).metrics,
            subs_of(final(self).subscribers@, queue_name@) == if subs_of(
                old(self).subscribers@,
                queue_name@,
            ).contains(subscriber_queue@) {
                subs_of(old(self).subscribers@, queue_name@)
            } else {
                subs_of(old(self).subscribers@, queue_name@).push(subscriber_queue@)
            },
            forall|x: Seq<char>|
                x != queue_name@ ==> subs_of(final(self).subscribers@, x) == subs_of(
                    old(self).subscribers@,
                    x,
                ),
    {
        let ghost pre = self.subscribers@;
        let mut i: usize = 0;
        while i < self.subscribers.len()
            invariant
                i <= self.subscribers@.len(),
                *self == *old(self),
                old(self).wf(),
                self.subscribers@ == pre,
                forall|k: int| 0 <= k < i ==> (#[trigger] pre[k]).0@ != queue_name@,
            decreases self.subscribers@.len() - i,
        {
            if self.subscribers[i].0 == *queue_name {
                let (name, mut list) = self.subscribers.remove(i);
                let ghost oldlist = list@;
                let found = string_listed(&list, subscriber_queue);
                if !found {
                    list.push(subscriber_queue.clone());
                }
                self.subscribers.insert(i, (name, list));
                proof {
                    let entry = self.subscribers@[i as int];
                    assert(self.subscribers@ =~= pre.update(i as int, entry));
                    assert(entry.0@ == queue_name@);
                    lemma_subs_of_update(pre, i as int, entry, queue_name@);
                    lemma_subs_of_first_match(pre, i as int, queue_name@);
                    let mapped_old = oldlist.map_values(|s: String| s@);
                    assert(found == mapped_old.contains(subscriber_queue@)) by {
                        if found {
                            let t = choose|t: int|
                                0 <= t < oldlist.len() && (#[trigger] oldlist[t])@
                                    == subscriber_queue@;
                            assert(mapped_old[t] == subscriber_queue@);
                        }
                        if mapped_old.contains(subscriber_queue@) {
                            let t = choose|t: int|
                                0 <= t < mapped_old.len() && mapped_old[t] == subscriber_queue@;
                            assert(oldlist[t]@ == subscriber_queue@);
                        }
                    }
                    if !found {
                        assert(entry.1@ =~= oldlist.push(entry.1@.last()));
                        assert(entry.1@.last()@ == subscriber_queue@);
                        assert(entry.1@.map_values(|s: String| s@) =~= mapped_old.push(
                            subscriber_queue@,
                        ));
                    } else {
                        assert(entry.1@ == oldlist);
                    }
                    assert(forall|t: int|
                        0 <= t < self.subscribers@.len() ==> (
                        #[trigger] self.subscribers@[t]).0@ == pre[t].0@);
                    assert(self.wf());
                }
                return ;
            }
            i = i + 1;
        }
        let mut v: Vec<String> = Vec::new();
        v.push(subscriber_queue.clone());
        self.subscribers.push((queue_name.clone(), v));
        proof {
            let post = self.subscribers@;
            assert(post.drop_last() =~= pre);
            assert(post.last().0@ == queue_name@);
            lemma_subs_of_absent_push(pre, post.last(), queue_name@);
            assert(post =~= pre.push(post.last()));
            assert(post.last().1@.map_values(|s: String| s@) =~= seq![subscriber_queue@]);
            assert(subs_of(pre, queue_name@) == Seq::<Seq<char>>::empty());
            assert(!subs_of(pre, queue_name@).contains(subscriber_queue@));
            assert(Seq::<Seq<char>>::empty().push(subscriber_queue@) =~= seq![subscriber_queue@]);
            assert forall|x: Seq<char>| x != queue_name@ implies subs_of(post, x) == subs_of(
                pre,
                x,
            ) by {
                lemma_subs_of_snoc_other(pre, post.last(), x);
            }
            assert forall|a: int, b: int|
                0 <= a < b < post.len() implies post[a].0@ != post[b].0@ by {
                if b == post.len() - 1 {
                    assert(pre[a].0@ != queue_name@);
                } else {
                    assert(post[a] == pre[a] && post[b] == pre[b]);
                }
            }
            assert(self.wf());
        }
    }

    /// Deliver into the local queue named `name`, creating it lazily.
    fn enqueue_local(&mut self, name: &String, m: Message)
        requires
            old(self).wf(),
        ensures
            final(self).wf(),
            final(self).node_id == old(self).node_id,
            final(self).cluster == old(self).cluster,
            final(self).subscribers@ == old(self).subscribers@,
            final(self).metrics == old(self).metrics,
            old(self).queues@.len() <= final(self).queues@.len() <= old(self).queues@.len() + 1,
            forall|i: int|
                0 <= i < old(self).queues@.len() ==> (#[trigger] final(self).queues@[i]).0@ == old(self).queues@[i].0@ && (old(self).queues@[i].0@ != name@ ==> final(self).queues@[i].1.contents() == old(self).queues@[i].1.contents()) && (old(self).queues@[i].0@ == name@ ==> final(self).queues@[i].1.contents() == old(self).queues@[i].1.contents().push(m)),
            !old(self).has_local_queue(name@) ==> final(self).queues@.len() == old(self).queues@.len() + 1 && final(self).queues@.last().0@ == name@ && final(self).queues@.last().1.contents() == seq![m],
            old(self).has_local_queue(name@) ==> final(self).queues@.len() == old(self).queues@.len(),
            final(self).has_local_queue(name@),
    {
        let mut i: usize = 0;
        while i < self.queues.len()
            invariant
                i <= self.queues@.len(),
                *self == *old(self),
                old(self).wf(),
                forall|k: int| 0 <= k < i ==> (#[trigger] self.queues@[k]).0@ != name@,
            decreases self.queues@.len() - i,
        {
            if self.queues[i].0 == *name {
                let (nm, mut q) = self.queues.remove(i);
                q.enqueue(m);
                self.queues.insert(i, (nm, q));
                proof {
                    assert(self.queues@ =~= old(self).queues@.update(
                        i as int,
                        self.queues@[i as int],
                    ));
                    assert(self.queues@[i as int].0@ == name@);
                    assert(forall|t: int|
                        0 <= t < self.queues@.len() ==> (#[trigger] self.queues@[t]).0@ == old(self).queues@[t].0@);
                    assert(self.has_local_queue(name@));
                    assert(self.wf());
                }
                return ;
            }
            i = i + 1;
        }
        let mut q = Queue::new(name.clone(), Vec::new());
        proof {
            assert(crate::queue::msg_views(q.contents()).len() == q.contents().len());
        }
        q.enqueue(m);
        self.queues.push((name.clone(), q));
        proof {
            assert(self.queues@.drop_last() =~= old(self).queues@);
            assert(self.queues@.last().0@ == name@);
            assert(self.queues@.last().1.contents() =~= seq![m]);
            assert(forall|t: int|
                0 <= t < old(self).queues@.len() ==> #[trigger] self.queues@[t] == old(self).queues@[t]);
            assert forall|a: int, b: int|
                0 <= a < b < self.queues@.len() implies self.queues@[a].0@
                != self.queues@[b].0@ by {
                if b == self.queues@.len() - 1 {
                    assert(old(self).queues@[a].0@ != name@);
                }
            }
            assert(self.has_local_queue(name@));
            assert(self.wf());
        }
    }

    /// The subscriber list of `queue_name`, copied.
    fn get_subscribers(&self, queue_name: &String) -> (r: Vec<String>)
        ensures
            r@.map_values(|s: String| s@) == subs_of(self.subscribers@, queue_name@),
    {
        let mut i: usize = 0;
        while i < self.subscribers.len()
            invariant
                i <= self.subscribers@.len(),
                forall|k: int| 0 <= k < i ==> (#[trigger] self.subscribers@[k]).0@ != queue_name@,
            decreases self.subscribers@.len() - i,
        {
            if self.subscribers[i].0 == *queue_name {
                let list = &self.subscribers[i].1;
                let mut r: Vec<String> = Vec::new();
                let mut k: usize = 0;
                while k < list.len()
                    invariant
                        k <= list@.len(),
                        r@.len() == k as int,
                        forall|t: int| 0 <= t < k ==> (#[trigger] r@[t])@ == list@[t]@,
                    decreases list@.len() - k,
                {
                    r.push(list[k].clone());
                    k = k + 1;
                }
                proof {
                    lemma_subs_of_first_match(self.subscribers@, i as int, queue_name@);
                    assert(r@.map_values(|s: String| s@) =~= list@.map_values(|s: String| s@));
                }
                return r;
            }
            i = i + 1;
        }
        proof {
            lemma_subs_of_missing(self.subscribers@, queue_name@);
        }
        let r: Vec<String> = Vec::new();
        proof {
            assert(r@.map_values(|s: String| s@) =~= Seq::<Seq<char>>::empty());
        }
        r
    }

    /// Publish a message to a queue: resolve the owner in the local
    /// directory; the owner delivers to its durable queue and fans out
    /// to subscriber queues (locally where it owns them, otherwise as
    /// forwarding directives); a non-owner hands back a single
    /// forwarding directive; a queue without an owner drops the message.
    /// The publish counters are bumped on every call.
    #[verifier::rlimit(100)]
    pub fn publish(&mut self, queue_name: &String, message: Message) -> (r: PublishOutcome)
        requires
            old(self).wf(),
        ensures
            final(self).wf(),
            publish_post(
                *old(self),
                *final(self),
                queue_name@,
                message.id@,
                message.content@,
                r,
            ),
    {
        let ghost pre = *old(self);
        let ghost mv = (message.id@, message.content@);
        self.metrics.inc_published();
        self.metrics.inc_total();
        let owner = match self.cluster.get_queue_node(queue_name) {
            None => {
                return PublishOutcome::NoOwner;
            },
            Some(o) => o,
        };
        if owner != self.node_id {
            return PublishOutcome::Remote(
                ForwardPublish { node: owner, queue: queue_name.clone(), message },
            );
        }
        self.enqueue_local(queue_name, message.duplicate());
        proof {
            assert forall|i: int|
                0 <= i < pre.queues@.len() && pre.queues@[i].0@ == queue_name@ implies crate::queue::msg_views(
                self.queues@[i].1.contents(),
            ) == crate::queue::msg_views(pre.queues@[i].1.contents()).push(mv) by {
                let c1 = pre.queues@[i].1.contents();
                let c2 = self.queues@[i].1.contents();
                assert(c2.last().id@ == mv.0 && c2.last().content@ == mv.1);
                assert(crate::queue::msg_views(c2) =~= crate::queue::msg_views(c1).push(mv));
            }
            if !pre.has_local_queue(queue_name@) {
                let c2 = self.queues@.last().1.contents();
                assert(c2[0].id@ == mv.0 && c2[0].content@ == mv.1);
                assert(crate::queue::msg_views(c2) =~= seq![mv]);
            }
        }
        let ghost mid = *self;
        let subs = self.get_subscribers(queue_name);
        let ghost subsv = subs@.map_values(|s: String| s@);
        proof {
            lemma_subs_of_distinct(pre.subscribers@, queue_name@);
        }
        let mut forwards: Vec<ForwardPublish> = Vec::new();
        let mut k: usize = 0;
        while k < subs.len()
            invariant
                k <= subs@.len(),
                subsv == subs@.map_values(|s: String| s@),
                subsv == subs_of(pre.subscribers@, queue_name@),
                mv == (message.id@, message.content@),
                forall|a: int, b: int| 0 <= a < b < subsv.len() ==> subsv[a] != subsv[b],
                self.wf(),
                pre.wf(),
                self.node_id == pre.node_id,
                self.cluster == pre.cluster,
                pre.cluster.state.owns(queue_name@, pre.node_id),
                self.subscribers@ == pre.subscribers@,
                self.metrics == mid.metrics,
                mid.queues@.len() <= self.queues@.len(),
                forall|i: int|
                    0 <= i < mid.queues@.len() ==> (#[trigger] self.queues@[i]).0@
                        == mid.queues@[i].0@ && ((sub_done(subsv, k as int, mid.queues@[i].0@)
                        && mid.queues@[i].0@ != queue_name@ && pre.cluster.state.owns(
                        mid.queues@[i].0@,
                        pre.node_id,
                    )) ==> crate::queue::msg_views(self.queues@[i].1.contents())
                        == crate::queue::msg_views(mid.queues@[i].1.contents()).push(mv)) && (!(
                    sub_done(subsv, k as int, mid.queues@[i].0@) && mid.queues@[i].0@
                        != queue_name@ && pre.cluster.state.owns(
                        mid.queues@[i].0@,
                        pre.node_id,
                    )) ==> self.queues@[i].1.contents() == mid.queues@[i].1.contents()),
                forall|i: int|
                    mid.queues@.len() <= i < self.queues@.len() ==> sub_done(
                        subsv,
                        k as int,
                        (#[trigger] self.queues@[i]).0@,
                    ) && self.queues@[i].0@ != queue_name@ && pre.cluster.state.owns(
                        self.queues@[i].0@,
                        pre.node_id,
                    ) && crate::queue::msg_views(self.queues@[i].1.contents()) == seq![mv],
                forall|t: int|
                    0 <= t < forwards@.len() ==> pre.cluster.state.owns(
                        (#[trigger] forwards@[t]).queue@,
                        forwards@[t].node,
                    ) && forwards@[t].node != pre.node_id && subsv.contains(forwards@[t].queue@)
                        && forwards@[t].queue@ != queue_name@ && forwards@[t].message.id@ == mv.0
                        && forwards@[t].message.content@ == mv.1,
                forall|t: int|
                    0 <= t < k && (#[trigger] subsv[t]) != queue_name@ && !pre.cluster.state.owns(
                        subsv[t],
                        pre.node_id,
                    ) && pre.cluster.state.has_queue(subsv[t]) ==> exists|w: int|
                        0 <= w < forwards@.len() && (#[trigger] forwards@[w]).queue@ == subsv[t],
            decreases subs@.len() - k,
        {
            let ghost fwds0 = forwards@;
            let sq_is_main = subs[k] == *queue_name;
            if !sq_is_main {
                match self.cluster.get_queue_node(&subs[k]) {
                    None => {},
                    Some(so) => {
                        if so == self.node_id {
                            let ghost before_enq = *self;
                            self.enqueue_local(&subs[k], message.duplicate());
                            proof {
                                assert(subsv[k as int] == subs@[k as int]@);
                                assert(self.cluster.state.owns(subsv[k as int], so));
                                assert forall|i: int|
                                    0 <= i < before_enq.queues@.len() && before_enq.queues@[i].0@
                                        == subsv[k as int] implies crate::queue::msg_views(
                                    self.queues@[i].1.contents(),
                                ) == crate::queue::msg_views(
                                    before_enq.queues@[i].1.contents(),
                                ).push(mv) by {
                                    let c1 = before_enq.queues@[i].1.contents();
                                    let c2 = self.queues@[i].1.contents();
                                    assert(c2 == c1.push(c2.last()));
                                    assert(c2.last().id@ == mv.0 && c2.last().content@ == mv.1);
                                    assert(crate::queue::msg_views(c2)
                                        =~= crate::queue::msg_views(c1).push(mv));
                                }
                                if !before_enq.has_local_queue(subsv[k as int]) {
                                    let c2 = self.queues@.last().1.contents();
                                    assert(c2[0].id@ == mv.0 && c2[0].content@ == mv.1);
                                    assert(crate::queue::msg_views(c2) =~= seq![mv]);
                                }
                            }
                        } else {
                            forwards.push(
                                ForwardPublish {
                                    node: so,
                                    queue: subs[k].clone(),
                                    message: message.duplicate(),
                                },
                            );
                        }
                    },
                }
            }
            proof {
                assert(subsv[k as int] == subs@[k as int]@);
                assert forall|t: int|
                    0 <= t < k + 1 && (#[trigger] subsv[t]) != queue_name@
                        && !pre.cluster.state.owns(subsv[t], pre.node_id)
                        && pre.cluster.state.has_queue(subsv[t]) implies exists|w: int|
                    0 <= w < forwards@.len() && (#[trigger] forwards@[w]).queue@ == subsv[t] by {
                    if t == k as int {
                        assert(forwards@.last().queue@ == subsv[t]);
                    } else {
                        let w0 = choose|w: int|
                            0 <= w < fwds0.len() && (#[trigger] fwds0[w]).queue@ == subsv[t];
                        assert(forwards@[w0].queue@ == subsv[t]);
                    }
                }
            }
            k = k + 1;
        }
        proof {
            lemma_publish_compose(pre, mid, *self, queue_name@, mv, subsv, message);
            assert(self.node_id == pre.node_id);
            assert(self.cluster == pre.cluster);
            assert(self.subscribers@ == pre.subscribers@);
            assert(self.metrics == (MetricsRegistry {
                messages_published: bump(pre.metrics.messages_published),
                total_messages: bump(pre.metrics.total_messages),
                ..pre.metrics
            }));
            assert(pre.cluster.state.owns(queue_name@, pre.node_id));
            assert(pre.queues@.len() <= self.queues@.len());
            assert(self.has_local_queue(queue_name@));
            assert(forall|t: int|
                0 <= t < forwards@.len() ==> pre.cluster.state.owns(
                    (#[trigger] forwards@[t]).queue@,
                    forwards@[t].node,
                ) && forwards@[t].node != pre.node_id && subs_of(
                    pre.subscribers@,
                    queue_name@,
                ).contains(forwards@[t].queue@) && forwards@[t].queue@ != queue_name@
                    && forwards@[t].message.id@ == message.id@ && forwards@[t].message.content@
                    == message.content@);
            let sv = subs_of(pre.subscribers@, queue_name@);
            assert forall|t: int|
                0 <= t < sv.len() && (#[trigger] sv[t]) != queue_name@
                    && !pre.cluster.state.owns(sv[t], pre.node_id)
                    && pre.cluster.state.has_queue(sv[t]) implies exists|w: int|
                0 <= w < forwards@.len() && (#[trigger] forwards@[w]).queue@ == sv[t] by {
                assert(sv[t] == subsv[t]);
            }
            assert(forall|i: int|
                0 <= i < pre.queues@.len() ==> (#[trigger] self.queues@[i]).0@
                    == pre.queues@[i].0@ && (fan_target(pre, queue_name@, pre.queues@[i].0@)
                    ==> crate::queue::msg_views(self.queues@[i].1.contents())
                    == crate::queue::msg_views(pre.queues@[i].1.contents()).push(mv)) && (
                !fan_target(pre, queue_name@, pre.queues@[i].0@) ==> self.queues@[i].1.contents()
                    == pre.queues@[i].1.contents()));
            assert(forall|i: int|
                pre.queues@.len() <= i < self.queues@.len() ==> fan_target(
                    pre,
                    queue_name@,
                    (#[trigger] self.queues@[i]).0@,
                ) && crate::queue::msg_views(self.queues@[i].1.contents()) == seq![mv]);
            // fix the returned variant as a value so the match inside
            // publish_post reduces
            let rr = PublishOutcome::Local(forwards);
            assert(match rr {
                PublishOutcome::Local(fwds) => fwds == forwards,
                _ => false,
            });
            assert(publish_post(
                pre,
                *self,
                queue_name@,
                message.id@,
                message.content@,
                rr,
            ));
        }
        PublishOutcome::Local(forwards)
    }

    /// Consume from a queue: the owner dequeues from its durable queue;
    /// a non-owner hands back the owner's id; a queue without an owner
    /// yields nothing. The consume counters move only when a message
    /// actually comes out.
    pub fn consume(&mut self, queue_name: &String) -> (r: ConsumeOutcome)
        requires
            old(self).wf(),
        ensures
            final(self).wf(),
            final(self).node_id == old(self).node_id,
            final(self).cluster == old(self).cluster,
            final(self).subscribers@ == old(self).subscribers@,
            match r {
                ConsumeOutcome::NoOwner => !old(self).cluster.state.has_queue(queue_name@)
                    && *final(self) == *old(self),
                ConsumeOutcome::Remote(o) => old(self).cluster.state.owns(queue_name@, o) && o
                    != old(self).node_id && *final(self) == *old(self),
                ConsumeOutcome::Local(m_opt) => {
                    &&& old(self).cluster.state.owns(queue_name@, old(self).node_id)
                    &&& final(self).queues@.len() == old(self).queues@.len()
                    &&& forall|i: int|
                        0 <= i < old(self).queues@.len() ==> (#[trigger] final(self).queues@[i]).0@ == old(self).queues@[i].0@
                    &&& (!old(self).has_local_queue(queue_name@) ==> m_opt is None && *final(self)
                        == *old(self))
                    &&& forall|i: int|
                        0 <= i < old(self).queues@.len() && (#[trigger] old(self).queues@[i]).0@
                            == queue_name@ ==> (if old(self).queues@[i].1.contents().len() == 0 {
                            m_opt is None && final(self).queues@[i].1.contents() == old(self).queues@[i].1.contents() && final(self).metrics == old(self).metrics
                        } else {
                            m_opt == Some(old(self).queues@[i].1.contents()[0]) && final(self).queues@[i].1.contents() == old(self).queues@[i].1.contents().drop_first() && final(self).metrics
                                == (MetricsRegistry {
                                messages_consumed: bump(old(self).metrics.messages_consumed),
                                total_messages: drop_one(old(self).metrics.total_messages),
                                ..old(self).metrics
                            })
                        })
                    &&& forall|i: int|
                        0 <= i < old(self).queues@.len() && (#[trigger] old(self).queues@[i]).0@
                            != queue_name@ ==> final(self).queues@[i].1.contents() == old(self).queues@[i].1.contents()
                },
            },
    {
        let owner = match self.cluster.get_queue_node(queue_name) {
            None => {
                return ConsumeOutcome::NoOwner;
            },
            Some(o) => o,
        };
        if owner != self.node_id {
            return ConsumeOutcome::Remote(owner);
        }
        let mut i: usize = 0;
        while i < self.queues.len()
            invariant
                i <= self.queues@.len(),
                *self == *old(self),
                old(self).wf(),
                old(self).cluster.state.owns(queue_name@, old(self).node_id),
                forall|k: int| 0 <= k < i ==> (#[trigger] self.queues@[k]).0@ != queue_name@,
            decreases self.queues@.len() - i,
        {
            if self.queues[i].0 == *queue_name {
                let (nm, mut q) = self.queues.remove(i);
                let got = q.dequeue();
                self.queues.insert(i, (nm, q));
                proof {
                    assert(self.queues@ =~= old(self).queues@.update(
                        i as int,
                        self.queues@[i as int],
                    ));
                    assert(self.queues@[i as int].0@ == queue_name@);
                    assert(forall|t: int|
                        0 <= t < self.queues@.len() ==> (#[trigger] self.queues@[t]).0@ == old(self).queues@[t].0@);
                    assert(self.wf());
                }
                match got {
                    Some(m) => {
                        self.metrics.inc_consumed();
                        self.metrics.dec_total();
                        proof {
                            assert forall|t: int|
                                0 <= t < old(self).queues@.len() && (#[trigger] old(self).queues@[t]).0@ == queue_name@ implies t == i as int by {}
                        }
                        return ConsumeOutcome::Local(Some(m));
                    },
                    None => {
                        proof {
                            assert forall|t: int|
                                0 <= t < old(self).queues@.len() && (#[trigger] old(self).queues@[t]).0@ == queue_name@ implies t == i as int by {}
                            assert(self.queues@[i as int].1.contents() == old(self).queues@[i as int].1.contents());
                        }
                        return ConsumeOutcome::Local(None);
                    },
                }
            }
            i = i + 1;
        }
        ConsumeOutcome::Local(None)
    }

    /// Record (or re-address) a cluster member and rebalance queue
    /// ownership.
    pub fn add_node(&mut self, node_id: u64, address: String)
        requires
            old(self).wf(),
        ensures
            final(self).wf(),
            final(self).node_id == old(self).node_id,
            final(self).queues@ == old(self).queues@,
            final(self).subscribers@ == old(self).subscribers@,
            final(self).metrics == old(self).metrics,
            final(self).cluster.state.has_node(node_id),
            forall|m: u64|
                old(self).cluster.state.has_node(m) ==> final(self).cluster.state.has_node(m),
            final(self).cluster.state.queue_assignments@.len() == old(self).cluster.state.queue_assignments@.len(),
            forall|j: int|
                0 <= j < final(self).cluster.state.queue_assignments@.len() ==> (#[trigger] final(self).cluster.state.queue_assignments@[j]).0@ == old(self).cluster.state.queue_assignments@[j].0@,
            forall|i: int|
                0 <= i < final(self).cluster.state.node_loads@.len() ==> (#[trigger] final(self).cluster.state.node_loads@[i]).1 <= final(self).cluster.state.rebalance_target(),
    {
        self.cluster.add_node(node_id, address);
    }

    /// Remove a cluster member; its queues are reassigned and ownership
    /// rebalanced.
    pub fn remove_node(&mut self, node_id: u64)
        requires
            old(self).wf(),
        ensures
            final(self).wf(),
            final(self).node_id == old(self).node_id,
            final(self).queues@ == old(self).queues@,
            final(self).subscribers@ == old(self).subscribers@,
            final(self).metrics == old(self).metrics,
            !final(self).cluster.state.has_node(node_id),
    {
        self.cluster.remove_node(node_id);
    }

    /// Publish with a routing hint from the pluggable optimizer: a hint
    /// naming another member overrides the route and the message is
    /// forwarded there; any other hint falls back to the standard path.
    pub fn adaptive_publish(
        &mut self,
        queue_name: &String,
        message: Message,
        route_hint: Option<u64>,
    ) -> (r: PublishOutcome)
        requires
            old(self).wf(),
        ensures
            final(self).wf(),
            (match route_hint {
                Some(p) => old(self).cluster.state.has_node(p) && p != old(self).node_id,
                None => false,
            }) ==> {
                &&& r matches PublishOutcome::Remote(f) && f.node == route_hint->0 && f.queue@
                    == queue_name@ && f.message.id@ == message.id@ && f.message.content@
                    == message.content@
                &&& final(self).queues@ == old(self).queues@
                &&& final(self).cluster == old(self).cluster
                &&& final(self).subscribers@ == old(self).subscribers@
                &&& final(self).node_id == old(self).node_id
                &&& final(self).metrics == (MetricsRegistry {
                    messages_published: bump(old(self).metrics.messages_published),
                    total_messages: bump(old(self).metrics.total_messages),
                    ..old(self).metrics
                })
            },
            !(match route_hint {
                Some(p) => old(self).cluster.state.has_node(p) && p != old(self).node_id,
                None => false,
            }) ==> publish_post(
                *old(self),
                *final(self),
                queue_name@,
                message.id@,
                message.content@,
                r,
            ),
    {
        match route_hint {
            Some(p) => {
                if p != self.node_id && self.cluster.state.contains_node(p) {
                    self.metrics.inc_published();
                    self.metrics.inc_total();
                    return PublishOutcome::Remote(
                        ForwardPublish { node: p, queue: queue_name.clone(), message },
                    );
                }
                self.publish(queue_name, message)
            },
            None => self.publish(queue_name, message),
        }
    }
}

/// Whether `v` lists a string equal to `x`.
fn string_listed(v: &Vec<String>, x: &String) -> (r: bool)
    ensures
        r == exists|t: int| 0 <= t < v@.len() && (#[trigger] v@[t])@ == x@,
{
    let mut k: usize = 0;
    while k < v.len()
        invariant
            k <= v@.len(),
            forall|t: int| 0 <= t < k ==> (#[trigger] v@[t])@ != x@,
        decreases v@.len() - k,
    {
        if v[k] == *x {
            return true;
        }
        k = k + 1;
    }
    false
}

/// The metric values of a fresh registry.
pub open spec fn register_spec() -> MetricsRegistry {
    MetricsRegistry { messages_published: 0, messages_consumed: 0, queue_count: 0, total_messages: 0 }
}

/// An entry of the subscriber list before position `k`.
pub open spec fn sub_done(subsv: Seq<Seq<char>>, k: int, x: Seq<char>) -> bool {
    exists|t: int| 0 <= t < k && #[trigger] subsv[t] == x
}

/// Everything `publish` promises, relating the node before (`pre`) and
/// after (`post`) publishing a message with id `mid_` and content
/// `mcontent` to queue `q`.
pub open spec fn publish_post(
    pre: RapidMQ,
    post: RapidMQ,
    q: Seq<char>,
    mid_: Seq<char>,
    mcontent: Seq<char>,
    r: PublishOutcome,
) -> bool {
    let mv = (mid_, mcontent);
    let subsv = subs_of(pre.subscribers@, q);
    &&& post.node_id == pre.node_id
    &&& post.cluster == pre.cluster
    &&& post.subscribers@ == pre.subscribers@
    &&& post.metrics == (MetricsRegistry {
        messages_published: bump(pre.metrics.messages_published),
        total_messages: bump(pre.metrics.total_messages),
        ..pre.metrics
    })
    &&& match r {
        PublishOutcome::NoOwner => !pre.cluster.state.has_queue(q) && post.queues@ == pre.queues@,
        PublishOutcome::Remote(f) => pre.cluster.state.owns(q, f.node) && f.node != pre.node_id
            && f.queue@ == q && f.message.id@ == mid_ && f.message.content@ == mcontent
            && post.queues@ == pre.queues@,
        PublishOutcome::Local(fwds) => {
            &&& pre.cluster.state.owns(q, pre.node_id)
            &&& pre.queues@.len() <= post.queues@.len()
            &&& forall|i: int|
                0 <= i < pre.queues@.len() ==> (#[trigger] post.queues@[i]).0@
                    == pre.queues@[i].0@ && (fan_target(pre, q, pre.queues@[i].0@)
                    ==> crate::queue::msg_views(post.queues@[i].1.contents())
                    == crate::queue::msg_views(pre.queues@[i].1.contents()).push(mv)) && (
                !fan_target(pre, q, pre.queues@[i].0@) ==> post.queues@[i].1.contents()
                    == pre.queues@[i].1.contents())
            &&& forall|i: int|
                pre.queues@.len() <= i < post.queues@.len() ==> fan_target(
                    pre,
                    q,
                    (#[trigger] post.queues@[i]).0@,
                ) && crate::queue::msg_views(post.queues@[i].1.contents()) == seq![mv]
            &&& post.has_local_queue(q)
            &&& forall|t: int|
                0 <= t < fwds@.len() ==> pre.cluster.state.owns(
                    (#[trigger] fwds@[t]).queue@,
                    fwds@[t].node,
                ) && fwds@[t].node != pre.node_id && subsv.contains(fwds@[t].queue@)
                    && fwds@[t].queue@ != q && fwds@[t].message.id@ == mid_
                    && fwds@[t].message.content@ == mcontent
            &&& forall|t: int|
                0 <= t < subsv.len() && (#[trigger] subsv[t]) != q && !pre.cluster.state.owns(
                    subsv[t],
                    pre.node_id,
                ) && pre.cluster.state.has_queue(subsv[t]) ==> exists|w: int|
                    0 <= w < fwds@.len() && (#[trigger] fwds@[w]).queue@ == subsv[t]
        },
    }
}

/// A name matching no entry has no subscribers.
proof fn lemma_subs_of_missing(subs: Seq<(String, Vec<String>)>, q: Seq<char>)
    requires
        forall|k: int| 0 <= k < subs.len() ==> (#[trigger] subs[k]).0@ != q,
    ensures
        subs_of(subs, q) == Seq::<Seq<char>>::empty(),
    decreases subs.len(),
{
    if subs.len() > 0 {
        lemma_subs_of_missing(subs.drop_first(), q);
    }
}

/// Under the node invariant, a queue's subscriber list has no
/// duplicates.
proof fn lemma_subs_of_distinct(subs: Seq<(String, Vec<String>)>, q: Seq<char>)
    requires
        forall|i: int, a: int, b: int|
            #![trigger subs[i].1@[a], subs[i].1@[b]]
            0 <= i < subs.len() && 0 <= a < b < subs[i].1@.len() ==> subs[i].1@[a]@
                != subs[i].1@[b]@,
    ensures
        forall|a: int, b: int|
            0 <= a < b < subs_of(subs, q).len() ==> subs_of(subs, q)[a] != subs_of(subs, q)[b],
    decreases subs.len(),
{
    if subs.len() > 0 {
        if subs[0].0@ == q {
            let m = subs[0].1@.map_values(|s: String| s@);
            assert forall|a: int, b: int| 0 <= a < b < m.len() implies m[a] != m[b] by {
                assert(m[a] == subs[0].1@[a]@);
                assert(m[b] == subs[0].1@[b]@);
                assert(subs[0].1@[a]@ != subs[0].1@[b]@);
            }
            assert(subs_of(subs, q) == m);
        } else {
            assert(forall|i: int, a: int, b: int|
                #![trigger subs.drop_first()[i].1@[a], subs.drop_first()[i].1@[b]]
                0 <= i < subs.drop_first().len() && 0 <= a < b < subs.drop_first()[i].1@.len()
                    ==> subs.drop_first()[i].1@[a]@ != subs.drop_first()[i].1@[b]@);
            lemma_subs_of_distinct(subs.drop_first(), q);
            assert(subs_of(subs, q) == subs_of(subs.drop_first(), q));
        }
    }
}

/// Composes the owner-side delivery: the state after the main enqueue
/// and the fan-out loop satisfies the local-delivery clauses of
/// `publish_post` with respect to the original state.
proof fn lemma_publish_compose(
    pre: RapidMQ,
    mid: RapidMQ,
    post: RapidMQ,
    q: Seq<char>,
    mv: (Seq<char>, Seq<char>),
    subsv: Seq<Seq<char>>,
    message: Message,
)
    requires
        pre.wf(),
        subsv == subs_of(pre.subscribers@, q),
        message.id@ == mv.0,
        message.content@ == mv.1,
        // mid is pre after the main enqueue of a copy of the message
        pre.queues@.len() <= mid.queues@.len() <= pre.queues@.len() + 1,
        forall|i: int|
            0 <= i < pre.queues@.len() ==> (#[trigger] mid.queues@[i]).0@ == pre.queues@[i].0@ && (
            pre.queues@[i].0@ != q ==> mid.queues@[i].1.contents() == pre.queues@[i].1.contents())
                && (pre.queues@[i].0@ == q ==> crate::queue::msg_views(
                mid.queues@[i].1.contents(),
            ) == crate::queue::msg_views(pre.queues@[i].1.contents()).push(mv)),
        !pre.has_local_queue(q) ==> mid.queues@.len() == pre.queues@.len() + 1
            && mid.queues@.last().0@ == q && crate::queue::msg_views(
            mid.queues@.last().1.contents(),
        ) == seq![mv],
        pre.has_local_queue(q) ==> mid.queues@.len() == pre.queues@.len(),
        mid.has_local_queue(q),
        // post is mid after the fan-out loop
        mid.queues@.len() <= post.queues@.len(),
        forall|i: int|
            0 <= i < mid.queues@.len() ==> (#[trigger] post.queues@[i]).0@ == mid.queues@[i].0@
                && ((sub_done(subsv, subsv.len() as int, mid.queues@[i].0@) && mid.queues@[i].0@
                != q && pre.cluster.state.owns(mid.queues@[i].0@, pre.node_id))
                ==> crate::queue::msg_views(post.queues@[i].1.contents())
                == crate::queue::msg_views(mid.queues@[i].1.contents()).push(mv)) && (!(sub_done(
                subsv,
                subsv.len() as int,
                mid.queues@[i].0@,
            ) && mid.queues@[i].0@ != q && pre.cluster.state.owns(mid.queues@[i].0@, pre.node_id))
                ==> post.queues@[i].1.contents() == mid.queues@[i].1.contents()),
        forall|i: int|
            mid.queues@.len() <= i < post.queues@.len() ==> sub_done(
                subsv,
                subsv.len() as int,
                (#[trigger] post.queues@[i]).0@,
            ) && post.queues@[i].0@ != q && pre.cluster.state.owns(
                post.queues@[i].0@,
                pre.node_id,
            ) && crate::queue::msg_views(post.queues@[i].1.contents()) == seq![mv],
    ensures
        pre.queues@.len() <= post.queues@.len(),
        forall|i: int|
            0 <= i < pre.queues@.len() ==> (#[trigger] post.queues@[i]).0@ == pre.queues@[i].0@
                && (fan_target(pre, q, pre.queues@[i].0@) ==> crate::queue::msg_views(
                post.queues@[i].1.contents(),
            ) == crate::queue::msg_views(pre.queues@[i].1.contents()).push(mv)) && (!fan_target(
                pre,
                q,
                pre.queues@[i].0@,
            ) ==> post.queues@[i].1.contents() == pre.queues@[i].1.contents()),
        forall|i: int|
            pre.queues@.len() <= i < post.queues@.len() ==> fan_target(
                pre,
                q,
                (#[trigger] post.queues@[i]).0@,
            ) && crate::queue::msg_views(post.queues@[i].1.contents()) == seq![mv],
        post.has_local_queue(q),
{
    assert(forall|x: Seq<char>|
        sub_done(subsv, subsv.len() as int, x) == subsv.contains(x));
    assert forall|i: int|
        0 <= i < pre.queues@.len() implies (#[trigger] post.queues@[i]).0@ == pre.queues@[i].0@
        && (fan_target(pre, q, pre.queues@[i].0@) ==> crate::queue::msg_views(
        post.queues@[i].1.contents(),
    ) == crate::queue::msg_views(pre.queues@[i].1.contents()).push(mv)) && (!fan_target(
        pre,
        q,
        pre.queues@[i].0@,
    ) ==> post.queues@[i].1.contents() == pre.queues@[i].1.contents()) by {
        let x = pre.queues@[i].0@;
        if x == q {
            assert(post.queues@[i].1.contents() == mid.queues@[i].1.contents());
        }
    }
    assert forall|i: int|
        pre.queues@.len() <= i < post.queues@.len() implies fan_target(
        pre,
        q,
        (#[trigger] post.queues@[i]).0@,
    ) && crate::queue::msg_views(post.queues@[i].1.contents()) == seq![mv] by {
        if i < mid.queues@.len() {
            assert(mid.queues@[i].0@ == q);
            assert(post.queues@[i].1.contents() == mid.queues@[i].1.contents());
        }
    }
    let w = choose|w: int| 0 <= w < mid.queues@.len() && (#[trigger] mid.queues@[w]).0@ == q;
    assert(post.queues@[w].0@ == q);
}

/// Updating entry `i` only affects lookups whose first match is `i`.
proof fn lemma_subs_of_update(
    subs: Seq<(String, Vec<String>)>,
    i: int,
    x: (String, Vec<String>),
    q: Seq<char>,
)
    requires
        0 <= i < subs.len(),
        forall|k: int| 0 <= k < i ==> (#[trigger] subs[k]).0@ != q,
        subs[i].0@ == q,
        x.0@ == q,
    ensures
        subs_of(subs.update(i, x), q) == x.1@.map_values(|s: String| s@),
        forall|y: Seq<char>| y != q ==> subs_of(subs.update(i, x), y) == subs_of(subs, y),
    decreases subs.len(),
{
    let upd = subs.update(i, x);
    if i == 0 {
        assert(upd[0] == x);
        assert(upd.drop_first() =~= subs.drop_first());
        assert forall|y: Seq<char>| y != q implies subs_of(upd, y) == subs_of(subs, y) by {
            assert(subs[0].0@ == q);
        }
    } else {
        assert(upd[0] == subs[0]);
        assert(upd.drop_first() =~= subs.drop_first().update(i - 1, x));
        lemma_subs_of_update(subs.drop_first(), i - 1, x, q);
        assert forall|y: Seq<char>| y != q implies subs_of(upd, y) == subs_of(subs, y) by {
            if subs[0].0@ == y {
            } else {
                assert(subs_of(upd.drop_first(), y) == subs_of(subs.drop_first(), y));
            }
        }
    }
}

/// A lookup resolves to its first matching entry./// A lookup resolves to its first matching entry.
proof fn lemma_subs_of_first_match(subs: Seq<(String, Vec<String>)>, i: int, q: Seq<char>)
    requires
        0 <= i < subs.len(),
        forall|k: int| 0 <= k < i ==> (#[trigger] subs[k]).0@ != q,
        subs[i].0@ == q,
    ensures
        subs_of(subs, q) == subs[i].1@.map_values(|s: String| s@),
    decreases subs.len(),
{
    if i > 0 {
        lemma_subs_of_first_match(subs.drop_first(), i - 1, q);
    }
}

/// Appending an entry for a fresh name does not change other lookups,
/// and gives the fresh name that entry's list.
proof fn lemma_subs_of_absent_push(
    subs: Seq<(String, Vec<String>)>,
    x: (String, Vec<String>),
    q: Seq<char>,
)
    requires
        forall|k: int| 0 <= k < subs.len() ==> (#[trigger] subs[k]).0@ != q,
        x.0@ == q,
    ensures
        subs_of(subs.push(x), q) == x.1@.map_values(|s: String| s@),
        subs_of(subs, q) == Seq::<Seq<char>>::empty(),
    decreases subs.len(),
{
    if subs.len() == 0 {
        assert(subs.push(x)[0] == x);
    } else {
        assert(subs.push(x)[0] == subs[0]);
        assert(subs.push(x).drop_first() =~= subs.drop_first().push(x));
        lemma_subs_of_absent_push(subs.drop_first(), x, q);
    }
}

/// Appending an entry does not change lookups of other names.
proof fn lemma_subs_of_snoc_other(
    subs: Seq<(String, Vec<String>)>,
    x: (String, Vec<String>),
    y: Seq<char>,
)
    requires
        x.0@ != y,
    ensures
        subs_of(subs.push(x), y) == subs_of(subs, y),
    decreases subs.len(),
{
    if subs.len() == 0 {
        assert(subs.push(x)[0] == x);
        assert(subs.push(x).drop_first() =~= Seq::<(String, Vec<String>)>::empty());
        assert(subs_of(Seq::<(String, Vec<String>)>::empty(), y) =~= Seq::<Seq<char>>::empty());
    } else {
        assert(subs.push(x)[0] == subs[0]);
        assert(subs.push(x).drop_first() =~= subs.drop_first().push(x));
        lemma_subs_of_snoc_other(subs.drop_first(), x, y);
    }
}

} // verus!
