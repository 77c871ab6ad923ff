//! The edge store-and-forward buffer.
//!
//! A disconnected producer stores messages here; each is `pending` until
//! the broker acknowledges it, then `sent`. Capacity bounds the pending
//! set, expired messages are purged before every sync and never
//! delivered, and a sync hands out the pending messages in descending
//! priority (ties by arrival order) up to a bandwidth limit — without
//! removing them, so a failed transfer loses nothing; only an explicit
//! acknowledgement moves messages to `sent`.

use vstd::prelude::*;

verus! {

/// The mathematical value of a buffered message.
pub ghost struct EdgeMessageV {
    pub local_id: u64,
    pub topic: Seq<char>,
    pub payload: Seq<char>,
    pub timestamp: u64,
    pub priority: u8,
    pub expiration: Option<u64>,
}

/// A buffered message: buffer-assigned id, topic, payload, creation
/// time, priority in `1..=5`, and an optional expiration instant.
pub struct EdgeMessage {
    pub local_id: u64,
    pub topic: String,
    pub payload: String,
    pub timestamp: u64,
    pub priority: u8,
    pub expiration: Option<u64>,
}

impl View for EdgeMessage {
    type V = EdgeMessageV;

    open spec fn view(&self) -> EdgeMessageV {
        EdgeMessageV {
            local_id: self.local_id,
            topic: self.topic@,
            payload: self.payload@,
            timestamp: self.timestamp,
            priority: self.priority,
            expiration: self.expiration,
        }
    }
}

impl EdgeMessage {
    /// Deep copy; the result has the same value.
    pub fn duplicate(&self) -> (r: EdgeMessage)
        ensures
            r@ == self@,
    {
        EdgeMessage {
            local_id: self.local_id,
            topic: self.topic.clone(),
            payload: self.payload.clone(),
            timestamp: self.timestamp,
            priority: self.priority,
            expiration: self.expiration,
        }
    }
}

/// `store_message` failure: the pending set is at capacity.
#[derive(Debug, PartialEq, Eq, Structural)]
pub enum EdgeError {
    CapacityExceeded,
}

/// A message whose expiration has passed at time `now`.
pub open spec fn is_expired(m: EdgeMessageV, now: u64) -> bool {
    match m.expiration {
        Some(e) => now > e,
        None => false,
    }
}

pub open spec fn msg_seq(s: Seq<EdgeMessage>) -> Seq<EdgeMessageV> {
    s.map_values(|m: EdgeMessage| m@)
}

/// The not-yet-expired messages of `s`, order kept.
pub open spec fn keep_unexpired(s: Seq<EdgeMessageV>, now: u64) -> Seq<EdgeMessageV>
    decreases s.len(),
{
    if s.len() == 0 {
        Seq::empty()
    } else {
        let rest = keep_unexpired(s.drop_first(), now);
        if is_expired(s[0], now) {
            rest
        } else {
            seq![s[0]] + rest
        }
    }
}

/// The messages of `s` with priority `p`, order kept.
pub open spec fn sel_priority(s: Seq<EdgeMessageV>, p: u8) -> Seq<EdgeMessageV>
    decreases s.len(),
{
    if s.len() == 0 {
        Seq::empty()
    } else {
        let rest = sel_priority(s.drop_first(), p);
        if s[0].priority == p {
            seq![s[0]] + rest
        } else {
            rest
        }
    }
}

/// The messages of priority `p` and below, highest priority first.
pub open spec fn by_priority_down(s: Seq<EdgeMessageV>, p: u8) -> Seq<EdgeMessageV>
    decreases p,
{
    if p == 0 {
        Seq::empty()
    } else {
        sel_priority(s, p) + by_priority_down(s, (p - 1) as u8)
    }
}

/// `s` reordered by descending priority, ties by arrival order.
pub open spec fn by_priority(s: Seq<EdgeMessageV>) -> Seq<EdgeMessageV> {
    by_priority_down(s, 5)
}

/// What one sync hands out: the priority ordering of the unexpired
/// pending messages, cut to the bandwidth limit.
pub open spec fn sync_spec(s: Seq<EdgeMessageV>, now: u64, limit: Option<usize>) -> Seq<
    EdgeMessageV,
> {
    let ordered = by_priority(keep_unexpired(s, now));
    match limit {
        None => ordered,
        Some(l) => {
            if l < ordered.len() {
                ordered.take(l as int)
            } else {
                ordered
            }
        },
    }
}

/// The messages of `s` whose id is not listed in `ids`, order kept.
pub open spec fn without_ids(s: Seq<EdgeMessageV>, ids: Seq<u64>) -> Seq<EdgeMessageV>
    decreases s.len(),
{
    if s.len() == 0 {
        Seq::empty()
    } else {
        let rest = without_ids(s.drop_first(), ids);
        if ids.contains(s[0].local_id) {
            rest
        } else {
            seq![s[0]] + rest
        }
    }
}

/// The messages of `s` whose id is listed in `ids`, order kept.
pub open spec fn with_ids(s: Seq<EdgeMessageV>, ids: Seq<u64>) -> Seq<EdgeMessageV>
    decreases s.len(),
{
    if s.len() == 0 {
        Seq::empty()
    } else {
        let rest = with_ids(s.drop_first(), ids);
        if ids.contains(s[0].local_id) {
            seq![s[0]] + rest
        } else {
            rest
        }
    }
}

/// The edge buffer: identity, capacity and interval configuration, the
/// id counter, and the pending and sent messages.
pub struct EdgeNode {
    pub node_id: String,
    pub broker_url: String,
    pub capacity: usize,
    pub sync_interval: u64,
    pub next_id: u64,
    pub pending: Vec<EdgeMessage>,
    pub sent: Vec<EdgeMessage>,
}

impl EdgeNode {
    pub open spec fn pending_v(self) -> Seq<EdgeMessageV> {
        msg_seq(self.pending@)
    }

    pub open spec fn sent_v(self) -> Seq<EdgeMessageV> {
        msg_seq(self.sent@)
    }

    /// Priorities are in range and pending ids are distinct and below
    /// the id counter.
    pub open spec fn wf(self) -> bool {
        &&& forall|i: int|
            0 <= i < self.pending@.len() ==> 1 <= (#[trigger] self.pending@[i])@.priority <= 5
        &&& forall|i: int, j: int|
            0 <= i < j < self.pending@.len() ==> self.pending@[i]@.local_id
                != self.pending@[j]@.local_id
        &&& forall|i: int|
            0 <= i < self.pending@.len() ==> (#[trigger] self.pending@[i])@.local_id
                < self.next_id
    }

    /// A fresh buffer with nothing pending and nothing sent.
    pub fn new(node_id: String, broker_url: String, capacity: usize, sync_interval: u64) -> (r:
        EdgeNode)
        ensures
            r.wf(),
            r.node_id@ == node_id@,
            r.broker_url@ == broker_url@,
            r.capacity == capacity,
            r.sync_interval == sync_interval,
            r.pending_v().len() == 0,
            r.sent_v().len() == 0,
    {
        EdgeNode {
            node_id,
            broker_url,
            capacity,
            sync_interval,
            next_id: 0,
            pending: Vec::new(),
            sent: Vec::new(),
        }
    }

    /// Buffer a message. A full buffer rejects it with no side effect at
    /// all; otherwise it is appended as pending under a fresh id, which
    /// is returned.
    pub fn store_message(
        &mut self,
        topic: String,
        payload: String,
        priority: u8,
        expiration: Option<u64>,
        now: u64,
    ) -> (r: Result<u64, EdgeError>)
        requires
            old(self).wf(),
            1 <= priority <= 5,
        ensures
            final(self).wf(),
            final(self).capacity == old(self).capacity,
            final(self).sent@ == old(self).sent@,
            old(self).pending@.len() >= old(self).capacity ==> r == Result::<
                u64,
                EdgeError,
            >::Err(EdgeError::CapacityExceeded) && *final(self) == *old(self),
            old(self).pending@.len() < old(self).capacity ==> {
                &&& r is Ok
                &&& final(self).pending_v().len() == old(self).pending_v().len() + 1
                &&& final(self).pending_v().last() == (EdgeMessageV {
                    local_id: r->Ok_0,
                    topic: topic@,
                    payload: payload@,
                    timestamp: now,
                    priority,
                    expiration,
                })
                &&& (old(self).next_id < u64::MAX
                    ==> final(self).pending_v().drop_last() == old(self).pending_v() && r
                    == Result::<u64, EdgeError>::Ok(old(self).next_id))
            },
    {
        if self.pending.len() >= self.capacity {
            return Err(EdgeError::CapacityExceeded);
        }
        if self.next_id == u64::MAX {
            self.compact_ids();
        }
        let id = self.next_id;
        let msg = EdgeMessage {
            local_id: id,
            topic,
            payload,
            timestamp: now,
            priority,
            expiration,
        };
        let ghost before = *self;
        self.pending.push(msg);
        self.next_id = id + 1;
        proof {
            assert(self.pending_v().drop_last() =~= msg_seq(before.pending@));
            assert(self.pending_v().last() == self.pending@[self.pending@.len() - 1]@);
        }
        Ok(id)
    }

    /// Renumber pending ids to `0..len`, resetting the counter; used only
    /// when the id counter is exhausted.
    fn compact_ids(&mut self)
        requires
            old(self).wf(),
            old(self).pending@.len() < old(self).capacity,
        ensures
            final(self).wf(),
            final(self).capacity == old(self).capacity,
            final(self).sent@ == old(self).sent@,
            final(self).node_id == old(self).node_id,
            final(self).broker_url == old(self).broker_url,
            final(self).sync_interval == old(self).sync_interval,
            final(self).pending@.len() == old(self).pending@.len(),
            final(self).next_id < u64::MAX,
            forall|i: int|
                0 <= i < final(self).pending@.len() ==> (#[trigger] final(self).pending@[i])@
                    == (EdgeMessageV { local_id: i as u64, ..old(self).pending@[i]@ }),
    {
        let total = self.pending.len();
        let mut fresh: Vec<EdgeMessage> = Vec::new();
        let mut i: usize = 0;
        while i < self.pending.len()
            invariant
                i <= self.pending@.len(),
                self.pending@.len() == total as int,
                fresh@.len() == i as int,
                forall|a: int|
                    0 <= a < i ==> (#[trigger] fresh@[a])@ == (EdgeMessageV {
                        local_id: a as u64,
                        ..self.pending@[a]@
                    }),
            decreases self.pending@.len() - i,
        {
            let mut m = self.pending[i].duplicate();
            m.local_id = i as u64;
            fresh.push(m);
            i = i + 1;
        }
        self.pending = fresh;
        self.next_id = total as u64;
    }

    /// Copies of the first `limit` pending messages, in arrival order.
    pub fn get_pending_messages(&self, limit: usize) -> (r: Vec<EdgeMessage>)
        ensures
            msg_seq(r@) == (if limit < self.pending@.len() {
                self.pending_v().take(limit as int)
            } else {
                self.pending_v()
            }),
    {
        let n = if limit < self.pending.len() {
            limit
        } else {
            self.pending.len()
        };
        let mut r: Vec<EdgeMessage> = Vec::new();
        let mut i: usize = 0;
        while i < n
            invariant
                i <= n,
                n <= self.pending@.len(),
                r@.len() == i as int,
                forall|a: int| 0 <= a < i ==> (#[trigger] r@[a])@ == self.pending@[a]@,
            decreases n - i,
        {
            r.push(self.pending[i].duplicate());
            i = i + 1;
        }
        proof {
            if limit < self.pending@.len() {
                assert(msg_seq(r@) =~= self.pending_v().take(limit as int));
            } else {
                assert(msg_seq(r@) =~= self.pending_v());
            }
        }
        r
    }

    /// Drop every pending message whose expiration has passed.
    pub fn purge_expired(&mut self, now: u64)
        requires
            old(self).wf(),
        ensures
            final(self).wf(),
            final(self).capacity == old(self).capacity,
            final(self).next_id == old(self).next_id,
            final(self).sent@ == old(self).sent@,
            final(self).node_id == old(self).node_id,
            final(self).broker_url == old(self).broker_url,
            final(self).sync_interval == old(self).sync_interval,
            final(self).pending_v() == keep_unexpired(old(self).pending_v(), now),
    {
        let ghost orig = msg_seq(self.pending@);
        let mut kept: Vec<EdgeMessage> = Vec::new();
        let mut i: usize = 0;
        while i < self.pending.len()
            invariant
                i <= self.pending@.len(),
                orig == msg_seq(self.pending@),
                msg_seq(kept@) == keep_prefix(orig, now, i as int),
            decreases self.pending@.len() - i,
        {
            let ghost prev = msg_seq(kept@);
            let expired = match self.pending[i].expiration {
                Some(e) => now > e,
                None => false,
            };
            if !expired {
                kept.push(self.pending[i].duplicate());
            }
            proof {
                assert(expired == is_expired(orig[i as int], now));
                lemma_keep_prefix_snoc(orig, now, i as int);
                if !expired {
                    assert(msg_seq(kept@) =~= prev.push(orig[i as int]));
                }
            }
            i = i + 1;
        }
        proof {
            lemma_keep_prefix_all(orig, now);
        }
        self.pending = kept;
        proof {
            assert(forall|a: int, b: int|
                0 <= a < b < orig.len() ==> orig[a].local_id != orig[b].local_id);
            lemma_keep_preserves(orig, now);
            let k = keep_unexpired(orig, now);
            assert forall|a: int|
                0 <= a < self.pending@.len() implies 1 <= (
            #[trigger] self.pending@[a])@.priority <= 5 && self.pending@[a]@.local_id
                < self.next_id by {
                assert(self.pending_v()[a] == self.pending@[a]@);
                assert(self.pending_v()[a] == k[a]);
                assert(appears_in(orig, k[a]));
                let b = choose|b: int| 0 <= b < orig.len() && #[trigger] orig[b] == k[a];
                assert(orig[b] == old(self).pending@[b]@);
            }
            assert forall|i2: int, j2: int|
                0 <= i2 < j2 < self.pending@.len() implies self.pending@[i2]@.local_id
                != self.pending@[j2]@.local_id by {
                assert(self.pending_v()[i2] == self.pending@[i2]@);
                assert(self.pending_v()[j2] == self.pending@[j2]@);
                assert(k[i2].local_id != k[j2].local_id);
            }
            assert(self.wf());
        }
    }

    /// One sync attempt's batch: purge expired messages, then hand out
    /// copies of the pending messages in descending priority, ties by
    /// arrival order, up to `bandwidth_limit` of them. Nothing is
    /// removed here: the batch stays pending until `mark_messages_sent`
    /// confirms it, so a transfer that fails mid-flight loses nothing.
    pub fn sync(&mut self, bandwidth_limit: Option<usize>, now: u64) -> (r: Vec<EdgeMessage>)
        requires
            old(self).wf(),
        ensures
            final(self).wf(),
            final(self).capacity == old(self).capacity,
            final(self).next_id == old(self).next_id,
            final(self).sent@ == old(self).sent@,
            final(self).node_id == old(self).node_id,
            final(self).broker_url == old(self).broker_url,
            final(self).sync_interval == old(self).sync_interval,
            final(self).pending_v() == keep_unexpired(old(self).pending_v(), now),
            msg_seq(r@) == sync_spec(old(self).pending_v(), now, bandwidth_limit),
            forall|i: int| 0 <= i < r@.len() ==> !is_expired((#[trigger] r@[i])@, now),
    {
        self.purge_expired(now);
        let ghost purged = self.pending_v();
        let mut ordered: Vec<EdgeMessage> = Vec::new();
        let mut p: u8 = 5;
        while p > 0
            invariant
                p <= 5,
                purged == msg_seq(self.pending@),
                by_priority_down(purged, 5) == msg_seq(ordered@) + by_priority_down(purged, p),
            decreases p,
        {
            let ghost base = msg_seq(ordered@);
            let mut i: usize = 0;
            while i < self.pending.len()
                invariant
                    i <= self.pending@.len(),
                    purged == msg_seq(self.pending@),
                    msg_seq(ordered@) == base + sel_priority(purged.take(i as int), p),
                decreases self.pending@.len() - i,
            {
                let ghost prev = msg_seq(ordered@);
                if self.pending[i].priority == p {
                    ordered.push(self.pending[i].duplicate());
                }
                proof {
                    lemma_sel_snoc(purged.take(i as int), purged[i as int], p);
                    assert(purged.take(i as int + 1) =~= purged.take(i as int).push(
                        purged[i as int],
                    ));
                    if self.pending@[i as int]@.priority == p {
                        assert(msg_seq(ordered@) =~= prev.push(purged[i as int]));
                        assert(base + sel_priority(purged.take(i as int), p).push(
                            purged[i as int],
                        ) =~= (base + sel_priority(purged.take(i as int), p)).push(
                            purged[i as int],
                        ));
                    }
                }
                i = i + 1;
            }
            proof {
                assert(purged.take(purged.len() as int) =~= purged);
                assert(by_priority_down(purged, p) == sel_priority(purged, p)
                    + by_priority_down(purged, (p - 1) as u8));
                assert(msg_seq(ordered@) + by_priority_down(purged, (p - 1) as u8) =~= (base
                    + sel_priority(purged, p)) + by_priority_down(purged, (p - 1) as u8));
                assert(base + (sel_priority(purged, p) + by_priority_down(
                    purged,
                    (p - 1) as u8,
                )) =~= (base + sel_priority(purged, p)) + by_priority_down(
                    purged,
                    (p - 1) as u8,
                ));
            }
            p = p - 1;
        }
        proof {
            assert(msg_seq(ordered@) + Seq::<EdgeMessageV>::empty() =~= msg_seq(ordered@));
            assert(msg_seq(ordered@) == by_priority(purged));
        }
        match bandwidth_limit {
            Some(l) => {
                if l < ordered.len() {
                    ordered.truncate(l);
                    proof {
                        assert(msg_seq(ordered@) =~= by_priority(purged).take(l as int));
                    }
                }
            },
            None => {},
        }
        proof {
            lemma_keep_all_unexpired(msg_seq(old(self).pending@), now);
            lemma_by_down_appears(purged, 5);
            assert forall|i: int| 0 <= i < ordered@.len() implies !is_expired(
                (#[trigger] ordered@[i])@,
                now,
            ) by {
                let bp = by_priority(purged);
                assert(msg_seq(ordered@)[i] == ordered@[i]@);
                assert(appears_in(purged, bp[i]));
                let b = choose|b: int| 0 <= b < purged.len() && #[trigger] purged[b] == bp[i];
            }
        }
        ordered
    }

    /// Record the broker's acknowledgement: the listed messages leave the
    /// pending set and are kept as sent; everything else stays pending.
    pub fn mark_messages_sent(&mut self, ids: &Vec<u64>)
        requires
            old(self).wf(),
        ensures
            final(self).wf(),
            final(self).capacity == old(self).capacity,
            final(self).next_id == old(self).next_id,
            final(self).node_id == old(self).node_id,
            final(self).broker_url == old(self).broker_url,
            final(self).sync_interval == old(self).sync_interval,
            final(self).pending_v() == without_ids(old(self).pending_v(), ids@),
            final(self).sent_v() == old(self).sent_v() + with_ids(old(self).pending_v(), ids@),
    {
        let ghost orig = msg_seq(self.pending@);
        let mut keep: Vec<EdgeMessage> = Vec::new();
        let mut moved: Vec<EdgeMessage> = Vec::new();
        let mut i: usize = 0;
        while i < self.pending.len()
            invariant
                i <= self.pending@.len(),
                orig == msg_seq(self.pending@),
                msg_seq(keep@) == without_ids(orig.take(i as int), ids@),
                msg_seq(moved@) == with_ids(orig.take(i as int), ids@),
            decreases self.pending@.len() - i,
        {
            let ghost pk = msg_seq(keep@);
            let ghost pm = msg_seq(moved@);
            let acked = ids_contain(ids, self.pending[i].local_id);
            if acked {
                moved.push(self.pending[i].duplicate());
            } else {
                keep.push(self.pending[i].duplicate());
            }
            proof {
                lemma_split_snoc(orig.take(i as int), orig[i as int], ids@);
                assert(orig.take(i as int + 1) =~= orig.take(i as int).push(orig[i as int]));
                if acked {
                    assert(msg_seq(moved@) =~= pm.push(orig[i as int]));
                } else {
                    assert(msg_seq(keep@) =~= pk.push(orig[i as int]));
                }
            }
            i = i + 1;
        }
        proof {
            assert(orig.take(orig.len() as int) =~= orig);
        }
        self.pending = keep;
        let ghost sent_before = msg_seq(self.sent@);
        let mut moved2 = moved;
        self.sent.append(&mut moved2);
        proof {
            assert(msg_seq(self.sent@) =~= sent_before + with_ids(orig, ids@));
            assert(forall|a: int, b: int|
                0 <= a < b < orig.len() ==> orig[a].local_id != orig[b].local_id);
            lemma_without_preserves(orig, ids@);
            let k = without_ids(orig, ids@);
            assert forall|a: int|
                0 <= a < self.pending@.len() implies 1 <= (
            #[trigger] self.pending@[a])@.priority <= 5 && self.pending@[a]@.local_id
                < self.next_id by {
                assert(self.pending_v()[a] == self.pending@[a]@);
                assert(self.pending_v()[a] == k[a]);
                assert(appears_in(orig, k[a]));
                let b = choose|b: int| 0 <= b < orig.len() && #[trigger] orig[b] == k[a];
                assert(orig[b] == old(self).pending@[b]@);
            }
            assert forall|i2: int, j2: int|
                0 <= i2 < j2 < self.pending@.len() implies self.pending@[i2]@.local_id
                != self.pending@[j2]@.local_id by {
                assert(self.pending_v()[i2] == self.pending@[i2]@);
                assert(self.pending_v()[j2] == self.pending@[j2]@);
                assert(k[i2].local_id != k[j2].local_id);
            }
            assert(self.wf());
        }
    }
}

/// Whether `ids` lists the value `x`.
fn ids_contain(ids: &Vec<u64>, x: u64) -> (r: bool)
    ensures
        r == ids@.contains(x),
{
    let mut i: usize = 0;
    while i < ids.len()
        invariant
            i <= ids@.len(),
            forall|k: int| 0 <= k < i ==> ids@[k] != x,
        decreases ids@.len() - i,
    {
        if ids[i] == x {
            return true;
        }
        i = i + 1;
    }
    false
}

proof fn lemma_sel_snoc(s: Seq<EdgeMessageV>, x: EdgeMessageV, p: u8)
    ensures
        sel_priority(s.push(x), p) == if x.priority == p {
            sel_priority(s, p).push(x)
        } else {
            sel_priority(s, p)
        },
    decreases s.len(),
{
    if s.len() == 0 {
        assert(s.push(x)[0] == x);
        assert(s.push(x).drop_first() =~= Seq::<EdgeMessageV>::empty());
        assert(sel_priority(Seq::<EdgeMessageV>::empty(), p) =~= Seq::<EdgeMessageV>::empty());
        if x.priority == p {
            assert(seq![x] + Seq::<EdgeMessageV>::empty() =~= sel_priority(s, p).push(x));
        }
    } else {
        assert(s.push(x)[0] == s[0]);
        assert(s.push(x).drop_first() =~= s.drop_first().push(x));
        lemma_sel_snoc(s.drop_first(), x, p);
        if s[0].priority == p && x.priority == p {
            assert(seq![s[0]] + sel_priority(s.drop_first(), p).push(x) =~= (seq![s[0]]
                + sel_priority(s.drop_first(), p)).push(x));
        }
    }
}

proof fn lemma_split_snoc(s: Seq<EdgeMessageV>, x: EdgeMessageV, ids: Seq<u64>)
    ensures
        without_ids(s.push(x), ids) == if ids.contains(x.local_id) {
            without_ids(s, ids)
        } else {
            without_ids(s, ids).push(x)
        },
        with_ids(s.push(x), ids) == if ids.contains(x.local_id) {
            with_ids(s, ids).push(x)
        } else {
            with_ids(s, ids)
        },
    decreases s.len(),
{
    if s.len() == 0 {
        assert(s.push(x)[0] == x);
        assert(s.push(x).drop_first() =~= Seq::<EdgeMessageV>::empty());
        assert(without_ids(Seq::<EdgeMessageV>::empty(), ids) =~= Seq::<EdgeMessageV>::empty());
        assert(with_ids(Seq::<EdgeMessageV>::empty(), ids) =~= Seq::<EdgeMessageV>::empty());
        if ids.contains(x.local_id) {
            assert(seq![x] + Seq::<EdgeMessageV>::empty() =~= with_ids(s, ids).push(x));
        } else {
            assert(seq![x] + Seq::<EdgeMessageV>::empty() =~= without_ids(s, ids).push(x));
        }
    } else {
        assert(s.push(x)[0] == s[0]);
        assert(s.push(x).drop_first() =~= s.drop_first().push(x));
        lemma_split_snoc(s.drop_first(), x, ids);
        if !ids.contains(s[0].local_id) && !ids.contains(x.local_id) {
            assert(seq![s[0]] + without_ids(s.drop_first(), ids).push(x) =~= (seq![s[0]]
                + without_ids(s.drop_first(), ids)).push(x));
        }
        if ids.contains(s[0].local_id) && ids.contains(x.local_id) {
            assert(seq![s[0]] + with_ids(s.drop_first(), ids).push(x) =~= (seq![s[0]] + with_ids(
                s.drop_first(),
                ids,
            )).push(x));
        }
    }
}

/// No message in the purged sequence is expired.
proof fn lemma_keep_all_unexpired(s: Seq<EdgeMessageV>, now: u64)
    ensures
        forall|i: int|
            0 <= i < keep_unexpired(s, now).len() ==> !is_expired(
                #[trigger] keep_unexpired(s, now)[i],
                now,
            ),
    decreases s.len(),
{
    if s.len() > 0 {
        lemma_keep_all_unexpired(s.drop_first(), now);
        let k = keep_unexpired(s, now);
        let kd = keep_unexpired(s.drop_first(), now);
        assert forall|i: int| 0 <= i < k.len() implies !is_expired(#[trigger] k[i], now) by {
            if is_expired(s[0], now) {
                assert(k == kd);
            } else {
                assert(k == seq![s[0]] + kd);
                if i > 0 {
                    assert(k[i] == kd[i - 1]);
                }
            }
        }
    }
}

proof fn lemma_sel_appears(s: Seq<EdgeMessageV>, p: u8)
    ensures
        forall|i: int|
            0 <= i < sel_priority(s, p).len() ==> appears_in(s, #[trigger] sel_priority(s, p)[i]),
    decreases s.len(),
{
    if s.len() > 0 {
        let d = s.drop_first();
        lemma_sel_appears(d, p);
        let k = sel_priority(s, p);
        let kd = sel_priority(d, p);
        assert forall|i: int| 0 <= i < k.len() implies appears_in(s, #[trigger] k[i]) by {
            if s[0].priority == p {
                assert(k == seq![s[0]] + kd);
                if i == 0 {
                    assert(s[0] == k[0]);
                } else {
                    assert(appears_in(d, kd[i - 1]));
                    let b = choose|b: int| 0 <= b < d.len() && #[trigger] d[b] == kd[i - 1];
                    assert(s[b + 1] == k[i]);
                }
            } else {
                assert(k == kd);
                assert(appears_in(d, kd[i]));
                let b = choose|b: int| 0 <= b < d.len() && #[trigger] d[b] == kd[i];
                assert(s[b + 1] == k[i]);
            }
        }
    }
}

/// Every message of the priority ordering occurs in the source.
proof fn lemma_by_down_appears(s: Seq<EdgeMessageV>, p: u8)
    ensures
        forall|i: int|
            0 <= i < by_priority_down(s, p).len() ==> appears_in(
                s,
                #[trigger] by_priority_down(s, p)[i],
            ),
    decreases p,
{
    if p > 0 {
        lemma_by_down_appears(s, (p - 1) as u8);
        lemma_sel_appears(s, p);
        let k = by_priority_down(s, p);
        let hd = sel_priority(s, p);
        let tl = by_priority_down(s, (p - 1) as u8);
        assert forall|i: int| 0 <= i < k.len() implies appears_in(s, #[trigger] k[i]) by {
            if i < hd.len() {
                assert(k[i] == hd[i]);
            } else {
                assert(k[i] == tl[i - hd.len()]);
            }
        }
    }
}

/// Unacknowledged messages occur in the source, and messages with
/// pairwise distinct ids stay pairwise distinct.
proof fn lemma_without_preserves(s: Seq<EdgeMessageV>, ids: Seq<u64>)
    requires
        forall|a: int, b: int| 0 <= a < b < s.len() ==> s[a].local_id != s[b].local_id,
    ensures
        forall|i: int|
            0 <= i < without_ids(s, ids).len() ==> appears_in(s, #[trigger] without_ids(s, ids)[i]),
        forall|i: int, j: int|
            0 <= i < j < without_ids(s, ids).len() ==> without_ids(s, ids)[i].local_id
                != without_ids(s, ids)[j].local_id,
    decreases s.len(),
{
    if s.len() > 0 {
        let d = s.drop_first();
        assert(forall|a: int, b: int| 0 <= a < b < d.len() ==> d[a].local_id != d[b].local_id);
        lemma_without_preserves(d, ids);
        let k = without_ids(s, ids);
        let kd = without_ids(d, ids);
        assert forall|i: int| 0 <= i < k.len() implies appears_in(s, #[trigger] k[i]) by {
            if ids.contains(s[0].local_id) {
                assert(k == kd);
                assert(appears_in(d, kd[i]));
                let b = choose|b: int| 0 <= b < d.len() && #[trigger] d[b] == kd[i];
                assert(s[b + 1] == k[i]);
            } else {
                assert(k == seq![s[0]] + kd);
                if i == 0 {
                    assert(s[0] == k[0]);
                } else {
                    assert(appears_in(d, kd[i - 1]));
                    let b = choose|b: int| 0 <= b < d.len() && #[trigger] d[b] == kd[i - 1];
                    assert(s[b + 1] == k[i]);
                }
            }
        }
        assert forall|i: int, j: int| 0 <= i < j < k.len() implies k[i].local_id
            != k[j].local_id by {
            if ids.contains(s[0].local_id) {
                assert(k == kd);
            } else {
                assert(k == seq![s[0]] + kd);
                if i == 0 {
                    assert(appears_in(d, kd[j - 1]));
                    let b = choose|b: int| 0 <= b < d.len() && #[trigger] d[b] == kd[j - 1];
                    assert(d[b] == s[b + 1]);
                    assert(s[0].local_id != s[b + 1].local_id);
                }
            }
        }
    }
}

/// `keep_unexpired` of the first `k` elements.
pub open spec fn keep_prefix(s: Seq<EdgeMessageV>, now: u64, k: int) -> Seq<EdgeMessageV> {
    keep_unexpired(s.take(k), now)
}

proof fn lemma_keep_snoc(s: Seq<EdgeMessageV>, x: EdgeMessageV, now: u64)
    ensures
        keep_unexpired(s.push(x), now) == if is_expired(x, now) {
            keep_unexpired(s, now)
        } else {
            keep_unexpired(s, now).push(x)
        },
    decreases s.len(),
{
    if s.len() == 0 {
        assert(s.push(x)[0] == x);
        assert(s.push(x).drop_first() =~= Seq::<EdgeMessageV>::empty());
        assert(keep_unexpired(Seq::<EdgeMessageV>::empty(), now) =~= Seq::<EdgeMessageV>::empty());
        if !is_expired(x, now) {
            assert(seq![x] + Seq::<EdgeMessageV>::empty() =~= keep_unexpired(s, now).push(x));
        }
    } else {
        assert(s.push(x)[0] == s[0]);
        assert(s.push(x).drop_first() =~= s.drop_first().push(x));
        lemma_keep_snoc(s.drop_first(), x, now);
        if !is_expired(s[0], now) && !is_expired(x, now) {
            assert(seq![s[0]] + keep_unexpired(s.drop_first(), now).push(x) =~= (seq![s[0]]
                + keep_unexpired(s.drop_first(), now)).push(x));
        }
    }
}

proof fn lemma_keep_prefix_snoc(s: Seq<EdgeMessageV>, now: u64, k: int)
    requires
        0 <= k < s.len(),
    ensures
        keep_prefix(s, now, k + 1) == if is_expired(s[k], now) {
            keep_prefix(s, now, k)
        } else {
            keep_prefix(s, now, k).push(s[k])
        },
{
    assert(s.take(k + 1) =~= s.take(k).push(s[k]));
    lemma_keep_snoc(s.take(k), s[k], now);
}

proof fn lemma_keep_prefix_all(s: Seq<EdgeMessageV>, now: u64)
    ensures
        keep_prefix(s, now, s.len() as int) == keep_unexpired(s, now),
{
    assert(s.take(s.len() as int) =~= s);
}

/// `m` occurs in `s`.
pub open spec fn appears_in(s: Seq<EdgeMessageV>, m: EdgeMessageV) -> bool {
    exists|b: int| 0 <= b < s.len() && #[trigger] s[b] == m
}

/// Purging keeps only messages of the source, and messages with
/// pairwise distinct ids stay pairwise distinct.
proof fn lemma_keep_preserves(s: Seq<EdgeMessageV>, now: u64)
    requires
        forall|a: int, b: int| 0 <= a < b < s.len() ==> s[a].local_id != s[b].local_id,
    ensures
        forall|i: int|
            0 <= i < keep_unexpired(s, now).len() ==> appears_in(
                s,
                #[trigger] keep_unexpired(s, now)[i],
            ),
        forall|i: int, j: int|
            0 <= i < j < keep_unexpired(s, now).len() ==> keep_unexpired(s, now)[i].local_id
                != keep_unexpired(s, now)[j].local_id,
    decreases s.len(),
{
    if s.len() > 0 {
        let d = s.drop_first();
        assert(forall|a: int, b: int| 0 <= a < b < d.len() ==> d[a].local_id != d[b].local_id);
        lemma_keep_preserves(d, now);
        let k = keep_unexpired(s, now);
        let kd = keep_unexpired(d, now);
        assert forall|i: int| 0 <= i < k.len() implies appears_in(s, #[trigger] k[i]) by {
            if is_expired(s[0], now) {
                assert(k == kd);
                assert(appears_in(d, kd[i]));
                let b = choose|b: int| 0 <= b < d.len() && #[trigger] d[b] == kd[i];
                assert(s[b + 1] == k[i]);
            } else {
                assert(k == seq![s[0]] + kd);
                if i == 0 {
                    assert(s[0] == k[0]);
                } else {
                    assert(appears_in(d, kd[i - 1]));
                    let b = choose|b: int| 0 <= b < d.len() && #[trigger] d[b] == kd[i - 1];
                    assert(s[b + 1] == k[i]);
                }
            }
        }
        assert forall|i: int, j: int| 0 <= i < j < k.len() implies k[i].local_id
            != k[j].local_id by {
            if is_expired(s[0], now) {
                assert(k == kd);
            } else {
                assert(k == seq![s[0]] + kd);
                if i == 0 {
                    assert(appears_in(d, kd[j - 1]));
                    let b = choose|b: int| 0 <= b < d.len() && #[trigger] d[b] == kd[j - 1];
                    assert(d[b] == s[b + 1]);
                    assert(s[0].local_id != s[b + 1].local_id);
                }
            }
        }
    }
}

} // verus!
