//! The cluster directory: membership (node id to address), queue ownership
//! (queue name to owning node) and per-node load counters.
//!
//! The directory's invariant ties the three together: node ids are unique,
//! queue names are unique, every assigned owner is a member, and each node's
//! load counter equals the number of queues assigned to it. Load
//! conservation (the sum of all loads equals the number of assignments)
//! is proved from that invariant.

use vstd::prelude::*;

verus! {

/// Number of assignments in `assigns` owned by node `n`.
pub open spec fn cnt_owned(assigns: Seq<(String, u64)>, n: u64) -> int
    decreases assigns.len(),
{
    if assigns.len() == 0 {
        0
    } else {
        cnt_owned(assigns.drop_last(), n) + if assigns.last().1 == n {
            1int
        } else {
            0int
        }
    }
}

/// Sum of all load counters.
pub open spec fn sum_loads(loads: Seq<(u64, usize)>) -> int
    decreases loads.len(),
{
    if loads.len() == 0 {
        0
    } else {
        sum_loads(loads.drop_last()) + loads.last().1
    }
}

/// A node that owns no listed assignment has a count of zero.
proof fn lemma_cnt_absent(assigns: Seq<(String, u64)>, n: u64)
    requires
        forall|j: int| 0 <= j < assigns.len() ==> (#[trigger] assigns[j]).1 != n,
    ensures
        cnt_owned(assigns, n) == 0,
    decreases assigns.len(),
{
    if assigns.len() > 0 {
        lemma_cnt_absent(assigns.drop_last(), n);
    }
}

/// If some listed assignment is owned by another node, `n` owns strictly
/// fewer assignments than there are entries.
proof fn lemma_cnt_missing(assigns: Seq<(String, u64)>, j: int, n: u64)
    requires
        0 <= j < assigns.len(),
        assigns[j].1 != n,
    ensures
        cnt_owned(assigns, n) <= assigns.len() - 1,
    decreases assigns.len(),
{
    if j == assigns.len() - 1 {
        lemma_cnt_bounds(assigns.drop_last(), n);
    } else {
        lemma_cnt_missing(assigns.drop_last(), j, n);
    }
}

proof fn lemma_cnt_bounds(assigns: Seq<(String, u64)>, n: u64)
    ensures
        0 <= cnt_owned(assigns, n) <= assigns.len(),
    decreases assigns.len(),
{
    if assigns.len() > 0 {
        lemma_cnt_bounds(assigns.drop_last(), n);
    }
}

/// Overwriting entry `j` with a new owner moves one unit of count from the
/// old owner to the new one.
proof fn lemma_cnt_update(assigns: Seq<(String, u64)>, j: int, x: (String, u64), n: u64)
    requires
        0 <= j < assigns.len(),
    ensures
        cnt_owned(assigns.update(j, x), n) == cnt_owned(assigns, n) - (if assigns[j].1 == n {
            1int
        } else {
            0int
        }) + (if x.1 == n {
            1int
        } else {
            0int
        }),
    decreases assigns.len(),
{
    let upd = assigns.update(j, x);
    if j == assigns.len() - 1 {
        assert(upd.drop_last() =~= assigns.drop_last());
        assert(upd.last() == x);
    } else {
        assert(upd.drop_last() =~= assigns.drop_last().update(j, x));
        assert(upd.last() == assigns.last());
        lemma_cnt_update(assigns.drop_last(), j, x, n);
    }
}

proof fn lemma_sum_update(loads: Seq<(u64, usize)>, j: int, x: (u64, usize))
    requires
        0 <= j < loads.len(),
    ensures
        sum_loads(loads.update(j, x)) == sum_loads(loads) - loads[j].1 + x.1,
    decreases loads.len(),
{
    let upd = loads.update(j, x);
    if j == loads.len() - 1 {
        assert(upd.drop_last() =~= loads.drop_last());
        assert(upd.last() == x);
    } else {
        assert(upd.drop_last() =~= loads.drop_last().update(j, x));
        assert(upd.last() == loads.last());
        lemma_sum_update(loads.drop_last(), j, x);
    }
}

/// Some entry of `loads` carries node id `n`.
spec fn key_present(loads: Seq<(u64, usize)>, n: u64) -> bool {
    exists|i: int| 0 <= i < loads.len() && (#[trigger] loads[i]).0 == n
}

/// If every load counter equals the true count of assignments owned, the
/// counters sum to the number of assignments.
proof fn lemma_sum_counts(loads: Seq<(u64, usize)>, assigns: Seq<(String, u64)>)
    requires
        forall|i: int, j: int| 0 <= i < j < loads.len() ==> loads[i].0 != loads[j].0,
        forall|i: int|
            0 <= i < loads.len() ==> (#[trigger] loads[i]).1 == cnt_owned(assigns, loads[i].0),
        forall|j: int|
            0 <= j < assigns.len() ==> key_present(loads, (#[trigger] assigns[j]).1),
    ensures
        sum_loads(loads) == assigns.len(),
    decreases assigns.len(),
{
    if assigns.len() == 0 {
        lemma_sum_all_zero(loads, assigns);
    } else {
        let owner = assigns.last().1;
        let rest = assigns.drop_last();
        assert(key_present(loads, owner));
        let k = choose|i: int| 0 <= i < loads.len() && (#[trigger] loads[i]).0 == owner;
        lemma_cnt_bounds(rest, owner);
        let loads2 = loads.update(k, (owner, (loads[k].1 - 1) as usize));
        assert forall|i: int| 0 <= i < loads2.len() implies (#[trigger] loads2[i]).1 == cnt_owned(
            rest,
            loads2[i].0,
        ) by {
            if i == k {
                assert(cnt_owned(assigns, owner) == cnt_owned(rest, owner) + 1);
            } else {
                assert(loads[i].0 != owner);
                assert(cnt_owned(assigns, loads[i].0) == cnt_owned(rest, loads[i].0));
            }
        }
        assert forall|j: int| 0 <= j < rest.len() implies key_present(
            loads2,
            (#[trigger] rest[j]).1,
        ) by {
            assert(rest[j] == assigns[j]);
            assert(key_present(loads, assigns[j].1));
            let w = choose|i: int| 0 <= i < loads.len() && (#[trigger] loads[i]).0 == assigns[j].1;
            assert(loads2[w].0 == rest[j].1);
        }
        lemma_sum_counts(loads2, rest);
        lemma_sum_update(loads, k, (owner, (loads[k].1 - 1) as usize));
    }
}

proof fn lemma_sum_all_zero(loads: Seq<(u64, usize)>, assigns: Seq<(String, u64)>)
    requires
        assigns.len() == 0,
        forall|i: int|
            0 <= i < loads.len() ==> (#[trigger] loads[i]).1 == cnt_owned(assigns, loads[i].0),
    ensures
        sum_loads(loads) == 0,
    decreases loads.len(),
{
    if loads.len() > 0 {
        lemma_sum_all_zero(loads.drop_last(), assigns);
    }
}

/// If every load is at least `b`, and the load at `w` exceeds `b`, the sum
/// is strictly above `len * b`.
proof fn lemma_sum_lower(loads: Seq<(u64, usize)>, b: int, w: int)
    requires
        forall|i: int| 0 <= i < loads.len() ==> (#[trigger] loads[i]).1 >= b,
        0 <= w < loads.len(),
        loads[w].1 > b,
    ensures
        sum_loads(loads) >= loads.len() * b + 1,
    decreases loads.len(),
{
    let n = loads.len() as int;
    if w == n - 1 {
        lemma_sum_at_least(loads.drop_last(), b);
        assert((n - 1) * b + b == n * b) by (nonlinear_arith);
    } else {
        lemma_sum_lower(loads.drop_last(), b, w);
        assert((n - 1) * b + b == n * b) by (nonlinear_arith);
    }
}

proof fn lemma_sum_at_least(loads: Seq<(u64, usize)>, b: int)
    requires
        forall|i: int| 0 <= i < loads.len() ==> (#[trigger] loads[i]).1 >= b,
    ensures
        sum_loads(loads) >= loads.len() * b,
    decreases loads.len(),
{
    let n = loads.len() as int;
    if n > 0 {
        lemma_sum_at_least(loads.drop_last(), b);
        assert((n - 1) * b + b == n * b) by (nonlinear_arith);
    }
}

/// `n * ceil(t / n) >= t` for positive `n`, where the ceiling is computed
/// as `(t + n - 1) / n` over the integers.
proof fn lemma_ceil_covers(t: int, n: int)
    requires
        n > 0,
        t >= 0,
    ensures
        n * ((t + n - 1) / n) >= t,
{
    vstd::arithmetic::div_mod::lemma_fundamental_div_mod(t + n - 1, n);
    vstd::arithmetic::div_mod::lemma_mod_bound(t + n - 1, n);
}

/// The total amount by which load counters exceed the bound `b`; the
/// rebalancing loop drives this to zero.
pub open spec fn sum_excess(loads: Seq<(u64, usize)>, b: int) -> int
    decreases loads.len(),
{
    if loads.len() == 0 {
        0
    } else {
        sum_excess(loads.drop_last(), b) + (if loads.last().1 > b {
            loads.last().1 - b
        } else {
            0int
        })
    }
}

proof fn lemma_excess_nonneg(loads: Seq<(u64, usize)>, b: int)
    ensures
        sum_excess(loads, b) >= 0,
    decreases loads.len(),
{
    if loads.len() > 0 {
        lemma_excess_nonneg(loads.drop_last(), b);
    }
}

proof fn lemma_excess_update(loads: Seq<(u64, usize)>, j: int, x: (u64, usize), b: int)
    requires
        0 <= j < loads.len(),
    ensures
        sum_excess(loads.update(j, x), b) == sum_excess(loads, b) - (if loads[j].1 > b {
            loads[j].1 - b
        } else {
            0int
        }) + (if x.1 > b {
            x.1 - b
        } else {
            0int
        }),
    decreases loads.len(),
{
    let upd = loads.update(j, x);
    if j == loads.len() - 1 {
        assert(upd.drop_last() =~= loads.drop_last());
        assert(upd.last() == x);
    } else {
        assert(upd.drop_last() =~= loads.drop_last().update(j, x));
        assert(upd.last() == loads.last());
        lemma_excess_update(loads.drop_last(), j, x, b);
    }
}

/// A positive count has a witness among the assignments.
proof fn lemma_cnt_pos(assigns: Seq<(String, u64)>, n: u64)
    requires
        cnt_owned(assigns, n) > 0,
    ensures
        exists|j: int| 0 <= j < assigns.len() && (#[trigger] assigns[j]).1 == n,
    decreases assigns.len(),
{
    if assigns.len() > 0 {
        if assigns.last().1 == n {
            assert(assigns[assigns.len() - 1].1 == n);
        } else {
            lemma_cnt_pos(assigns.drop_last(), n);
            let j = choose|j: int|
                0 <= j < assigns.drop_last().len() && (#[trigger] assigns.drop_last()[j]).1 == n;
            assert(assigns[j].1 == n);
        }
    }
}

/// Some entry of the member list carries node id `n`.
pub open spec fn node_listed(nodes: Seq<(u64, String)>, n: u64) -> bool {
    exists|i: int| 0 <= i < nodes.len() && (#[trigger] nodes[i]).0 == n
}

/// Entry `a` of a load table is at least as good a choice as `b`:
/// strictly smaller load, or equal load and a node id no larger.
/// Entries are `(node id, load)` pairs.
pub open spec fn at_least_as_loadworthy(a: (u64, usize), b: (u64, usize)) -> bool {
    a.1 < b.1 || (a.1 == b.1 && a.0 <= b.0)
}

/// Everything `ClusterState::assign` promises, relating the directory
/// before (`pre`) and after (`post`) one assignment of queue `q`.
pub open spec fn assign_post(
    pre: ClusterState,
    post: ClusterState,
    q: Seq<char>,
    preferred: Option<u64>,
    r: Option<u64>,
) -> bool {
    &&& post.nodes@ == pre.nodes@
    &&& match r {
        Some(n) => post.owns(q, n) && post.has_node(n),
        None => !pre.has_queue(q) && pre.nodes@.len() == 0 && post == pre,
    }
    &&& (pre.has_queue(q) ==> post == pre && (match r {
        Some(n) => pre.owns(q, n),
        None => false,
    }))
    &&& (pre.nodes@.len() == 0 ==> post == pre)
    &&& ((!pre.has_queue(q) && pre.nodes@.len() > 0) ==> match r {
        Some(n) => {
            &&& post.queue_assignments@.len() == pre.queue_assignments@.len() + 1
            &&& post.queue_assignments@.drop_last() == pre.queue_assignments@
            &&& post.queue_assignments@.last().0@ == q
            &&& post.queue_assignments@.last().1 == n
            &&& post.node_loads@.len() == pre.node_loads@.len()
            &&& forall|i: int|
                0 <= i < post.node_loads@.len() ==> (#[trigger] post.node_loads@[i]).0
                    == pre.node_loads@[i].0 && post.node_loads@[i].1 == pre.node_loads@[i].1 + (
                if pre.node_loads@[i].0 == n {
                    1int
                } else {
                    0int
                })
            &&& (match preferred {
                Some(p) => pre.has_node(p) ==> n == p,
                None => true,
            })
            &&& ((match preferred {
                Some(p) => !pre.has_node(p),
                None => true,
            }) ==> exists|k: int|
                0 <= k < pre.node_loads@.len() && (#[trigger] pre.node_loads@[k]).0 == n && forall|
                    i: int,
                |
                    0 <= i < pre.node_loads@.len() ==> at_least_as_loadworthy(
                        pre.node_loads@[k],
                        #[trigger] pre.node_loads@[i],
                    ))
        },
        None => false,
    })
}

/// The replicated directory: membership, queue ownership, load counters.
#[verifier::ext_equal]
pub struct ClusterState {
    /// Node id to address of every cluster member.
    pub nodes: Vec<(u64, String)>,
    /// Queue name to the single owning node.
    pub queue_assignments: Vec<(String, u64)>,
    /// Node id to number of queues assigned to it; mirrors `nodes` by index.
    pub node_loads: Vec<(u64, usize)>,
}

impl ClusterState {
    pub open spec fn nodes_distinct(self) -> bool {
        forall|i: int, j: int|
            0 <= i < j < self.nodes@.len() ==> self.nodes@[i].0 != self.nodes@[j].0
    }

    pub open spec fn queues_distinct(self) -> bool {
        forall|i: int, j: int|
            0 <= i < j < self.queue_assignments@.len() ==> self.queue_assignments@[i].0@
                != self.queue_assignments@[j].0@
    }

    /// `node_loads` lists exactly the members, in the same order as `nodes`.
    pub open spec fn loads_mirror_nodes(self) -> bool {
        &&& self.node_loads@.len() == self.nodes@.len()
        &&& forall|i: int|
            0 <= i < self.nodes@.len() ==> (#[trigger] self.node_loads@[i]).0 == self.nodes@[i].0
    }

    pub open spec fn has_node(self, n: u64) -> bool {
        node_listed(self.nodes@, n)
    }

    pub open spec fn owners_present(self) -> bool {
        forall|j: int|
            0 <= j < self.queue_assignments@.len() ==> self.has_node(
                (#[trigger] self.queue_assignments@[j]).1,
            )
    }

    /// Every load counter equals the true number of queues owned.
    pub open spec fn loads_accurate(self) -> bool {
        forall|i: int|
            0 <= i < self.node_loads@.len() ==> (#[trigger] self.node_loads@[i]).1 == cnt_owned(
                self.queue_assignments@,
                self.node_loads@[i].0,
            )
    }

    pub open spec fn wf(self) -> bool {
        &&& self.nodes_distinct()
        &&& self.queues_distinct()
        &&& self.loads_mirror_nodes()
        &&& self.owners_present()
        &&& self.loads_accurate()
    }

    pub open spec fn has_queue(self, q: Seq<char>) -> bool {
        exists|i: int|
            0 <= i < self.queue_assignments@.len() && (#[trigger] self.queue_assignments@[i]).0@
                == q
    }

    /// Node `n` is recorded as the owner of queue `q`.
    pub open spec fn owns(self, q: Seq<char>, n: u64) -> bool {
        exists|i: int|
            0 <= i < self.queue_assignments@.len() && (#[trigger] self.queue_assignments@[i]).0@
                == q && self.queue_assignments@[i].1 == n
    }

    /// A queue has at most one recorded owner.
    pub proof fn lemma_owner_unique(self, q: Seq<char>, n1: u64, n2: u64)
        requires
            self.queues_distinct(),
            self.owns(q, n1),
            self.owns(q, n2),
        ensures
            n1 == n2,
    {
    }

    /// Load conservation: the sum of all load counters equals the number of
    /// queue assignments.
    pub proof fn lemma_load_conservation(self)
        requires
            self.wf(),
        ensures
            sum_loads(self.node_loads@) == self.queue_assignments@.len(),
    {
        let loads = self.node_loads@;
        let assigns = self.queue_assignments@;
        assert forall|i: int, j: int| 0 <= i < j < loads.len() implies loads[i].0 != loads[j].0 by {
            assert(loads[i].0 == self.nodes@[i].0);
            assert(loads[j].0 == self.nodes@[j].0);
        }
        assert forall|j: int| 0 <= j < assigns.len() implies key_present(
            loads,
            (#[trigger] assigns[j]).1,
        ) by {
            assert(self.has_node(assigns[j].1));
            let w = choose|i: int|
                0 <= i < self.nodes@.len() && (#[trigger] self.nodes@[i]).0 == assigns[j].1;
            assert(loads[w].0 == assigns[j].1);
        }
        lemma_sum_counts(loads, assigns);
    }

    /// Whenever one member's load exceeds the rebalancing target
    /// `ceil(total queues / member count)`, some other member sits strictly
    /// below the target.
    proof fn lemma_overload_has_slack(self, target: int, w: int)
        requires
            self.wf(),
            self.nodes@.len() > 0,
            target == (self.queue_assignments@.len() + self.nodes@.len() - 1) as int
                / self.nodes@.len() as int,
            0 <= w < self.node_loads@.len(),
            self.node_loads@[w].1 > target,
        ensures
            exists|j: int|
                0 <= j < self.node_loads@.len() && (#[trigger] self.node_loads@[j]).1 < target,
    {
        let loads = self.node_loads@;
        let t = self.queue_assignments@.len() as int;
        let n = self.nodes@.len() as int;
        if !(exists|j: int| 0 <= j < loads.len() && (#[trigger] loads[j]).1 < target) {
            assert(forall|i: int| 0 <= i < loads.len() ==> (#[trigger] loads[i]).1 >= target);
            lemma_sum_lower(loads, target, w);
            self.lemma_load_conservation();
            lemma_ceil_covers(t, n);
            assert(false);
        }
    }

    /// An empty directory: no members, no queues, no load.
    pub fn empty() -> (r: ClusterState)
        ensures
            r.nodes@.len() == 0,
            r.queue_assignments@.len() == 0,
            r.node_loads@.len() == 0,
            r.wf(),
    {
        let r = ClusterState {
            nodes: Vec::new(),
            queue_assignments: Vec::new(),
            node_loads: Vec::new(),
        };
        proof {
            assert(r.wf());
        }
        r
    }

    pub fn contains_node(&self, n: u64) -> (r: bool)
        ensures
            r == self.has_node(n),
    {
        let mut i: usize = 0;
        while i < self.nodes.len()
            invariant
                i <= self.nodes.len(),
                forall|k: int| 0 <= k < i ==> (#[trigger] self.nodes@[k]).0 != n,
            decreases self.nodes.len() - i,
        {
            if self.nodes[i].0 == n {
                return true;
            }
            i = i + 1;
        }
        false
    }

    /// The recorded owner of `queue`, or `None` if the queue has no owner.
    pub fn get_owner(&self, queue: &String) -> (r: Option<u64>)
        ensures
            match r {
                Some(n) => self.owns(queue@, n),
                None => !self.has_queue(queue@),
            },
    {
        let mut i: usize = 0;
        while i < self.queue_assignments.len()
            invariant
                i <= self.queue_assignments.len(),
                forall|k: int| 0 <= k < i ==> (#[trigger] self.queue_assignments@[k]).0@ != queue@,
            decreases self.queue_assignments.len() - i,
        {
            if self.queue_assignments[i].0 == *queue {
                return Some(self.queue_assignments[i].1);
            }
            i = i + 1;
        }
        None
    }

    /// The member with the minimum load, ties broken by the lowest node id;
    /// `None` exactly when there are no members.
    pub fn least_loaded(&self) -> (r: Option<u64>)
        requires
            self.loads_mirror_nodes(),
        ensures
            r is Some <==> self.nodes@.len() > 0,
            match r {
                Some(n) => self.has_node(n) && exists|k: int|
                    0 <= k < self.node_loads@.len() && (#[trigger] self.node_loads@[k]).0 == n
                        && forall|i: int|
                        0 <= i < self.node_loads@.len() ==> at_least_as_loadworthy(
                            self.node_loads@[k],
                            #[trigger] self.node_loads@[i],
                        ),
                None => true,
            },
    {
        if self.node_loads.len() == 0 {
            return None;
        }
        let mut best: usize = 0;
        let mut i: usize = 1;
        while i < self.node_loads.len()
            invariant
                best < i <= self.node_loads@.len(),
                forall|j: int|
                    0 <= j < i ==> at_least_as_loadworthy(
                        self.node_loads@[best as int],
                        #[trigger] self.node_loads@[j],
                    ),
            decreases self.node_loads.len() - i,
        {
            let (cid, cload) = self.node_loads[i];
            let (bid, bload) = self.node_loads[best];
            if cload < bload || (cload == bload && cid < bid) {
                best = i;
            }
            i = i + 1;
        }
        proof {
            assert(self.nodes@[best as int].0 == self.node_loads@[best as int].0);
        }
        Some(self.node_loads[best].0)
    }

    /// Index of node `id` in the member list, if it is a member.
    fn find_node_index(&self, id: u64) -> (r: Option<usize>)
        ensures
            match r {
                Some(k) => k < self.nodes@.len() && self.nodes@[k as int].0 == id,
                None => !self.has_node(id),
            },
    {
        let mut i: usize = 0;
        while i < self.nodes.len()
            invariant
                i <= self.nodes@.len(),
                forall|k: int| 0 <= k < i ==> (#[trigger] self.nodes@[k]).0 != id,
            decreases self.nodes@.len() - i,
        {
            if self.nodes[i].0 == id {
                return Some(i);
            }
            i = i + 1;
        }
        None
    }

    /// Index of node `n` in the load table; `n` must be a member.
    fn find_load_index(&self, n: u64) -> (r: usize)
        requires
            self.loads_mirror_nodes(),
            self.has_node(n),
        ensures
            r < self.node_loads@.len(),
            self.node_loads@[r as int].0 == n,
    {
        let mut i: usize = 0;
        while i < self.node_loads.len()
            invariant
                i <= self.node_loads@.len(),
                forall|k: int| 0 <= k < i ==> (#[trigger] self.node_loads@[k]).0 != n,
            decreases self.node_loads@.len() - i,
        {
            if self.node_loads[i].0 == n {
                return i;
            }
            i = i + 1;
        }
        proof {
            let w = choose|i: int|
                0 <= i < self.nodes@.len() && (#[trigger] self.nodes@[i]).0 == n;
            assert(self.node_loads@[w].0 == n);
            assert(false);
        }
        0
    }

    /// Record (or re-address) a member. A new member starts with no load;
    /// an existing member keeps its assignments and load and only its
    /// address changes.
    pub fn add_node(&mut self, id: u64, address: String)
        requires
            old(self).wf(),
        ensures
            final(self).wf(),
            final(self).has_node(id),
            forall|m: u64| old(self).has_node(m) ==> final(self).has_node(m),
            final(self).queue_assignments@ == old(self).queue_assignments@,
            old(self).has_node(id) ==> {
                &&& final(self).node_loads@ == old(self).node_loads@
                &&& exists|k: int|
                    0 <= k < old(self).nodes@.len() && (#[trigger] old(self).nodes@[k]).0 == id
                        && final(self).nodes@ == old(self).nodes@.update(k, (id, address))
            },
            !old(self).has_node(id) ==> {
                &&& final(self).nodes@ == old(self).nodes@.push((id, address))
                &&& final(self).node_loads@ == old(self).node_loads@.push((id, 0))
            },
    {
        let found = self.find_node_index(id);
        match found {
            Some(k) => {
                self.nodes[k] = (id, address);
                proof {
                    let prev = *old(self);
                    assert(forall|t: int|
                        0 <= t < self.nodes@.len() ==> (#[trigger] self.nodes@[t]).0
                            == prev.nodes@[t].0);
                    assert forall|j: int|
                        0 <= j < self.queue_assignments@.len() implies self.has_node(
                        (#[trigger] self.queue_assignments@[j]).1,
                    ) by {
                        let w = choose|i: int|
                            0 <= i < prev.nodes@.len() && (#[trigger] prev.nodes@[i]).0
                                == prev.queue_assignments@[j].1;
                        assert(self.nodes@[w].0 == self.queue_assignments@[j].1);
                    }
                    assert(self.nodes@[k as int].0 == id);
                    assert(self.wf());
                    assert forall|m: u64| prev.has_node(m) implies self.has_node(m) by {
                        let w = choose|i: int|
                            0 <= i < prev.nodes@.len() && (#[trigger] prev.nodes@[i]).0 == m;
                        assert(self.nodes@[w].0 == m);
                    }
                }
                return ;
            },
            None => {},
        }
        self.nodes.push((id, address));
        self.node_loads.push((id, 0));
        proof {
            let prev = *old(self);
            assert(!prev.has_node(id));
            assert forall|j: int| 0 <= j < self.queue_assignments@.len() implies self.has_node(
                (#[trigger] self.queue_assignments@[j]).1,
            ) by {
                assert(prev.has_node(prev.queue_assignments@[j].1));
                let w = choose|i: int|
                    0 <= i < prev.nodes@.len() && (#[trigger] prev.nodes@[i]).0
                        == prev.queue_assignments@[j].1;
                assert(self.nodes@[w].0 == self.queue_assignments@[j].1);
            }
            assert forall|i: int| 0 <= i < self.node_loads@.len() implies (
            #[trigger] self.node_loads@[i]).1 == cnt_owned(
                self.queue_assignments@,
                self.node_loads@[i].0,
            ) by {
                if i == self.node_loads@.len() - 1 {
                    lemma_cnt_absent(self.queue_assignments@, id);
                }
            }
            assert(self.nodes@[self.nodes@.len() - 1].0 == id);
            assert(self.has_node(id));
            assert forall|m: u64| prev.has_node(m) implies self.has_node(m) by {
                let w = choose|i: int|
                    0 <= i < prev.nodes@.len() && (#[trigger] prev.nodes@[i]).0 == m;
                assert(self.nodes@[w].0 == m);
            }
        }
    }

    /// Choose an owner for `queue` and record the assignment, bumping the
    /// chosen node's load. An already-assigned queue keeps its owner and
    /// nothing changes. A valid `preferred` member (the pluggable
    /// assignment strategy's choice) is honoured; otherwise the default
    /// policy picks the least-loaded member, ties broken by the lowest
    /// node id. Returns `None` exactly when there are no members at all.
    pub fn assign(&mut self, queue: &String, preferred: Option<u64>) -> (r: Option<u64>)
        requires
            old(self).wf(),
        ensures
            final(self).wf(),
            assign_post(*old(self), *final(self), queue@, preferred, r),
    {
        match self.get_owner(queue) {
            Some(n) => {
                return Some(n);
            },
            None => {},
        }
        if self.nodes.len() == 0 {
            return None;
        }
        let chosen: u64 = {
            let mut c: Option<u64> = None;
            match preferred {
                Some(p) => {
                    if self.contains_node(p) {
                        c = Some(p);
                    }
                },
                None => {},
            }
            match c {
                Some(p) => p,
                None => {
                    match self.least_loaded() {
                        Some(n) => n,
                        None => {
                            proof {
                                assert(false);
                            }
                            0
                        },
                    }
                },
            }
        };
        let ghost prev = *old(self);
        proof {
            assert(prev.has_node(chosen));
        }
        self.queue_assignments.push((queue.clone(), chosen));
        let new_len = self.queue_assignments.len();
        proof {
            assert(self.nodes@ == prev.nodes@);
            assert(self.node_loads@ == prev.node_loads@);
            assert(self.has_node(chosen));
        }
        let k = self.find_load_index(chosen);
        let cur = self.node_loads[k].1;
        proof {
            assert(self.node_loads@[k as int].1 == cnt_owned(prev.queue_assignments@, chosen));
            lemma_cnt_bounds(prev.queue_assignments@, chosen);
            assert(new_len as int == prev.queue_assignments@.len() + 1);
            assert(cur < usize::MAX);
        }
        self.node_loads[k] = (chosen, cur + 1);
        proof {
            assert(self.queue_assignments@.drop_last() =~= prev.queue_assignments@);
            assert(forall|t: int|
                0 <= t < self.node_loads@.len() ==> (#[trigger] self.node_loads@[t]).0
                    == prev.node_loads@[t].0);
            assert forall|i: int, j: int|
                0 <= i < j < self.queue_assignments@.len() implies self.queue_assignments@[i].0@
                != self.queue_assignments@[j].0@ by {
                if j == self.queue_assignments@.len() - 1 {
                    assert(self.queue_assignments@[i] == prev.queue_assignments@[i]);
                    assert(prev.queue_assignments@[i].0@ != queue@);
                } else {
                    assert(self.queue_assignments@[i] == prev.queue_assignments@[i]);
                    assert(self.queue_assignments@[j] == prev.queue_assignments@[j]);
                }
            }
            assert(self.loads_mirror_nodes());
            assert forall|j: int| 0 <= j < self.queue_assignments@.len() implies self.has_node(
                (#[trigger] self.queue_assignments@[j]).1,
            ) by {
                if j < self.queue_assignments@.len() - 1 {
                    assert(self.queue_assignments@[j] == prev.queue_assignments@[j]);
                    assert(prev.has_node(prev.queue_assignments@[j].1));
                } else {
                    assert(self.queue_assignments@[j].1 == chosen);
                }
            }
            assert forall|i: int| 0 <= i < self.node_loads@.len() implies (
            #[trigger] self.node_loads@[i]).1 == cnt_owned(
                self.queue_assignments@,
                self.node_loads@[i].0,
            ) by {
                assert(self.queue_assignments@.last().1 == chosen);
                if i != k {
                    assert(prev.node_loads@[i].0 == prev.nodes@[i].0);
                    assert(prev.node_loads@[k as int].0 == prev.nodes@[k as int].0);
                    assert(prev.node_loads@[i].0 != chosen);
                }
            }
            assert(self.wf());
            assert(self.queue_assignments@.last().0@ == queue@);
            assert(self.owns(queue@, chosen));
        }
        Some(chosen)
    }

    /// Remove a member. Each queue it owned is reassigned to the member
    /// that is least loaded at that moment; if no members remain, all
    /// assignments are dropped. Removing a non-member changes nothing.
    pub fn remove_node(&mut self, id: u64)
        requires
            old(self).wf(),
        ensures
            final(self).wf(),
            !final(self).has_node(id),
            !old(self).has_node(id) ==> *final(self) == *old(self),
            old(self).has_node(id) ==> exists|k: int|
                0 <= k < old(self).nodes@.len() && (#[trigger] old(self).nodes@[k]).0 == id
                    && final(self).nodes@ == old(self).nodes@.remove(k),
            (old(self).has_node(id) && old(self).nodes@.len() > 1) ==> {
                &&& final(self).queue_assignments@.len() == old(self).queue_assignments@.len()
                &&& forall|j: int|
                    0 <= j < old(self).queue_assignments@.len() ==> (
                    #[trigger] final(self).queue_assignments@[j]).0@ == old(
                        self,
                    ).queue_assignments@[j].0@ && (old(self).queue_assignments@[j].1 != id
                        ==> final(self).queue_assignments@[j].1 == old(
                        self,
                    ).queue_assignments@[j].1)
            },
            (old(self).has_node(id) && old(self).nodes@.len() == 1)
                ==> final(self).queue_assignments@.len() == 0,
    {
        let k = match self.find_node_index(id) {
            Some(k) => k,
            None => {
                return ;
            },
        };
        let ghost prev = *old(self);
        self.nodes.remove(k);
        self.node_loads.remove(k);
        proof {
            assert forall|t: int| 0 <= t < self.nodes@.len() implies (#[trigger] self.nodes@[t])
                == (if t < k {
                prev.nodes@[t]
            } else {
                prev.nodes@[t + 1]
            }) && self.node_loads@[t] == (if t < k {
                prev.node_loads@[t]
            } else {
                prev.node_loads@[t + 1]
            }) by {}
        }
        if self.nodes.len() == 0 {
            self.queue_assignments.clear();
            proof {
                assert(self.wf());
            }
            return ;
        }
        let ghost mid = *self;
        proof {
            assert(!mid.has_node(id));
            assert(mid.nodes_distinct());
            assert(mid.loads_mirror_nodes());
            assert(mid.loads_accurate());
            assert forall|t: int| 0 <= t < mid.queue_assignments@.len() implies (
            mid.queue_assignments@[t].1 == id || mid.has_node(
                (#[trigger] mid.queue_assignments@[t]).1,
            )) by {
                let owner = mid.queue_assignments@[t].1;
                if owner != id {
                    assert(prev.has_node(owner));
                    let w = choose|i: int|
                        0 <= i < prev.nodes@.len() && (#[trigger] prev.nodes@[i]).0 == owner;
                    if w < k {
                        assert(mid.nodes@[w].0 == owner);
                    } else {
                        assert(w != k);
                        assert(mid.nodes@[w - 1].0 == owner);
                    }
                }
            }
        }
        let total = self.queue_assignments.len();
        let mut j: usize = 0;
        while j < self.queue_assignments.len()
            invariant
                j <= self.queue_assignments@.len(),
                self.nodes@ == mid.nodes@,
                self.nodes@.len() > 0,
                self.queue_assignments@.len() == total as int,
                mid.queue_assignments@.len() == total as int,
                self.node_loads@.len() == mid.node_loads@.len(),
                forall|i: int|
                    0 <= i < self.node_loads@.len() ==> (#[trigger] self.node_loads@[i]).0
                        == mid.node_loads@[i].0,
                forall|t: int|
                    j <= t < total as int ==> (#[trigger] self.queue_assignments@[t])
                        == mid.queue_assignments@[t],
                forall|t: int|
                    0 <= t < j ==> (#[trigger] self.queue_assignments@[t]).0@
                        == mid.queue_assignments@[t].0@ && self.queue_assignments@[t].1 != id && (
                    mid.queue_assignments@[t].1 != id ==> self.queue_assignments@[t].1
                        == mid.queue_assignments@[t].1) && self.has_node(
                        self.queue_assignments@[t].1,
                    ),
                forall|t: int|
                    j <= t < total as int ==> (#[trigger] self.queue_assignments@[t]).1 == id
                        || self.has_node(self.queue_assignments@[t].1),
                self.nodes_distinct(),
                self.loads_mirror_nodes(),
                self.queues_distinct(),
                self.loads_accurate(),
                !self.has_node(id),
            decreases total as int - j,
        {
            if self.queue_assignments[j].1 == id {
                let ghost cur_state = *self;
                let dest = match self.least_loaded() {
                    Some(d) => d,
                    None => {
                        proof {
                            assert(false);
                        }
                        0
                    },
                };
                let name = self.queue_assignments[j].0.clone();
                let kd = self.find_load_index(dest);
                let cur = self.node_loads[kd].1;
                proof {
                    assert(dest != id);
                    lemma_cnt_missing(self.queue_assignments@, j as int, dest);
                }
                self.queue_assignments[j] = (name, dest);
                self.node_loads[kd] = (dest, cur + 1);
                proof {
                    assert forall|i: int| 0 <= i < self.node_loads@.len() implies (
                    #[trigger] self.node_loads@[i]).1 == cnt_owned(
                        self.queue_assignments@,
                        self.node_loads@[i].0,
                    ) by {
                        let key = self.node_loads@[i].0;
                        lemma_cnt_update(
                            cur_state.queue_assignments@,
                            j as int,
                            (self.queue_assignments@[j as int].0, dest),
                            key,
                        );
                        assert(self.queue_assignments@ =~= cur_state.queue_assignments@.update(
                            j as int,
                            self.queue_assignments@[j as int],
                        ));
                        assert(key != id);
                        if i != kd {
                            assert(self.node_loads@[i].0 == self.nodes@[i].0);
                            assert(self.node_loads@[kd as int].0 == self.nodes@[kd as int].0);
                            assert(key != dest);
                        }
                    }
                    assert(self.queues_distinct());
                }
            } else {
                proof {
                    assert(self.queue_assignments@[j as int]
                        == mid.queue_assignments@[j as int]);
                }
            }
            proof {
                let e = self.queue_assignments@[j as int];
                assert(e.0@ == mid.queue_assignments@[j as int].0@);
                assert(e.1 != id);
                assert(e.1 == id || self.has_node(e.1));
                assert(mid.queue_assignments@[j as int].1 != id ==> e.1
                    == mid.queue_assignments@[j as int].1);
                assert forall|t: int|
                    j + 1 <= t < total as int implies (#[trigger] self.queue_assignments@[t])
                    == mid.queue_assignments@[t] by {}
            }
            j = j + 1;
        }
        proof {
            assert(self.wf());
            assert forall|t: int|
                0 <= t < prev.queue_assignments@.len() implies (
            #[trigger] self.queue_assignments@[t]).0@ == prev.queue_assignments@[t].0@ && (
            prev.queue_assignments@[t].1 != id ==> self.queue_assignments@[t].1
                == prev.queue_assignments@[t].1) by {
                assert(mid.queue_assignments@[t] == prev.queue_assignments@[t]);
            }
        }
    }

    /// The per-node load bound that rebalancing achieves:
    /// `ceil(total queues / member count)`.
    pub open spec fn rebalance_target(self) -> int
        recommends
            self.nodes@.len() > 0,
    {
        ((self.queue_assignments@.len() + self.nodes@.len() - 1) as int) / (
        self.nodes@.len() as int)
    }

    /// Index of some member whose load exceeds `target`, or `None` when
    /// every member's load is within the target.
    fn find_over(&self, target: usize) -> (r: Option<usize>)
        ensures
            match r {
                Some(k) => k < self.node_loads@.len() && self.node_loads@[k as int].1 > target,
                None => forall|i: int|
                    0 <= i < self.node_loads@.len() ==> (#[trigger] self.node_loads@[i]).1
                        <= target,
            },
    {
        let mut i: usize = 0;
        while i < self.node_loads.len()
            invariant
                i <= self.node_loads@.len(),
                forall|k: int| 0 <= k < i ==> (#[trigger] self.node_loads@[k]).1 <= target,
            decreases self.node_loads@.len() - i,
        {
            if self.node_loads[i].1 > target {
                return Some(i);
            }
            i = i + 1;
        }
        None
    }

    /// Index of some assignment owned by node `n`; at least one must exist.
    fn find_assignment_of(&self, n: u64) -> (r: usize)
        requires
            exists|j: int|
                0 <= j < self.queue_assignments@.len() && (#[trigger] self.queue_assignments@[j]).1
                    == n,
        ensures
            r < self.queue_assignments@.len(),
            self.queue_assignments@[r as int].1 == n,
    {
        let mut i: usize = 0;
        while i < self.queue_assignments.len()
            invariant
                i <= self.queue_assignments@.len(),
                forall|k: int| 0 <= k < i ==> (#[trigger] self.queue_assignments@[k]).1 != n,
            decreases self.queue_assignments@.len() - i,
        {
            if self.queue_assignments[i].1 == n {
                return i;
            }
            i = i + 1;
        }
        proof {
            assert(false);
        }
        0
    }

    /// Rebalance ownership: as long as some member's load exceeds
    /// `ceil(total queues / member count)`, move one of its queues to the
    /// currently least-loaded member (recomputed after every move). Only
    /// the owner entries change; membership, queue names and their order
    /// are untouched, and afterwards no member is above the target.
    pub fn rebalance(&mut self)
        requires
            old(self).wf(),
        ensures
            final(self).wf(),
            final(self).nodes@ == old(self).nodes@,
            final(self).node_loads@.len() == old(self).node_loads@.len(),
            forall|i: int|
                0 <= i < final(self).node_loads@.len() ==> (#[trigger] final(self).node_loads@[i]).0 == old(self).node_loads@[i].0,
            final(self).queue_assignments@.len() == old(self).queue_assignments@.len(),
            forall|j: int|
                0 <= j < final(self).queue_assignments@.len() ==> (#[trigger] final(self).queue_assignments@[j]).0@
                    == old(self).queue_assignments@[j].0@,
            old(self).nodes@.len() > 0 ==> forall|i: int|
                0 <= i < final(self).node_loads@.len() ==> (#[trigger] final(self).node_loads@[i]).1 <= old(self).rebalance_target(),
    {
        if self.nodes.len() == 0 {
            return ;
        }
        let total = self.queue_assignments.len();
        let n_nodes = self.nodes.len();
        let target_wide: u128 = ((total as u128) + (n_nodes as u128) - 1) / (n_nodes as u128);
        proof {
            let t = total as int;
            let n = n_nodes as int;
            let q = (t + n - 1) / n;
            vstd::arithmetic::div_mod::lemma_fundamental_div_mod(t + n - 1, n);
            vstd::arithmetic::div_mod::lemma_mod_bound(t + n - 1, n);
            if q > t {
                assert(n * q >= n * (t + 1) && n * (t + 1) == n * t + n && n * t >= t) by (
                nonlinear_arith)
                    requires
                        n >= 1,
                        t >= 0,
                        q >= t + 1,
                ;
                assert(false);
            }
            assert(target_wide as int == q);
        }
        let target: usize = target_wide as usize;
        let ghost orig = *self;
        loop
            invariant
                self.wf(),
                self.nodes@ == orig.nodes@,
                self.nodes@.len() > 0,
                self.queue_assignments@.len() == total as int,
                self.node_loads@.len() == orig.node_loads@.len(),
                forall|i: int|
                    0 <= i < self.node_loads@.len() ==> (#[trigger] self.node_loads@[i]).0
                        == orig.node_loads@[i].0,
                forall|j: int|
                    0 <= j < self.queue_assignments@.len() ==> (
                    #[trigger] self.queue_assignments@[j]).0@ == orig.queue_assignments@[j].0@,
                target as int == orig.rebalance_target(),
                orig.queue_assignments@.len() == total as int,
                orig.nodes@.len() == self.nodes@.len(),
            ensures
                forall|i: int|
                    0 <= i < self.node_loads@.len() ==> (#[trigger] self.node_loads@[i]).1
                        <= target,
            decreases sum_excess(self.node_loads@, target as int),
        {
            let k = match self.find_over(target) {
                Some(k) => k,
                None => {
                    break ;
                },
            };
            let over_node = self.node_loads[k].0;
            proof {
                lemma_cnt_pos(self.queue_assignments@, over_node);
            }
            let j = self.find_assignment_of(over_node);
            let dest = match self.least_loaded() {
                Some(d) => d,
                None => {
                    proof {
                        assert(false);
                    }
                    0
                },
            };
            let kd = self.find_load_index(dest);
            let cur = self.node_loads[kd].1;
            proof {
                self.lemma_overload_has_slack(target as int, k as int);
                let s = choose|i: int|
                    0 <= i < self.node_loads@.len() && (#[trigger] self.node_loads@[i]).1 < (
                    target as int);
                let b = choose|bk: int|
                    0 <= bk < self.node_loads@.len() && (#[trigger] self.node_loads@[bk]).0 == dest
                        && forall|i: int|
                        0 <= i < self.node_loads@.len() ==> at_least_as_loadworthy(
                            self.node_loads@[bk],
                            #[trigger] self.node_loads@[i],
                        );
                assert(self.node_loads@[b].0 == self.nodes@[b].0);
                assert(self.node_loads@[kd as int].0 == self.nodes@[kd as int].0);
                assert(b == kd as int);
                assert(at_least_as_loadworthy(self.node_loads@[b], self.node_loads@[s]));
                assert(cur < target);
            }
            let name = self.queue_assignments[j].0.clone();
            let ghost before = *self;
            let lk = self.node_loads[k].1;
            self.queue_assignments[j] = (name, dest);
            self.node_loads[k] = (over_node, lk - 1);
            self.node_loads[kd] = (dest, cur + 1);
            proof {
                assert(k != kd);
                assert(over_node != dest);
                let tgt = target as int;
                assert forall|i: int| 0 <= i < self.node_loads@.len() implies (
                #[trigger] self.node_loads@[i]).1 == cnt_owned(
                    self.queue_assignments@,
                    self.node_loads@[i].0,
                ) by {
                    let key = self.node_loads@[i].0;
                    lemma_cnt_update(
                        before.queue_assignments@,
                        j as int,
                        (self.queue_assignments@[j as int].0, dest),
                        key,
                    );
                    assert(self.queue_assignments@ =~= before.queue_assignments@.update(
                        j as int,
                        self.queue_assignments@[j as int],
                    ));
                    assert(before.queue_assignments@[j as int].1 == over_node);
                    if i != k && i != kd {
                        assert(self.node_loads@[i].0 == self.nodes@[i].0);
                        assert(before.node_loads@[k as int].0 == self.nodes@[k as int].0);
                        assert(before.node_loads@[kd as int].0 == self.nodes@[kd as int].0);
                        assert(key != over_node && key != dest);
                    }
                }
                assert(self.queues_distinct());
                assert forall|t: int|
                    0 <= t < self.queue_assignments@.len() implies self.has_node(
                    (#[trigger] self.queue_assignments@[t]).1,
                ) by {
                    if t != j {
                        assert(self.queue_assignments@[t] == before.queue_assignments@[t]);
                        assert(before.has_node(before.queue_assignments@[t].1));
                    } else {
                        assert(self.queue_assignments@[t].1 == dest);
                        assert(self.nodes@ == before.nodes@);
                        assert(before.has_node(dest));
                    }
                }
                assert(self.wf());
                let l1 = before.node_loads@.update(k as int, (over_node, (lk - 1) as usize));
                lemma_excess_update(
                    before.node_loads@,
                    k as int,
                    (over_node, (lk - 1) as usize),
                    tgt,
                );
                lemma_excess_update(l1, kd as int, (dest, (cur + 1) as usize), tgt);
                assert(self.node_loads@ =~= l1.update(kd as int, (dest, (cur + 1) as usize)));
                assert(l1[kd as int] == before.node_loads@[kd as int]);
                assert(sum_excess(self.node_loads@, tgt) == sum_excess(before.node_loads@, tgt)
                    - 1);
                lemma_excess_nonneg(self.node_loads@, tgt);
            }
        }
    }

    /// Number of assignments currently owned by node `n`.
    fn count_owned(&self, n: u64) -> (r: usize)
        ensures
            r as int == cnt_owned(self.queue_assignments@, n),
    {
        let mut c: usize = 0;
        let mut k: usize = 0;
        while k < self.queue_assignments.len()
            invariant
                k <= self.queue_assignments@.len(),
                c as int == cnt_owned(self.queue_assignments@.take(k as int), n),
                c <= k,
            decreases self.queue_assignments@.len() - k,
        {
            proof {
                let t = self.queue_assignments@.take(k as int + 1);
                assert(t.drop_last() =~= self.queue_assignments@.take(k as int));
                assert(t.last() == self.queue_assignments@[k as int]);
                lemma_cnt_bounds(self.queue_assignments@.take(k as int), n);
            }
            if self.queue_assignments[k].1 == n {
                c = c + 1;
            }
            k = k + 1;
        }
        proof {
            assert(self.queue_assignments@.take(self.queue_assignments@.len() as int)
                =~= self.queue_assignments@);
        }
        c
    }

    /// Executable check of the directory invariant, for validating a
    /// received snapshot before applying it.
    pub fn check_wf(&self) -> (r: bool)
        ensures
            r == self.wf(),
    {
        let mut i: usize = 0;
        while i < self.nodes.len()
            invariant
                i <= self.nodes@.len(),
                forall|a: int, b: int|
                    0 <= a < b < self.nodes@.len() && a < i ==> self.nodes@[a].0
                        != self.nodes@[b].0,
            decreases self.nodes@.len() - i,
        {
            let mut j: usize = i + 1;
            while j < self.nodes.len()
                invariant
                    i < j <= self.nodes@.len() || (i as int) + 1 == j as int,
                    i < self.nodes@.len(),
                    j >= i + 1,
                    forall|b: int| i < b < j ==> self.nodes@[i as int].0 != self.nodes@[b].0,
                decreases self.nodes@.len() - j,
            {
                if self.nodes[i].0 == self.nodes[j].0 {
                    proof {
                        assert(!self.nodes_distinct());
                    }
                    return false;
                }
                j = j + 1;
            }
            i = i + 1;
        }
        let mut i2: usize = 0;
        while i2 < self.queue_assignments.len()
            invariant
                i2 <= self.queue_assignments@.len(),
                forall|a: int, b: int|
                    0 <= a < b < self.queue_assignments@.len() && a < i2 ==> self.queue_assignments@[a].0@ != self.queue_assignments@[b].0@,
            decreases self.queue_assignments@.len() - i2,
        {
            let mut j2: usize = i2 + 1;
            while j2 < self.queue_assignments.len()
                invariant
                    i2 < self.queue_assignments@.len(),
                    j2 >= i2 + 1,
                    forall|b: int|
                        i2 < b < j2 ==> self.queue_assignments@[i2 as int].0@
                            != self.queue_assignments@[b].0@,
                decreases self.queue_assignments@.len() - j2,
            {
                if self.queue_assignments[i2].0 == self.queue_assignments[j2].0 {
                    proof {
                        assert(!self.queues_distinct());
                    }
                    return false;
                }
                j2 = j2 + 1;
            }
            i2 = i2 + 1;
        }
        if self.node_loads.len() != self.nodes.len() {
            return false;
        }
        let mut i3: usize = 0;
        while i3 < self.nodes.len()
            invariant
                i3 <= self.nodes@.len(),
                self.node_loads@.len() == self.nodes@.len(),
                forall|a: int|
                    0 <= a < i3 ==> (#[trigger] self.node_loads@[a]).0 == self.nodes@[a].0,
            decreases self.nodes@.len() - i3,
        {
            if self.node_loads[i3].0 != self.nodes[i3].0 {
                return false;
            }
            i3 = i3 + 1;
        }
        let mut i4: usize = 0;
        while i4 < self.queue_assignments.len()
            invariant
                i4 <= self.queue_assignments@.len(),
                forall|a: int|
                    0 <= a < i4 ==> self.has_node((#[trigger] self.queue_assignments@[a]).1),
            decreases self.queue_assignments@.len() - i4,
        {
            if !self.contains_node(self.queue_assignments[i4].1) {
                return false;
            }
            i4 = i4 + 1;
        }
        let mut i5: usize = 0;
        while i5 < self.node_loads.len()
            invariant
                i5 <= self.node_loads@.len(),
                forall|a: int|
                    0 <= a < i5 ==> (#[trigger] self.node_loads@[a]).1 as int == cnt_owned(
                        self.queue_assignments@,
                        self.node_loads@[a].0,
                    ),
            decreases self.node_loads@.len() - i5,
        {
            let c = self.count_owned(self.node_loads[i5].0);
            if c != self.node_loads[i5].1 {
                return false;
            }
            i5 = i5 + 1;
        }
        proof {
            assert(self.wf());
        }
        true
    }

    /// A deep copy of the directory (spec 4.1 `snapshot`).
    pub fn snapshot(&self) -> (r: ClusterState)
        ensures
            r.nodes@ == self.nodes@,
            r.queue_assignments@ == self.queue_assignments@,
            r.node_loads@ == self.node_loads@,
    {
        let mut nodes: Vec<(u64, String)> = Vec::new();
        let mut i: usize = 0;
        while i < self.nodes.len()
            invariant
                i <= self.nodes.len(),
                nodes@ =~= self.nodes@.take(i as int),
            decreases self.nodes.len() - i,
        {
            nodes.push((self.nodes[i].0, self.nodes[i].1.clone()));
            i = i + 1;
        }
        let mut queue_assignments: Vec<(String, u64)> = Vec::new();
        let mut j: usize = 0;
        while j < self.queue_assignments.len()
            invariant
                j <= self.queue_assignments.len(),
                queue_assignments@ =~= self.queue_assignments@.take(j as int),
            decreases self.queue_assignments.len() - j,
        {
            queue_assignments.push(
                (self.queue_assignments[j].0.clone(), self.queue_assignments[j].1),
            );
            j = j + 1;
        }
        let mut node_loads: Vec<(u64, usize)> = Vec::new();
        let mut k: usize = 0;
        while k < self.node_loads.len()
            invariant
                k <= self.node_loads.len(),
                node_loads@ =~= self.node_loads@.take(k as int),
            decreases self.node_loads.len() - k,
        {
            node_loads.push(self.node_loads[k]);
            k = k + 1;
        }
        proof {
            assert(nodes@ =~= self.nodes@);
            assert(queue_assignments@ =~= self.queue_assignments@);
            assert(node_loads@ =~= self.node_loads@);
        }
        ClusterState { nodes, queue_assignments, node_loads }
    }
}

} // verus!
