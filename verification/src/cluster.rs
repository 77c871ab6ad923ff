//! The per-node cluster manager: the local copy of the replicated
//! directory, the leader's snapshot broadcast, and the follower's
//! last-writer-wins apply with validation.
//!
//! The consensus module itself is an outside collaborator: something else
//! ticks it and reports the current leader. This module only takes the
//! resulting decisions: a node that learns it is the leader rebalances
//! and produces the snapshot payloads to push; a follower applies a
//! received snapshot verbatim, or rejects it unchanged when it is
//! malformed.

use vstd::prelude::*;

use crate::codec::{
    dec_state, decode_state, enc_state, encode_state, map_assigns, map_loads, map_nodes,
    state_enc_ok,
};
use crate::directory::{cnt_owned, ClusterState};

verus! {

/// `cnt_owned` over the wire view of the assignment section.
pub open spec fn cnt_owned_v(assigns: Seq<(Seq<char>, u64)>, n: u64) -> int
    decreases assigns.len(),
{
    if assigns.len() == 0 {
        0
    } else {
        cnt_owned_v(assigns.drop_last(), n) + if assigns.last().1 == n {
            1int
        } else {
            0int
        }
    }
}

proof fn lemma_cnt_v(assigns: Seq<(String, u64)>, n: u64)
    ensures
        cnt_owned(assigns, n) == cnt_owned_v(map_assigns(assigns), n),
    decreases assigns.len(),
{
    if assigns.len() > 0 {
        lemma_cnt_v(assigns.drop_last(), n);
        assert(map_assigns(assigns).drop_last() =~= map_assigns(assigns.drop_last()));
        assert(map_assigns(assigns).last() == (assigns.last().0@, assigns.last().1));
    }
}

/// Some entry of the members section carries node id `n`.
pub open spec fn id_listed(ns: Seq<(u64, Seq<char>)>, n: u64) -> bool {
    exists|i: int| 0 <= i < ns.len() && (#[trigger] ns[i]).0 == n
}

/// The directory invariant, stated over the wire views of the three
/// sections: what a received snapshot must satisfy to be applied.
pub open spec fn wf_views(
    ns: Seq<(u64, Seq<char>)>,
    asg: Seq<(Seq<char>, u64)>,
    ls: Seq<(u64, u64)>,
) -> bool {
    &&& forall|i: int, j: int| 0 <= i < j < ns.len() ==> ns[i].0 != ns[j].0
    &&& forall|i: int, j: int| 0 <= i < j < asg.len() ==> asg[i].0 != asg[j].0
    &&& ls.len() == ns.len()
    &&& forall|i: int| 0 <= i < ns.len() ==> (#[trigger] ls[i]).0 == ns[i].0
    &&& forall|j: int| 0 <= j < asg.len() ==> id_listed(ns, (#[trigger] asg[j]).1)
    &&& forall|i: int| 0 <= i < ls.len() ==> (#[trigger] ls[i]).1 == cnt_owned_v(asg, ls[i].0)
}

/// The directory invariant depends only on the wire views.
pub proof fn lemma_wf_views(s: ClusterState)
    ensures
        s.wf() <==> wf_views(
            map_nodes(s.nodes@),
            map_assigns(s.queue_assignments@),
            map_loads(s.node_loads@),
        ),
{
    let ns = map_nodes(s.nodes@);
    let asg = map_assigns(s.queue_assignments@);
    let ls = map_loads(s.node_loads@);
    assert(forall|i: int|
        0 <= i < ns.len() ==> #[trigger] ns[i] == (s.nodes@[i].0, s.nodes@[i].1@));
    assert(forall|j: int|
        0 <= j < asg.len() ==> #[trigger] asg[j] == (
            s.queue_assignments@[j].0@,
            s.queue_assignments@[j].1,
        ));
    assert(forall|i: int|
        0 <= i < ls.len() ==> #[trigger] ls[i] == (
            s.node_loads@[i].0,
            s.node_loads@[i].1 as u64,
        ));
    if s.wf() {
        assert forall|i: int, j: int| 0 <= i < j < ns.len() implies ns[i].0 != ns[j].0 by {
            assert(ns[i] == (s.nodes@[i].0, s.nodes@[i].1@));
            assert(ns[j] == (s.nodes@[j].0, s.nodes@[j].1@));
        }
        assert forall|i: int, j: int| 0 <= i < j < asg.len() implies asg[i].0 != asg[j].0 by {
            assert(asg[i] == (s.queue_assignments@[i].0@, s.queue_assignments@[i].1));
            assert(asg[j] == (s.queue_assignments@[j].0@, s.queue_assignments@[j].1));
        }
        assert forall|i: int| 0 <= i < ns.len() implies (#[trigger] ls[i]).0 == ns[i].0 by {
            assert(s.node_loads@[i].0 == s.nodes@[i].0);
        }
        assert forall|j: int| 0 <= j < asg.len() implies id_listed(
            ns,
            (#[trigger] asg[j]).1,
        ) by {
            assert(s.has_node(s.queue_assignments@[j].1));
            let w = choose|i: int|
                0 <= i < s.nodes@.len() && (#[trigger] s.nodes@[i]).0
                    == s.queue_assignments@[j].1;
            assert(ns[w].0 == asg[j].1);
        }
        assert forall|i: int| 0 <= i < ls.len() implies (#[trigger] ls[i]).1 == cnt_owned_v(
            asg,
            ls[i].0,
        ) by {
            lemma_cnt_v(s.queue_assignments@, s.node_loads@[i].0);
            assert(s.node_loads@[i].1 == cnt_owned(s.queue_assignments@, s.node_loads@[i].0));
        }
        assert(forall|i: int, j: int| 0 <= i < j < ns.len() ==> ns[i].0 != ns[j].0);
        assert(forall|i: int, j: int| 0 <= i < j < asg.len() ==> asg[i].0 != asg[j].0);
        assert(ls.len() == ns.len());
        assert(forall|i: int| 0 <= i < ns.len() ==> (#[trigger] ls[i]).0 == ns[i].0);
        assert(wf_views(ns, asg, ls));
    }
    if wf_views(ns, asg, ls) {
        assert forall|i: int, j: int|
            0 <= i < j < s.nodes@.len() implies s.nodes@[i].0 != s.nodes@[j].0 by {
            assert(ns[i].0 != ns[j].0);
        }
        assert forall|i: int, j: int|
            0 <= i < j < s.queue_assignments@.len() implies s.queue_assignments@[i].0@
            != s.queue_assignments@[j].0@ by {
            assert(asg[i].0 != asg[j].0);
        }
        assert forall|i: int|
            0 <= i < s.nodes@.len() implies (#[trigger] s.node_loads@[i]).0
            == s.nodes@[i].0 by {
            assert(ls[i].0 == ns[i].0);
        }
        assert forall|j: int| 0 <= j < s.queue_assignments@.len() implies s.has_node(
            (#[trigger] s.queue_assignments@[j]).1,
        ) by {
            assert(asg[j].1 == s.queue_assignments@[j].1);
            assert(id_listed(ns, asg[j].1));
            let w = choose|i: int|
                0 <= i < ns.len() && (#[trigger] ns[i]).0 == asg[j].1;
            assert(s.nodes@[w].0 == s.queue_assignments@[j].1);
        }
        assert forall|i: int|
            0 <= i < s.node_loads@.len() implies (#[trigger] s.node_loads@[i]).1 == cnt_owned(
            s.queue_assignments@,
            s.node_loads@[i].0,
        ) by {
            lemma_cnt_v(s.queue_assignments@, s.node_loads@[i].0);
            assert(ls[i].1 == cnt_owned_v(asg, ls[i].0));
        }
        assert(s.wf());
    }
}

/// Replicated copies that carry the same assignment view agree on every
/// queue's owner: ownership is single after a completed sync cycle.
pub proof fn lemma_single_ownership(
    a: ClusterState,
    b: ClusterState,
    q: Seq<char>,
    na: u64,
    nb: u64,
)
    requires
        map_assigns(a.queue_assignments@) == map_assigns(b.queue_assignments@),
        a.queues_distinct(),
        a.owns(q, na),
        b.owns(q, nb),
    ensures
        na == nb,
{
    let va = map_assigns(a.queue_assignments@);
    let i = choose|i: int|
        0 <= i < a.queue_assignments@.len() && (#[trigger] a.queue_assignments@[i]).0@ == q
            && a.queue_assignments@[i].1 == na;
    let j = choose|j: int|
        0 <= j < b.queue_assignments@.len() && (#[trigger] b.queue_assignments@[j]).0@ == q
            && b.queue_assignments@[j].1 == nb;
    let vb = map_assigns(b.queue_assignments@);
    assert(va[i] == (a.queue_assignments@[i].0@, a.queue_assignments@[i].1));
    assert(vb[j] == (b.queue_assignments@[j].0@, b.queue_assignments@[j].1));
    assert(va.len() == a.queue_assignments@.len());
    assert(vb.len() == b.queue_assignments@.len());
    assert(va[j] == (a.queue_assignments@[j].0@, a.queue_assignments@[j].1));
    assert(va[j] == vb[j]);
    assert(a.queue_assignments@[j].0@ == q);
    assert(a.queue_assignments@[j].1 == nb);
    if i != j {
        assert(a.queue_assignments@[i].0@ == q && a.queue_assignments@[j].0@ == q);
        assert(false);
    }
}

pub open spec fn digit_char(d: int) -> char {
    if d == 0 {
        '0'
    } else if d == 1 {
        '1'
    } else if d == 2 {
        '2'
    } else if d == 3 {
        '3'
    } else if d == 4 {
        '4'
    } else if d == 5 {
        '5'
    } else if d == 6 {
        '6'
    } else if d == 7 {
        '7'
    } else if d == 8 {
        '8'
    } else {
        '9'
    }
}

/// Decimal digits of a non-negative number, most significant first.
pub open spec fn dec_digits(n: int) -> Seq<char>
    decreases n,
{
    if n < 10 {
        seq![digit_char(n)]
    } else {
        dec_digits(n / 10).push(digit_char(n % 10))
    }
}

/// The port a generated member address uses; an id too large to offset
/// keeps its own value as the port.
pub open spec fn port_of(id: u64) -> u64 {
    if id <= u64::MAX - 50000 {
        (50000 + id) as u64
    } else {
        id
    }
}

/// The address generated for member `id` at bootstrap.
pub open spec fn default_address_spec(id: u64) -> Seq<char> {
    "127.0.0.1:"@ + dec_digits(port_of(id) as int)
}

fn digit_str(d: u64) -> (r: String)
    requires
        d < 10,
    ensures
        r@ == seq![digit_char(d as int)],
{
    let r = match d {
        0 => "0",
        1 => "1",
        2 => "2",
        3 => "3",
        4 => "4",
        5 => "5",
        6 => "6",
        7 => "7",
        8 => "8",
        _ => "9",
    };
    proof {
        reveal_strlit("0");
        reveal_strlit("1");
        reveal_strlit("2");
        reveal_strlit("3");
        reveal_strlit("4");
        reveal_strlit("5");
        reveal_strlit("6");
        reveal_strlit("7");
        reveal_strlit("8");
        reveal_strlit("9");
    }
    r.to_owned()
}

fn decimal_string(n: u64) -> (r: String)
    ensures
        r@ == dec_digits(n as int),
    decreases n,
{
    if n < 10 {
        digit_str(n)
    } else {
        let mut s = decimal_string(n / 10);
        let d = digit_str(n % 10);
        s.append(d.as_str());
        proof {
            assert(s@ =~= dec_digits(n as int / 10).push(digit_char(n as int % 10)));
        }
        s
    }
}

/// The generated address of member `id`.
fn default_address(id: u64) -> (r: String)
    ensures
        r@ == default_address_spec(id),
{
    let mut s = "127.0.0.1:".to_owned();
    let port = if id <= u64::MAX - 50000 {
        50000 + id
    } else {
        id
    };
    let d = decimal_string(port);
    s.append(d.as_str());
    s
}

/// `ids` with every occurrence of `me` removed, order kept.
pub open spec fn ids_without(ids: Seq<u64>, me: u64) -> Seq<u64>
    decreases ids.len(),
{
    if ids.len() == 0 {
        Seq::empty()
    } else {
        let rest = ids_without(ids.drop_first(), me);
        if ids[0] == me {
            rest
        } else {
            seq![ids[0]] + rest
        }
    }
}

/// Node ids of every member other than `me`, in membership order.
pub open spec fn peer_ids(s: ClusterState, me: u64) -> Seq<u64> {
    ids_without(s.nodes@.map_values(|p: (u64, String)| p.0), me)
}

proof fn lemma_ids_without_snoc(ids: Seq<u64>, x: u64, me: u64)
    ensures
        ids_without(ids.push(x), me) == if x == me {
            ids_without(ids, me)
        } else {
            ids_without(ids, me).push(x)
        },
    decreases ids.len(),
{
    if ids.len() == 0 {
        assert(ids.push(x)[0] == x);
        assert(ids.push(x).drop_first() =~= Seq::<u64>::empty());
        assert(ids_without(Seq::<u64>::empty(), me) =~= Seq::<u64>::empty());
        if x != me {
            assert(seq![x] + Seq::<u64>::empty() =~= ids_without(ids, me).push(x));
        }
    } else {
        assert(ids.push(x)[0] == ids[0]);
        assert(ids.push(x).drop_first() =~= ids.drop_first().push(x));
        lemma_ids_without_snoc(ids.drop_first(), x, me);
        if ids[0] != me && x != me {
            assert(seq![ids[0]] + ids_without(ids.drop_first(), me).push(x) =~= (seq![ids[0]]
                + ids_without(ids.drop_first(), me)).push(x));
        }
    }
}

/// The per-node manager: this node's identity and its local directory
/// copy.
pub struct ClusterManager {
    pub node_id: u64,
    pub state: ClusterState,
}

impl ClusterManager {
    pub open spec fn wf(self) -> bool {
        self.state.wf()
    }

    /// Bootstrap from this node's id and the initial peer list: every
    /// one becomes a member with a generated address and no load, and no
    /// queue is assigned yet.
    pub fn new(node_id: u64, peers: Vec<u64>) -> (r: ClusterManager)
        ensures
            r.wf(),
            r.node_id == node_id,
            r.state.has_node(node_id),
            forall|i: int| 0 <= i < peers@.len() ==> r.state.has_node(#[trigger] peers@[i]),
            r.state.queue_assignments@.len() == 0,
    {
        let mut state = ClusterState::empty();
        state.add_node(node_id, default_address(node_id));
        let mut i: usize = 0;
        while i < peers.len()
            invariant
                i <= peers@.len(),
                state.wf(),
                state.has_node(node_id),
                forall|k: int| 0 <= k < i ==> state.has_node(#[trigger] peers@[k]),
                state.queue_assignments@.len() == 0,
            decreases peers@.len() - i,
        {
            let p = peers[i];
            state.add_node(p, default_address(p));
            i = i + 1;
        }
        ClusterManager { node_id, state }
    }

    /// Record (or re-address) a member, then rebalance: afterwards no
    /// member's load exceeds `ceil(total queues / member count)`, and the
    /// set of queues is unchanged.
    pub fn add_node(&mut self, node_id: u64, address: String)
        requires
            old(self).wf(),
        ensures
            final(self).wf(),
            final(self).node_id == old(self).node_id,
            final(self).state.has_node(node_id),
            forall|m: u64| old(self).state.has_node(m) ==> final(self).state.has_node(m),
            final(self).state.queue_assignments@.len() == old(self).state.queue_assignments@.len(),
            forall|j: int|
                0 <= j < final(self).state.queue_assignments@.len() ==> (#[trigger] final(self).state.queue_assignments@[j]).0@ == old(self).state.queue_assignments@[j].0@,
            forall|i: int|
                0 <= i < final(self).state.node_loads@.len() ==> (#[trigger] final(self).state.node_loads@[i]).1 <= final(self).state.rebalance_target(),
    {
        self.state.add_node(node_id, address);
        let ghost mid = self.state;
        self.state.rebalance();
        proof {
            assert(self.state.nodes@.len() > 0);
            assert(self.state.rebalance_target() == mid.rebalance_target());
        }
    }

    /// Remove a member (reassigning its queues), then rebalance.
    pub fn remove_node(&mut self, node_id: u64)
        requires
            old(self).wf(),
        ensures
            final(self).wf(),
            final(self).node_id == old(self).node_id,
            !final(self).state.has_node(node_id),
            (old(self).state.has_node(node_id) && old(self).state.nodes@.len() == 1) ==> final(self).state.queue_assignments@.len() == 0,
            !(old(self).state.has_node(node_id) && old(self).state.nodes@.len() == 1) ==> {
                &&& final(self).state.queue_assignments@.len() == old(self).state.queue_assignments@.len()
                &&& forall|j: int|
                    0 <= j < final(self).state.queue_assignments@.len() ==> (#[trigger] final(self).state.queue_assignments@[j]).0@ == old(self).state.queue_assignments@[j].0@
            },
            final(self).state.nodes@.len() > 0 ==> forall|i: int|
                0 <= i < final(self).state.node_loads@.len() ==> (#[trigger] final(self).state.node_loads@[i]).1 <= final(self).state.rebalance_target(),
    {
        self.state.remove_node(node_id);
        let ghost mid = self.state;
        self.state.rebalance();
        proof {
            if mid.nodes@.len() > 0 {
                assert(self.state.rebalance_target() == mid.rebalance_target());
            }
        }
    }

    /// Choose and record an owner for `queue` by the default least-loaded
    /// policy.
    pub fn assign_queue(&mut self, queue: &String) -> (r: Option<u64>)
        requires
            old(self).wf(),
        ensures
            final(self).wf(),
            final(self).node_id == old(self).node_id,
            crate::directory::assign_post(
                old(self).state,
                final(self).state,
                queue@,
                None,
                r,
            ),
    {
        self.state.assign(queue, None)
    }

    /// Choose and record an owner for `queue`, honouring a valid member
    /// proposed by a pluggable assignment strategy and falling back to
    /// the default policy otherwise.
    pub fn assign_queue_with(&mut self, queue: &String, preferred: Option<u64>) -> (r: Option<
        u64,
    >)
        requires
            old(self).wf(),
        ensures
            final(self).wf(),
            final(self).node_id == old(self).node_id,
            crate::directory::assign_post(
                old(self).state,
                final(self).state,
                queue@,
                preferred,
                r,
            ),
    {
        self.state.assign(queue, preferred)
    }

    /// Rebalance queue ownership: afterwards no member's load exceeds
    /// `ceil(total queues / member count)`; membership and the set of
    /// queues are untouched.
    pub fn rebalance_queues(&mut self)
        requires
            old(self).wf(),
        ensures
            final(self).wf(),
            final(self).node_id == old(self).node_id,
            final(self).state.nodes@ == old(self).state.nodes@,
            final(self).state.queue_assignments@.len() == old(self).state.queue_assignments@.len(),
            forall|j: int|
                0 <= j < final(self).state.queue_assignments@.len() ==> (#[trigger] final(self).state.queue_assignments@[j]).0@ == old(self).state.queue_assignments@[j].0@,
            old(self).state.nodes@.len() > 0 ==> forall|i: int|
                0 <= i < final(self).state.node_loads@.len() ==> (#[trigger] final(self).state.node_loads@[i]).1 <= final(self).state.rebalance_target(),
    {
        let ghost pre = self.state;
        self.state.rebalance();
        proof {
            if pre.nodes@.len() > 0 {
                assert(self.state.rebalance_target() == pre.rebalance_target());
            }
        }
    }

    /// The recorded owner of `queue`, if any.
    pub fn get_queue_node(&self, queue: &String) -> (r: Option<u64>)
        ensures
            match r {
                Some(n) => self.state.owns(queue@, n),
                None => !self.state.has_queue(queue@),
            },
    {
        self.state.get_owner(queue)
    }

    /// A deep copy of the local directory.
    pub fn get_state(&self) -> (r: ClusterState)
        ensures
            r.nodes@ == self.state.nodes@,
            r.queue_assignments@ == self.state.queue_assignments@,
            r.node_loads@ == self.state.node_loads@,
    {
        self.state.snapshot()
    }

    /// The snapshot pushes for one sync cycle: one serialized copy of the
    /// local directory for every other member.
    pub fn sync_state(&self) -> (r: Vec<(u64, Vec<u8>)>)
        ensures
            state_enc_ok(self.state),
            r@.map_values(|p: (u64, Vec<u8>)| p.0) == peer_ids(self.state, self.node_id),
            forall|i: int|
                0 <= i < r@.len() ==> (#[trigger] r@[i]).1@ == enc_state(self.state) && r@[i].0
                    != self.node_id && self.state.has_node(r@[i].0),
    {
        let bytes = encode_state(&self.state);
        let mut r: Vec<(u64, Vec<u8>)> = Vec::new();
        let mut i: usize = 0;
        while i < self.state.nodes.len()
            invariant
                i <= self.state.nodes@.len(),
                bytes@ == enc_state(self.state),
                r@.map_values(|p: (u64, Vec<u8>)| p.0) == ids_without(
                    self.state.nodes@.map_values(|p: (u64, String)| p.0).take(i as int),
                    self.node_id,
                ),
                forall|k: int|
                    0 <= k < r@.len() ==> (#[trigger] r@[k]).1@ == enc_state(self.state) && r@[k].0
                        != self.node_id && self.state.has_node(r@[k].0),
            decreases self.state.nodes@.len() - i,
        {
            let ghost ids = self.state.nodes@.map_values(|p: (u64, String)| p.0);
            let ghost prev = r@;
            let id = self.state.nodes[i].0;
            if id != self.node_id {
                let payload = crate::queue::copy_bytes(&bytes);
                r.push((id, payload));
            }
            proof {
                lemma_ids_without_snoc(ids.take(i as int), ids[i as int], self.node_id);
                assert(ids.take(i as int + 1) =~= ids.take(i as int).push(ids[i as int]));
                assert(ids[i as int] == id);
                assert(self.state.has_node(id) || id == self.node_id);
                if id != self.node_id {
                    assert(self.state.nodes@[i as int].0 == id);
                    assert(r@.map_values(|p: (u64, Vec<u8>)| p.0) =~= prev.map_values(
                        |p: (u64, Vec<u8>)| p.0,
                    ).push(id));
                }
            }
            i = i + 1;
        }
        proof {
            let ids = self.state.nodes@.map_values(|p: (u64, String)| p.0);
            assert(ids.take(ids.len() as int) =~= ids);
        }
        r
    }

    /// Apply a received snapshot last-writer-wins: the whole local copy
    /// is replaced by the decoded directory if it is well formed;
    /// malformed input (or a directory violating the invariant) is
    /// rejected and the local copy stays untouched. Returns whether the
    /// snapshot was applied.
    pub fn update_state(&mut self, bytes: &Vec<u8>) -> (r: bool)
        ensures
            final(self).node_id == old(self).node_id,
            old(self).wf() ==> final(self).wf(),
            match dec_state(bytes@) {
                None => !r && *final(self) == *old(self),
                Some(t) => {
                    &&& r == wf_views(t.0, t.1, t.2)
                    &&& r ==> map_nodes(final(self).state.nodes@) == t.0 && map_assigns(
                        final(self).state.queue_assignments@,
                    ) == t.1 && map_loads(final(self).state.node_loads@) == t.2 && final(self).state.wf()
                    &&& !r ==> *final(self) == *old(self)
                },
            },
    {
        match decode_state(bytes) {
            None => false,
            Some(st) => {
                let ok = st.check_wf();
                proof {
                    lemma_wf_views(st);
                }
                if ok {
                    self.state = st;
                    true
                } else {
                    false
                }
            },
        }
    }

    /// The leader's periodic duties, as a pure decision: a node that is
    /// currently the leader produces the snapshot pushes for its peers
    /// and rebalances; any other node does nothing. The caller performs
    /// the pushes.
    pub fn leader_duties(&mut self, leader: Option<u64>) -> (r: Option<Vec<(u64, Vec<u8>)>>)
        requires
            old(self).wf(),
        ensures
            final(self).wf(),
            final(self).node_id == old(self).node_id,
            match r {
                None => leader != Some(old(self).node_id) && *final(self) == *old(self),
                Some(pushes) => {
                    &&& leader == Some(old(self).node_id)
                    &&& state_enc_ok(old(self).state)
                    &&& pushes@.map_values(|p: (u64, Vec<u8>)| p.0) == peer_ids(
                        old(self).state,
                        old(self).node_id,
                    )
                    &&& forall|i: int|
                        0 <= i < pushes@.len() ==> (#[trigger] pushes@[i]).1@ == enc_state(
                            old(self).state,
                        ) && pushes@[i].0 != old(self).node_id
                    &&& final(self).state.queue_assignments@.len() == old(self).state.queue_assignments@.len()
                    &&& forall|j: int|
                        0 <= j < final(self).state.queue_assignments@.len() ==> (#[trigger] final(self).state.queue_assignments@[j]).0@ == old(self).state.queue_assignments@[j].0@
                    &&& final(self).state.nodes@.len() > 0 ==> forall|i: int|
                        0 <= i < final(self).state.node_loads@.len() ==> (#[trigger] final(self).state.node_loads@[i]).1 <= final(self).state.rebalance_target()
                },
            },
    {
        let is_leader = match leader {
            Some(l) => l == self.node_id,
            None => false,
        };
        if !is_leader {
            return None;
        }
        let pushes = self.sync_state();
        let ghost mid = self.state;
        self.state.rebalance();
        proof {
            if self.state.nodes@.len() > 0 {
                assert(self.state.rebalance_target() == mid.rebalance_target());
            }
        }
        Some(pushes)
    }
}

} // verus!
