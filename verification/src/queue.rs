//! The durable per-queue FIFO.
//!
//! A queue's logical state is the ordered sequence of not-yet-dequeued
//! messages. Each message is also held in a persisted store entry under a
//! monotonically increasing key (never the caller-supplied message id, so
//! that reloading in key order cannot reorder). Reconstructing a queue
//! from its store yields the same sequence; a persisted value that fails
//! to parse is skipped on reload.

use vstd::prelude::*;

use crate::codec::{decode_message, dec_message, enc_message, encode_message, str_enc_ok};
use crate::Message;

verus! {

/// Store entries with byte values as sequences.
pub open spec fn map_entries(v: Seq<(u128, Vec<u8>)>) -> Seq<(u128, Seq<u8>)> {
    v.map_values(|p: (u128, Vec<u8>)| (p.0, p.1@))
}

/// Message fields as sequences, for stating store/memory agreement.
pub open spec fn msg_views(s: Seq<Message>) -> Seq<(Seq<char>, Seq<char>)> {
    s.map_values(|m: Message| (m.id@, m.content@))
}

/// What a store reloads to: the parseable values, in key order.
pub open spec fn load_spec(entries: Seq<(u128, Seq<u8>)>) -> Seq<(Seq<char>, Seq<char>)>
    decreases entries.len(),
{
    if entries.len() == 0 {
        Seq::empty()
    } else {
        let rest = load_spec(entries.drop_first());
        match dec_message(entries[0].1) {
            Some(m) => seq![m] + rest,
            None => rest,
        }
    }
}

proof fn lemma_load_spec_snoc(s: Seq<(u128, Seq<u8>)>, x: (u128, Seq<u8>))
    ensures
        load_spec(s.push(x)) == load_spec(s) + (match dec_message(x.1) {
            Some(m) => seq![m],
            None => Seq::empty(),
        }),
    decreases s.len(),
{
    let tailm = (match dec_message(x.1) {
        Some(m) => seq![m],
        None => Seq::<(Seq<char>, Seq<char>)>::empty(),
    });
    if s.len() == 0 {
        assert(s.push(x)[0] == x);
        assert(s.push(x).drop_first() =~= Seq::<(u128, Seq<u8>)>::empty());
        match dec_message(x.1) {
            Some(m) => {
                assert(load_spec(s.push(x)) == seq![m] + load_spec(
                    s.push(x).drop_first(),
                ));
                assert(seq![m] + Seq::<(Seq<char>, Seq<char>)>::empty() =~= seq![m]);
                assert(load_spec(s) + tailm =~= seq![m]);
            },
            None => {
                assert(load_spec(s.push(x)) == load_spec(s.push(x).drop_first()));
                assert(load_spec(Seq::<(u128, Seq<u8>)>::empty()) =~= Seq::<
                    (Seq<char>, Seq<char>),
                >::empty());
                assert(load_spec(s) + tailm =~= load_spec(s.push(x)));
            },
        }
    } else {
        assert(s.push(x)[0] == s[0]);
        assert(s.push(x).drop_first() =~= s.drop_first().push(x));
        lemma_load_spec_snoc(s.drop_first(), x);
        match dec_message(s[0].1) {
            Some(m) => {
                assert(load_spec(s.push(x)) == seq![m] + (load_spec(s.drop_first()) + tailm));
                assert(seq![m] + (load_spec(s.drop_first()) + tailm) =~= (seq![m] + load_spec(
                    s.drop_first(),
                )) + tailm);
            },
            None => {},
        }
    }
}

pub(crate) fn copy_bytes(v: &Vec<u8>) -> (r: Vec<u8>)
    ensures
        r@ == v@,
{
    let mut r: Vec<u8> = Vec::new();
    let mut i: usize = 0;
    while i < v.len()
        invariant
            i <= v@.len(),
            r@ =~= v@.take(i as int),
        decreases v@.len() - i,
    {
        r.push(v[i]);
        i = i + 1;
    }
    proof {
        assert(r@ =~= v@);
    }
    r
}

/// A durable FIFO queue: decoded pending messages plus their persisted
/// records under strictly increasing keys.
pub struct Queue {
    pub name: String,
    pub entries: Vec<(u128, Vec<u8>)>,
    pub messages: Vec<Message>,
}

impl Queue {
    /// The pending messages, oldest first.
    pub open spec fn contents(self) -> Seq<Message> {
        self.messages@
    }

    pub open spec fn name_spec(self) -> Seq<char> {
        self.name@
    }

    /// Store and memory agree: equal lengths, strictly increasing keys,
    /// and each persisted value is the encoding of its message.
    pub open spec fn wf(self) -> bool {
        &&& self.entries@.len() == self.messages@.len()
        &&& forall|i: int, j: int|
            0 <= i < j < self.entries@.len() ==> self.entries@[i].0 < self.entries@[j].0
        &&& forall|i: int|
            0 <= i < self.entries@.len() ==> (#[trigger] self.entries@[i]).1@ == enc_message(
                self.messages@[i].id@,
                self.messages@[i].content@,
            )
        &&& forall|i: int|
            0 <= i < self.messages@.len() ==> str_enc_ok((#[trigger] self.messages@[i]).id@)
                && str_enc_ok(self.messages@[i].content@)
    }

    /// Reloading a well-formed queue's store yields exactly its pending
    /// messages: persistence loses nothing (with `new` below, the
    /// round-trip over a restart).
    pub proof fn lemma_reload(self)
        requires
            self.wf(),
        ensures
            load_spec(map_entries(self.entries@)) == msg_views(self.messages@),
    {
        lemma_reload_seq(map_entries(self.entries@), msg_views(self.messages@));
    }

    /// Rebuild a queue from its persisted store, in key order; values
    /// that fail to parse are skipped.
    pub fn new(name: String, store: Vec<(u128, Vec<u8>)>) -> (r: Queue)
        requires
            forall|i: int, j: int| 0 <= i < j < store@.len() ==> store@[i].0 < store@[j].0,
        ensures
            r.wf(),
            r.name_spec() == name@,
            msg_views(r.contents()) == load_spec(map_entries(store@)),
    {
        let mut q = Queue { name, entries: Vec::new(), messages: Vec::new() };
        let mut i: usize = 0;
        while i < store.len()
            invariant
                i <= store@.len(),
                forall|a: int, b: int| 0 <= a < b < store@.len() ==> store@[a].0 < store@[b].0,
                q.name@ == name@,
                q.wf(),
                msg_views(q.messages@) == load_spec(map_entries(store@.take(i as int))),
                forall|a: int|
                    0 <= a < q.entries@.len() ==> exists|b: int|
                        0 <= b < i && (#[trigger] q.entries@[a]).0 == store@[b].0,
                forall|a: int, b: int|
                    0 <= a < q.entries@.len() && i <= b < store@.len() ==> (
                    #[trigger] q.entries@[a]).0 < (#[trigger] store@[b]).0,
            decreases store@.len() - i,
        {
            let ghost prevq = q;
            let value = copy_bytes(&store[i].1);
            match decode_message(&value) {
                Some(m) => {
                    proof {
                        assert(dec_message(value@) == Some((m.id@, m.content@)));
                        lemma_message_parse_bounds(m.id@, m.content@, value@);
                    }
                    q.entries.push((store[i].0, value));
                    q.messages.push(m);
                },
                None => {},
            }
            proof {
                let taken = map_entries(store@.take(i as int));
                lemma_load_spec_snoc(taken, (store@[i as int].0, store@[i as int].1@));
                assert(map_entries(store@.take(i as int + 1)) =~= taken.push(
                    (store@[i as int].0, store@[i as int].1@),
                ));
                match dec_message(store@[i as int].1@) {
                    Some(mv) => {
                        assert(msg_views(q.messages@) =~= msg_views(prevq.messages@).push(mv));
                        assert(load_spec(taken) + seq![mv] =~= msg_views(q.messages@));
                    },
                    None => {
                        assert(load_spec(taken) + Seq::<(Seq<char>, Seq<char>)>::empty()
                            =~= load_spec(taken));
                    },
                }
            }
            i = i + 1;
        }
        proof {
            assert(store@.take(store@.len() as int) =~= store@);
        }
        q
    }

    /// Append a message at the tail and persist it under a fresh key
    /// greater than every existing one.
    pub fn enqueue(&mut self, message: Message)
        requires
            old(self).wf(),
        ensures
            final(self).wf(),
            final(self).name_spec() == old(self).name_spec(),
            final(self).contents() == old(self).contents().push(message),
    {
        let key: u128 = if self.entries.len() == 0 {
            0
        } else {
            let lastk = self.entries[self.entries.len() - 1].0;
            if lastk == u128::MAX {
                self.renumber();
                let n = self.entries.len();
                n as u128
            } else {
                lastk + 1
            }
        };
        proof {
            assert(forall|i: int|
                0 <= i < self.entries@.len() ==> (#[trigger] self.entries@[i]).0 < key);
        }
        let encoded = encode_message(&message);
        self.entries.push((key, encoded));
        self.messages.push(message);
    }

    /// Remove and return the oldest message, deleting its persisted
    /// record; `None` exactly when the queue is empty.
    pub fn dequeue(&mut self) -> (r: Option<Message>)
        requires
            old(self).wf(),
        ensures
            final(self).wf(),
            final(self).name_spec() == old(self).name_spec(),
            match r {
                Some(m) => old(self).contents().len() > 0 && m == old(self).contents()[0]
                    && final(self).contents() == old(self).contents().drop_first(),
                None => old(self).contents().len() == 0 && *final(self) == *old(self),
            },
    {
        if self.messages.len() == 0 {
            return None;
        }
        self.entries.remove(0);
        let m = self.messages.remove(0);
        proof {
            assert(self.entries@ =~= old(self).entries@.drop_first());
            assert(self.messages@ =~= old(self).messages@.drop_first());
        }
        Some(m)
    }

    /// A deep copy of the persisted store, for writing out or for
    /// rebuilding the queue after a restart.
    pub fn persisted(&self) -> (r: Vec<(u128, Vec<u8>)>)
        ensures
            map_entries(r@) == map_entries(self.entries@),
            r@.len() == self.entries@.len(),
            forall|i: int| 0 <= i < r@.len() ==> (#[trigger] r@[i]).0 == self.entries@[i].0,
    {
        let mut r: Vec<(u128, Vec<u8>)> = Vec::new();
        let mut i: usize = 0;
        while i < self.entries.len()
            invariant
                i <= self.entries@.len(),
                r@.len() == i as int,
                forall|a: int|
                    0 <= a < i ==> (#[trigger] r@[a]).0 == self.entries@[a].0 && r@[a].1@
                        == self.entries@[a].1@,
            decreases self.entries@.len() - i,
        {
            r.push((self.entries[i].0, copy_bytes(&self.entries[i].1)));
            i = i + 1;
        }
        proof {
            assert(map_entries(r@) =~= map_entries(self.entries@));
        }
        r
    }

    /// The number of pending messages.
    pub fn len(&self) -> (r: usize)
        ensures
            r == self.contents().len(),
    {
        self.messages.len()
    }

    /// Rewrite the store keys to `0..len`, preserving order and values.
    fn renumber(&mut self)
        requires
            old(self).wf(),
        ensures
            final(self).wf(),
            final(self).name_spec() == old(self).name_spec(),
            final(self).contents() == old(self).contents(),
            final(self).entries@.len() == old(self).entries@.len(),
            forall|i: int|
                0 <= i < final(self).entries@.len() ==> (#[trigger] final(self).entries@[i]).0
                    == i,
    {
        let mut fresh: Vec<(u128, Vec<u8>)> = Vec::new();
        let mut i: usize = 0;
        while i < self.entries.len()
            invariant
                i <= self.entries@.len(),
                fresh@.len() == i as int,
                forall|a: int|
                    0 <= a < i ==> (#[trigger] fresh@[a]).0 == a && fresh@[a].1@
                        == self.entries@[a].1@,
            decreases self.entries@.len() - i,
        {
            fresh.push((i as u128, copy_bytes(&self.entries[i].1)));
            i = i + 1;
        }
        self.entries = fresh;
    }
}

/// First-in first-out order: enqueues append (`enqueue` leaves
/// `contents == old.push(m)`, so `n` enqueues onto contents `s0` leave
/// `s0 + ms`), and each dequeue takes the front (`dequeue` returns
/// `contents[0]` and leaves `contents.drop_first()`). Hence after `k`
/// dequeues the contents are `(s0 + ms).skip(k)` and the next dequeue
/// returns element `k`: messages come out in exactly the order they
/// went in.
pub proof fn lemma_fifo_order(s0: Seq<Message>, ms: Seq<Message>, k: int)
    requires
        0 <= k < (s0 + ms).len(),
    ensures
        (s0 + ms).skip(k).len() > 0,
        (s0 + ms).skip(k)[0] == (s0 + ms)[k],
        (s0 + ms).skip(k).drop_first() == (s0 + ms).skip(k + 1),
{
    let all = s0 + ms;
    assert(all.skip(k).len() == all.len() - k);
    assert(all.skip(k)[0] == all[k]);
    assert(all.skip(k).drop_first() =~= all.skip(k + 1));
}

/// The two parsed fields of a well-framed record are encodable again.
proof fn lemma_message_parse_bounds(id: Seq<char>, content: Seq<char>, b: Seq<u8>)
    requires
        dec_message(b) == Some((id, content)),
    ensures
        str_enc_ok(id),
        str_enc_ok(content),
        b == enc_message(id, content),
{
    crate::codec::lemma_message_parse_inverse(b, id, content);
}

/// Store entries that each encode their message reload to exactly those
/// messages.
proof fn lemma_reload_seq(entries: Seq<(u128, Seq<u8>)>, msgs: Seq<(Seq<char>, Seq<char>)>)
    requires
        entries.len() == msgs.len(),
        forall|i: int|
            0 <= i < entries.len() ==> (#[trigger] entries[i]).1 == enc_message(
                msgs[i].0,
                msgs[i].1,
            ),
        forall|i: int|
            0 <= i < msgs.len() ==> str_enc_ok((#[trigger] msgs[i]).0) && str_enc_ok(msgs[i].1),
    ensures
        load_spec(entries) == msgs,
    decreases entries.len(),
{
    if entries.len() > 0 {
        crate::codec::lemma_message_round_trip(msgs[0].0, msgs[0].1);
        assert(dec_message(entries[0].1) == Some((msgs[0].0, msgs[0].1)));
        lemma_reload_seq(entries.drop_first(), msgs.drop_first());
        assert((msgs[0].0, msgs[0].1) == msgs[0]);
        assert(seq![msgs[0]] + msgs.drop_first() =~= msgs);
    }
}

} // verus!
