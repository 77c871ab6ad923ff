//! Byte formats for persisted messages and for the directory snapshots
//! that the leader broadcasts.
//!
//! Every value is framed with little-endian `u64` length or count
//! prefixes; strings are UTF-8. The spec-level parser functions (`dec_*`)
//! define exactly which byte strings are accepted, the encoders are proved
//! to produce accepted input, and decoding an encoding is proved to give
//! back the original value.

use vstd::prelude::*;
use vstd::bytes::*;
use vstd::utf8::*;
use vstd::slice::{slice_subrange, slice_to_vec};

use crate::directory::ClusterState;
use crate::Message;

verus! {

pub open spec fn enc_u64(v: u64) -> Seq<u8> {
    spec_u64_to_le_bytes(v)
}

pub open spec fn enc_str(s: Seq<char>) -> Seq<u8> {
    enc_u64(encode_utf8(s).len() as u64) + encode_utf8(s)
}

/// A string whose UTF-8 form fits the length prefix.
pub open spec fn str_enc_ok(s: Seq<char>) -> bool {
    encode_utf8(s).len() <= u64::MAX
}

pub open spec fn enc_message(id: Seq<char>, content: Seq<char>) -> Seq<u8> {
    enc_str(id) + enc_str(content)
}

pub open spec fn dec_u64(b: Seq<u8>, pos: int) -> Option<(u64, int)> {
    if 0 <= pos && pos + 8 <= b.len() {
        Some((spec_u64_from_le_bytes(b.subrange(pos, pos + 8)), pos + 8))
    } else {
        None
    }
}

pub open spec fn dec_str(b: Seq<u8>, pos: int) -> Option<(Seq<char>, int)> {
    match dec_u64(b, pos) {
        Some((n, p)) => {
            if p + n <= b.len() && valid_utf8(b.subrange(p, p + n)) {
                Some((decode_utf8(b.subrange(p, p + n)), p + n))
            } else {
                None
            }
        },
        None => None,
    }
}

/// A message record: its id, then its content; nothing may follow.
pub open spec fn dec_message(b: Seq<u8>) -> Option<(Seq<char>, Seq<char>)> {
    match dec_str(b, 0) {
        Some((id, p1)) => match dec_str(b, p1) {
            Some((content, p2)) => {
                if p2 == b.len() {
                    Some((id, content))
                } else {
                    None
                }
            },
            None => None,
        },
        None => None,
    }
}

proof fn lemma_dec_u64_at(b: Seq<u8>, pos: int, v: u64)
    requires
        0 <= pos,
        pos + 8 <= b.len(),
        b.subrange(pos, pos + 8) == enc_u64(v),
    ensures
        dec_u64(b, pos) == Some((v, pos + 8)),
{
    lemma_auto_spec_u64_to_from_le_bytes();
}

proof fn lemma_dec_str_at(b: Seq<u8>, pos: int, s: Seq<char>)
    requires
        0 <= pos,
        str_enc_ok(s),
        pos + enc_str(s).len() <= b.len(),
        b.subrange(pos, pos + enc_str(s).len()) == enc_str(s),
    ensures
        dec_str(b, pos) == Some((s, pos + enc_str(s).len())),
{
    lemma_auto_spec_u64_to_from_le_bytes();
    let eb = encode_utf8(s);
    let n = eb.len() as int;
    let total = enc_str(s).len() as int;
    assert(total == 8 + n);
    assert(b.subrange(pos, pos + 8) =~= enc_str(s).subrange(0, 8));
    assert(enc_str(s).subrange(0, 8) =~= enc_u64((n as u64)));
    lemma_dec_u64_at(b, pos, n as u64);
    assert(b.subrange(pos + 8, pos + 8 + n) =~= enc_str(s).subrange(8, 8 + n));
    assert(enc_str(s).subrange(8, 8 + n) =~= eb);
    broadcast use encode_utf8_valid_utf8;
    broadcast use encode_utf8_decode_utf8;

    assert(valid_utf8(eb));
    assert(decode_utf8(eb) == s);
}

/// Decoding an encoded message gives back exactly its fields.
pub proof fn lemma_message_round_trip(id: Seq<char>, content: Seq<char>)
    requires
        str_enc_ok(id),
        str_enc_ok(content),
    ensures
        dec_message(enc_message(id, content)) == Some((id, content)),
{
    let b = enc_message(id, content);
    assert(b.subrange(0, enc_str(id).len() as int) =~= enc_str(id));
    lemma_dec_str_at(b, 0, id);
    let p1 = enc_str(id).len() as int;
    assert(b.subrange(p1, p1 + enc_str(content).len()) =~= enc_str(content));
    lemma_dec_str_at(b, p1, content);
}

proof fn lemma_dec_u64_sound(b: Seq<u8>, pos: int, v: u64, p: int)
    requires
        dec_u64(b, pos) == Some((v, p)),
    ensures
        p == pos + 8,
        0 <= pos,
        p <= b.len(),
        b.subrange(pos, p) == enc_u64(v),
{
    lemma_auto_spec_u64_to_from_le_bytes();
    assert(b.subrange(pos, pos + 8).len() == 8);
}

proof fn lemma_dec_str_sound(b: Seq<u8>, pos: int, s: Seq<char>, p: int)
    requires
        dec_str(b, pos) == Some((s, p)),
    ensures
        str_enc_ok(s),
        0 <= pos,
        p == pos + enc_str(s).len(),
        p <= b.len(),
        b.subrange(pos, p) == enc_str(s),
{
    lemma_auto_spec_u64_to_from_le_bytes();
    let (n, p1) = dec_u64(b, pos).unwrap();
    lemma_dec_u64_sound(b, pos, n, p1);
    let bytes = b.subrange(p1, p1 + n);
    broadcast use decode_utf8_encode_utf8;

    assert(encode_utf8(decode_utf8(bytes)) == bytes);
    assert(encode_utf8(s).len() == n);
    assert(enc_str(s).len() == 8 + n);
    assert(b.subrange(pos, p) =~= enc_u64(n) + bytes);
}

/// Parser soundness for message records: a successful parse means the
/// input is exactly the encoding of the parsed fields.
pub proof fn lemma_message_parse_inverse(b: Seq<u8>, id: Seq<char>, content: Seq<char>)
    requires
        dec_message(b) == Some((id, content)),
    ensures
        str_enc_ok(id),
        str_enc_ok(content),
        b == enc_message(id, content),
{
    let (id0, p1) = dec_str(b, 0).unwrap();
    lemma_dec_str_sound(b, 0, id0, p1);
    let (c0, p2) = dec_str(b, p1).unwrap();
    lemma_dec_str_sound(b, p1, c0, p2);
    assert(b =~= b.subrange(0, p1) + b.subrange(p1, p2));
}

/// Views of the three directory sections with strings as `Seq<char>`.
pub open spec fn map_nodes(v: Seq<(u64, String)>) -> Seq<(u64, Seq<char>)> {
    v.map_values(|p: (u64, String)| (p.0, p.1@))
}

pub open spec fn map_assigns(v: Seq<(String, u64)>) -> Seq<(Seq<char>, u64)> {
    v.map_values(|p: (String, u64)| (p.0@, p.1))
}

pub open spec fn map_loads(v: Seq<(u64, usize)>) -> Seq<(u64, u64)> {
    v.map_values(|p: (u64, usize)| (p.0, p.1 as u64))
}

pub open spec fn enc_nodes(s: Seq<(u64, Seq<char>)>) -> Seq<u8>
    decreases s.len(),
{
    if s.len() == 0 {
        Seq::empty()
    } else {
        enc_u64(s[0].0) + enc_str(s[0].1) + enc_nodes(s.drop_first())
    }
}

pub open spec fn enc_assigns(s: Seq<(Seq<char>, u64)>) -> Seq<u8>
    decreases s.len(),
{
    if s.len() == 0 {
        Seq::empty()
    } else {
        enc_str(s[0].0) + enc_u64(s[0].1) + enc_assigns(s.drop_first())
    }
}

pub open spec fn enc_loads(s: Seq<(u64, u64)>) -> Seq<u8>
    decreases s.len(),
{
    if s.len() == 0 {
        Seq::empty()
    } else {
        enc_u64(s[0].0) + enc_u64(s[0].1) + enc_loads(s.drop_first())
    }
}

/// The broadcast snapshot: three counted sections.
pub open spec fn enc_state(s: ClusterState) -> Seq<u8> {
    enc_u64(s.nodes@.len() as u64) + enc_nodes(map_nodes(s.nodes@)) + enc_u64(
        s.queue_assignments@.len() as u64,
    ) + enc_assigns(map_assigns(s.queue_assignments@)) + enc_u64(s.node_loads@.len() as u64)
        + enc_loads(map_loads(s.node_loads@))
}

/// Every string in the directory fits its length prefix.
pub open spec fn state_enc_ok(s: ClusterState) -> bool {
    &&& s.nodes@.len() <= u64::MAX
    &&& s.queue_assignments@.len() <= u64::MAX
    &&& s.node_loads@.len() <= u64::MAX
    &&& forall|i: int| 0 <= i < s.nodes@.len() ==> str_enc_ok((#[trigger] s.nodes@[i]).1@)
    &&& forall|j: int|
        0 <= j < s.queue_assignments@.len() ==> str_enc_ok(
            (#[trigger] s.queue_assignments@[j]).0@,
        )
}

pub open spec fn dec_nodes(b: Seq<u8>, pos: int, count: int) -> Option<
    (Seq<(u64, Seq<char>)>, int),
>
    decreases count,
{
    if count <= 0 {
        Some((Seq::empty(), pos))
    } else {
        match dec_u64(b, pos) {
            Some((id, p1)) => match dec_str(b, p1) {
                Some((addr, p2)) => match dec_nodes(b, p2, count - 1) {
                    Some((tail, p3)) => Some((seq![(id, addr)] + tail, p3)),
                    None => None,
                },
                None => None,
            },
            None => None,
        }
    }
}

pub open spec fn dec_assigns(b: Seq<u8>, pos: int, count: int) -> Option<
    (Seq<(Seq<char>, u64)>, int),
>
    decreases count,
{
    if count <= 0 {
        Some((Seq::empty(), pos))
    } else {
        match dec_str(b, pos) {
            Some((name, p1)) => match dec_u64(b, p1) {
                Some((owner, p2)) => match dec_assigns(b, p2, count - 1) {
                    Some((tail, p3)) => Some((seq![(name, owner)] + tail, p3)),
                    None => None,
                },
                None => None,
            },
            None => None,
        }
    }
}

pub open spec fn dec_loads(b: Seq<u8>, pos: int, count: int) -> Option<(Seq<(u64, u64)>, int)>
    decreases count,
{
    if count <= 0 {
        Some((Seq::empty(), pos))
    } else {
        match dec_u64(b, pos) {
            Some((id, p1)) => match dec_u64(b, p1) {
                Some((load, p2)) => {
                    if load <= usize::MAX as u64 {
                        match dec_loads(b, p2, count - 1) {
                            Some((tail, p3)) => Some((seq![(id, load)] + tail, p3)),
                            None => None,
                        }
                    } else {
                        None
                    }
                },
                None => None,
            },
            None => None,
        }
    }
}

/// The full snapshot parse; `None` on any malformed input, including
/// trailing bytes.
pub open spec fn dec_state(b: Seq<u8>) -> Option<
    (Seq<(u64, Seq<char>)>, Seq<(Seq<char>, u64)>, Seq<(u64, u64)>),
> {
    match dec_u64(b, 0) {
        Some((nn, p0)) => match dec_nodes(b, p0, nn as int) {
            Some((ns, p1)) => match dec_u64(b, p1) {
                Some((na, p2)) => match dec_assigns(b, p2, na as int) {
                    Some((asg, p3)) => match dec_u64(b, p3) {
                        Some((nl, p4)) => match dec_loads(b, p4, nl as int) {
                            Some((ls, p5)) => {
                                if p5 == b.len() {
                                    Some((ns, asg, ls))
                                } else {
                                    None
                                }
                            },
                            None => None,
                        },
                        None => None,
                    },
                    None => None,
                },
                None => None,
            },
            None => None,
        },
        None => None,
    }
}

proof fn lemma_enc_nodes_snoc(s: Seq<(u64, Seq<char>)>, x: (u64, Seq<char>))
    ensures
        enc_nodes(s.push(x)) == enc_nodes(s) + enc_u64(x.0) + enc_str(x.1),
    decreases s.len(),
{
    let hx1 = enc_u64(x.0);
    let hx2 = enc_str(x.1);
    if s.len() == 0 {
        assert(s.push(x)[0] == x);
        assert(s.push(x).drop_first() =~= Seq::<(u64, Seq<char>)>::empty());
        assert(enc_nodes(s.push(x)) == hx1 + hx2 + enc_nodes(s.push(x).drop_first()));
        assert(hx1 + hx2 + Seq::<u8>::empty() =~= hx1 + hx2);
        assert(enc_nodes(s) + hx1 + hx2 =~= hx1 + hx2);
    } else {
        let a1 = enc_u64(s[0].0);
        let a2 = enc_str(s[0].1);
        let rest = enc_nodes(s.drop_first());
        assert(s.push(x)[0] == s[0]);
        assert(s.push(x).drop_first() =~= s.drop_first().push(x));
        lemma_enc_nodes_snoc(s.drop_first(), x);
        assert(enc_nodes(s.push(x)) == a1 + a2 + (rest + hx1 + hx2));
        assert(a1 + a2 + (rest + hx1 + hx2) =~= (a1 + a2 + rest) + hx1 + hx2);
        assert(enc_nodes(s) == a1 + a2 + rest);
    }
}

proof fn lemma_enc_assigns_snoc(s: Seq<(Seq<char>, u64)>, x: (Seq<char>, u64))
    ensures
        enc_assigns(s.push(x)) == enc_assigns(s) + enc_str(x.0) + enc_u64(x.1),
    decreases s.len(),
{
    let hx1 = enc_str(x.0);
    let hx2 = enc_u64(x.1);
    if s.len() == 0 {
        assert(s.push(x)[0] == x);
        assert(s.push(x).drop_first() =~= Seq::<(Seq<char>, u64)>::empty());
        assert(enc_assigns(s.push(x)) == hx1 + hx2 + enc_assigns(s.push(x).drop_first()));
        assert(hx1 + hx2 + Seq::<u8>::empty() =~= hx1 + hx2);
        assert(enc_assigns(s) + hx1 + hx2 =~= hx1 + hx2);
    } else {
        let a1 = enc_str(s[0].0);
        let a2 = enc_u64(s[0].1);
        let rest = enc_assigns(s.drop_first());
        assert(s.push(x)[0] == s[0]);
        assert(s.push(x).drop_first() =~= s.drop_first().push(x));
        lemma_enc_assigns_snoc(s.drop_first(), x);
        assert(enc_assigns(s.push(x)) == a1 + a2 + (rest + hx1 + hx2));
        assert(a1 + a2 + (rest + hx1 + hx2) =~= (a1 + a2 + rest) + hx1 + hx2);
        assert(enc_assigns(s) == a1 + a2 + rest);
    }
}

proof fn lemma_enc_loads_snoc(s: Seq<(u64, u64)>, x: (u64, u64))
    ensures
        enc_loads(s.push(x)) == enc_loads(s) + enc_u64(x.0) + enc_u64(x.1),
    decreases s.len(),
{
    let hx1 = enc_u64(x.0);
    let hx2 = enc_u64(x.1);
    if s.len() == 0 {
        assert(s.push(x)[0] == x);
        assert(s.push(x).drop_first() =~= Seq::<(u64, u64)>::empty());
        assert(enc_loads(s.push(x)) == hx1 + hx2 + enc_loads(s.push(x).drop_first()));
        assert(hx1 + hx2 + Seq::<u8>::empty() =~= hx1 + hx2);
        assert(enc_loads(s) + hx1 + hx2 =~= hx1 + hx2);
    } else {
        let a1 = enc_u64(s[0].0);
        let a2 = enc_u64(s[0].1);
        let rest = enc_loads(s.drop_first());
        assert(s.push(x)[0] == s[0]);
        assert(s.push(x).drop_first() =~= s.drop_first().push(x));
        lemma_enc_loads_snoc(s.drop_first(), x);
        assert(enc_loads(s.push(x)) == a1 + a2 + (rest + hx1 + hx2));
        assert(a1 + a2 + (rest + hx1 + hx2) =~= (a1 + a2 + rest) + hx1 + hx2);
        assert(enc_loads(s) == a1 + a2 + rest);
    }
}

/// Splits a framed triple `h1 + h2 + h3` found inside `b` into its parts.
proof fn lemma_triple_pieces(b: Seq<u8>, pos: int, h1: Seq<u8>, h2: Seq<u8>, h3: Seq<u8>)
    requires
        0 <= pos,
        pos + (h1 + h2 + h3).len() <= b.len(),
        b.subrange(pos, pos + (h1 + h2 + h3).len()) == h1 + h2 + h3,
    ensures
        b.subrange(pos, pos + h1.len()) == h1,
        b.subrange(pos + h1.len(), pos + h1.len() + h2.len()) == h2,
        b.subrange(pos + h1.len() + h2.len(), pos + h1.len() + h2.len() + h3.len()) == h3,
{
    let e = h1 + h2 + h3;
    assert forall|i: int| 0 <= i < h1.len() implies b.subrange(pos, pos + h1.len())[i] == h1[i] by {
        assert(b.subrange(pos, pos + e.len())[i] == b[pos + i]);
        assert(e[i] == (h1 + h2)[i]);
    }
    assert(b.subrange(pos, pos + h1.len()) =~= h1);
    assert forall|i: int|
        0 <= i < h2.len() implies b.subrange(pos + h1.len(), pos + h1.len() + h2.len())[i] == h2[i]
        by {
        let j = h1.len() + i;
        assert(b.subrange(pos, pos + e.len())[j] == b[pos + j]);
        assert(e[j] == (h1 + h2)[j]);
    }
    assert(b.subrange(pos + h1.len(), pos + h1.len() + h2.len()) =~= h2);
    assert forall|i: int|
        0 <= i < h3.len() implies b.subrange(
        pos + h1.len() + h2.len(),
        pos + h1.len() + h2.len() + h3.len(),
    )[i] == h3[i] by {
        let j = (h1 + h2).len() + i;
        assert(b.subrange(pos, pos + e.len())[j] == b[pos + j]);
        assert(e[j] == h3[i]);
    }
    assert(b.subrange(pos + h1.len() + h2.len(), pos + h1.len() + h2.len() + h3.len()) =~= h3);
}

proof fn lemma_dec_nodes_at(b: Seq<u8>, pos: int, s: Seq<(u64, Seq<char>)>)
    requires
        0 <= pos,
        pos + enc_nodes(s).len() <= b.len(),
        b.subrange(pos, pos + enc_nodes(s).len()) == enc_nodes(s),
        forall|i: int| 0 <= i < s.len() ==> str_enc_ok((#[trigger] s[i]).1),
    ensures
        dec_nodes(b, pos, s.len() as int) == Some((s, pos + enc_nodes(s).len())),
    decreases s.len(),
{
    lemma_auto_spec_u64_to_from_le_bytes();
    if s.len() > 0 {
        let h1 = enc_u64(s[0].0);
        let h2 = enc_str(s[0].1);
        let h3 = enc_nodes(s.drop_first());
        assert(enc_nodes(s) == h1 + h2 + h3);
        lemma_triple_pieces(b, pos, h1, h2, h3);
        lemma_dec_u64_at(b, pos, s[0].0);
        lemma_dec_str_at(b, pos + 8, s[0].1);
        lemma_dec_nodes_at(b, pos + 8 + h2.len(), s.drop_first());
        assert((s[0].0, s[0].1) == s[0]);
        assert(seq![s[0]] + s.drop_first() =~= s);
    }
}

proof fn lemma_dec_assigns_at(b: Seq<u8>, pos: int, s: Seq<(Seq<char>, u64)>)
    requires
        0 <= pos,
        pos + enc_assigns(s).len() <= b.len(),
        b.subrange(pos, pos + enc_assigns(s).len()) == enc_assigns(s),
        forall|i: int| 0 <= i < s.len() ==> str_enc_ok((#[trigger] s[i]).0),
    ensures
        dec_assigns(b, pos, s.len() as int) == Some((s, pos + enc_assigns(s).len())),
    decreases s.len(),
{
    lemma_auto_spec_u64_to_from_le_bytes();
    if s.len() > 0 {
        let h1 = enc_str(s[0].0);
        let h2 = enc_u64(s[0].1);
        let h3 = enc_assigns(s.drop_first());
        assert(enc_assigns(s) == h1 + h2 + h3);
        lemma_triple_pieces(b, pos, h1, h2, h3);
        lemma_dec_str_at(b, pos, s[0].0);
        lemma_dec_u64_at(b, pos + h1.len(), s[0].1);
        lemma_dec_assigns_at(b, pos + h1.len() + 8, s.drop_first());
        assert((s[0].0, s[0].1) == s[0]);
        assert(seq![s[0]] + s.drop_first() =~= s);
    }
}

proof fn lemma_dec_loads_at(b: Seq<u8>, pos: int, s: Seq<(u64, u64)>)
    requires
        0 <= pos,
        pos + enc_loads(s).len() <= b.len(),
        b.subrange(pos, pos + enc_loads(s).len()) == enc_loads(s),
        forall|i: int| 0 <= i < s.len() ==> (#[trigger] s[i]).1 <= usize::MAX as u64,
    ensures
        dec_loads(b, pos, s.len() as int) == Some((s, pos + enc_loads(s).len())),
    decreases s.len(),
{
    lemma_auto_spec_u64_to_from_le_bytes();
    if s.len() > 0 {
        let h1 = enc_u64(s[0].0);
        let h2 = enc_u64(s[0].1);
        let h3 = enc_loads(s.drop_first());
        assert(enc_loads(s) == h1 + h2 + h3);
        lemma_triple_pieces(b, pos, h1, h2, h3);
        lemma_dec_u64_at(b, pos, s[0].0);
        lemma_dec_u64_at(b, pos + 8, s[0].1);
        lemma_dec_loads_at(b, pos + 16, s.drop_first());
        assert((s[0].0, s[0].1) == s[0]);
        assert(seq![s[0]] + s.drop_first() =~= s);
    }
}

/// Splits six concatenated framed sections found inside `b`.
proof fn lemma_six_pieces(
    b: Seq<u8>,
    h1: Seq<u8>,
    h2: Seq<u8>,
    h3: Seq<u8>,
    h4: Seq<u8>,
    h5: Seq<u8>,
    h6: Seq<u8>,
)
    requires
        b == h1 + h2 + h3 + h4 + h5 + h6,
    ensures
        b.subrange(0, h1.len() as int) == h1,
        b.subrange(h1.len() as int, (h1 + h2).len() as int) == h2,
        b.subrange((h1 + h2).len() as int, (h1 + h2 + h3).len() as int) == h3,
        b.subrange((h1 + h2 + h3).len() as int, (h1 + h2 + h3 + h4).len() as int) == h4,
        b.subrange((h1 + h2 + h3 + h4).len() as int, (h1 + h2 + h3 + h4 + h5).len() as int) == h5,
        b.subrange((h1 + h2 + h3 + h4 + h5).len() as int, b.len() as int) == h6,
{
    assert forall|i: int| 0 <= i < h1.len() implies b.subrange(0, h1.len() as int)[i] == h1[i] by {
        assert(b[i] == (h1 + h2 + h3 + h4 + h5)[i]);
        assert((h1 + h2 + h3 + h4 + h5)[i] == (h1 + h2 + h3 + h4)[i]);
        assert((h1 + h2 + h3 + h4)[i] == (h1 + h2 + h3)[i]);
        assert((h1 + h2 + h3)[i] == (h1 + h2)[i]);
        assert((h1 + h2)[i] == h1[i]);
    }
    assert(b.subrange(0, h1.len() as int) =~= h1);
    assert forall|i: int|
        0 <= i < h2.len() implies b.subrange(h1.len() as int, (h1 + h2).len() as int)[i] == h2[i]
        by {
        let j = h1.len() + i;
        assert(b[j] == (h1 + h2 + h3 + h4 + h5)[j]);
        assert((h1 + h2 + h3 + h4 + h5)[j] == (h1 + h2 + h3 + h4)[j]);
        assert((h1 + h2 + h3 + h4)[j] == (h1 + h2 + h3)[j]);
        assert((h1 + h2 + h3)[j] == (h1 + h2)[j]);
        assert((h1 + h2)[j] == h2[i]);
    }
    assert(b.subrange(h1.len() as int, (h1 + h2).len() as int) =~= h2);
    assert forall|i: int|
        0 <= i < h3.len() implies b.subrange(
        (h1 + h2).len() as int,
        (h1 + h2 + h3).len() as int,
    )[i] == h3[i] by {
        let j = (h1 + h2).len() + i;
        assert(b[j] == (h1 + h2 + h3 + h4 + h5)[j]);
        assert((h1 + h2 + h3 + h4 + h5)[j] == (h1 + h2 + h3 + h4)[j]);
        assert((h1 + h2 + h3 + h4)[j] == (h1 + h2 + h3)[j]);
        assert((h1 + h2 + h3)[j] == h3[i]);
    }
    assert(b.subrange((h1 + h2).len() as int, (h1 + h2 + h3).len() as int) =~= h3);
    assert forall|i: int|
        0 <= i < h4.len() implies b.subrange(
        (h1 + h2 + h3).len() as int,
        (h1 + h2 + h3 + h4).len() as int,
    )[i] == h4[i] by {
        let j = (h1 + h2 + h3).len() + i;
        assert(b[j] == (h1 + h2 + h3 + h4 + h5)[j]);
        assert((h1 + h2 + h3 + h4 + h5)[j] == (h1 + h2 + h3 + h4)[j]);
        assert((h1 + h2 + h3 + h4)[j] == h4[i]);
    }
    assert(b.subrange((h1 + h2 + h3).len() as int, (h1 + h2 + h3 + h4).len() as int) =~= h4);
    assert forall|i: int|
        0 <= i < h5.len() implies b.subrange(
        (h1 + h2 + h3 + h4).len() as int,
        (h1 + h2 + h3 + h4 + h5).len() as int,
    )[i] == h5[i] by {
        let j = (h1 + h2 + h3 + h4).len() + i;
        assert(b[j] == (h1 + h2 + h3 + h4 + h5)[j]);
        assert((h1 + h2 + h3 + h4 + h5)[j] == h5[i]);
    }
    assert(b.subrange(
        (h1 + h2 + h3 + h4).len() as int,
        (h1 + h2 + h3 + h4 + h5).len() as int,
    ) =~= h5);
    assert forall|i: int|
        0 <= i < h6.len() implies b.subrange(
        (h1 + h2 + h3 + h4 + h5).len() as int,
        b.len() as int,
    )[i] == h6[i] by {
        let j = (h1 + h2 + h3 + h4 + h5).len() + i;
        assert(b[j] == h6[i]);
    }
    assert(b.subrange((h1 + h2 + h3 + h4 + h5).len() as int, b.len() as int) =~= h6);
}

/// A well-framed snapshot decodes to exactly the directory it was taken
/// from: the wire format loses nothing.
pub proof fn lemma_snapshot_round_trip(s: ClusterState)
    requires
        state_enc_ok(s),
    ensures
        dec_state(enc_state(s)) == Some(
            (map_nodes(s.nodes@), map_assigns(s.queue_assignments@), map_loads(s.node_loads@)),
        ),
{
    let b = enc_state(s);
    let ns = map_nodes(s.nodes@);
    let asg = map_assigns(s.queue_assignments@);
    let ls = map_loads(s.node_loads@);
    let c1 = enc_u64(s.nodes@.len() as u64);
    let e1 = enc_nodes(ns);
    let c2 = enc_u64(s.queue_assignments@.len() as u64);
    let e2 = enc_assigns(asg);
    let c3 = enc_u64(s.node_loads@.len() as u64);
    let e3 = enc_loads(ls);
    lemma_auto_spec_u64_to_from_le_bytes();
    lemma_six_pieces(b, c1, e1, c2, e2, c3, e3);
    lemma_dec_u64_at(b, 0, s.nodes@.len() as u64);
    let p0 = 8;
    assert forall|i: int| 0 <= i < ns.len() implies str_enc_ok((#[trigger] ns[i]).1) by {
        assert(ns[i].1 == s.nodes@[i].1@);
    }
    lemma_dec_nodes_at(b, p0, ns);
    let p1 = p0 + e1.len() as int;
    lemma_dec_u64_at(b, p1, s.queue_assignments@.len() as u64);
    let p2 = p1 + 8;
    assert forall|i: int| 0 <= i < asg.len() implies str_enc_ok((#[trigger] asg[i]).0) by {
        assert(asg[i].0 == s.queue_assignments@[i].0@);
    }
    lemma_dec_assigns_at(b, p2, asg);
    let p3 = p2 + e2.len() as int;
    lemma_dec_u64_at(b, p3, s.node_loads@.len() as u64);
    let p4 = p3 + 8;
    assert forall|i: int| 0 <= i < ls.len() implies (#[trigger] ls[i]).1 <= usize::MAX as u64 by {
        assert(ls[i].1 == s.node_loads@[i].1 as u64);
    }
    lemma_dec_loads_at(b, p4, ls);
}

/// Relies on `String::from_utf8`: it succeeds exactly on valid UTF-8
/// input, and the returned string is the decoding of those bytes.
#[verifier::external_body]
fn string_from_utf8(bytes: Vec<u8>) -> (r: Option<String>)
    ensures
        r is Some <==> valid_utf8(bytes@),
        r matches Some(s) ==> s@ == decode_utf8(bytes@),
{
    String::from_utf8(bytes).ok()
}

fn push_u64(buf: &mut Vec<u8>, v: u64)
    ensures
        final(buf)@ == old(buf)@ + enc_u64(v),
{
    let mut b = u64_to_le_bytes(v);
    buf.append(&mut b);
}

fn push_str(buf: &mut Vec<u8>, s: &String)
    ensures
        final(buf)@ == old(buf)@ + enc_str(s@),
        str_enc_ok(s@),
{
    let bytes = s.as_str().as_bytes();
    let blen = bytes.len();
    proof {
        assert(bytes@ == encode_utf8(s@));
        assert(blen as int == encode_utf8(s@).len());
    }
    push_u64(buf, blen as u64);
    let mut bv = slice_to_vec(bytes);
    buf.append(&mut bv);
}

fn read_u64(b: &Vec<u8>, pos: usize) -> (r: Option<(u64, usize)>)
    ensures
        match r {
            Some((v, p)) => dec_u64(b@, pos as int) == Some((v, p as int)),
            None => dec_u64(b@, pos as int) is None,
        },
{
    if pos > b.len() {
        return None;
    }
    if b.len() - pos < 8 {
        return None;
    }
    let sl = slice_subrange(b.as_slice(), pos, pos + 8);
    let v = u64_from_le_bytes(sl);
    Some((v, pos + 8))
}

fn read_str(b: &Vec<u8>, pos: usize) -> (r: Option<(String, usize)>)
    ensures
        match r {
            Some((s, p)) => dec_str(b@, pos as int) == Some((s@, p as int)),
            None => dec_str(b@, pos as int) is None,
        },
{
    let (n, p) = match read_u64(b, pos) {
        Some(x) => x,
        None => {
            return None;
        },
    };
    let rem = b.len() - p;
    if n > rem as u64 {
        return None;
    }
    let n_sz = n as usize;
    let bytes = slice_subrange(b.as_slice(), p, p + n_sz);
    let bv = slice_to_vec(bytes);
    match string_from_utf8(bv) {
        Some(s) => Some((s, p + n_sz)),
        None => None,
    }
}

/// Serialize a message for persistence: its id, then its content.
pub fn encode_message(m: &Message) -> (r: Vec<u8>)
    ensures
        r@ == enc_message(m.id@, m.content@),
        str_enc_ok(m.id@),
        str_enc_ok(m.content@),
{
    let mut buf: Vec<u8> = Vec::new();
    push_str(&mut buf, &m.id);
    push_str(&mut buf, &m.content);
    buf
}

/// Serialize a directory snapshot for the `update_state` broadcast.
pub fn encode_state(st: &ClusterState) -> (r: Vec<u8>)
    ensures
        r@ == enc_state(*st),
        state_enc_ok(*st),
{
    let mut buf: Vec<u8> = Vec::new();
    let nn = st.nodes.len();
    push_u64(&mut buf, nn as u64);
    let ghost c1 = enc_u64(nn as u64);
    let mut i: usize = 0;
    while i < st.nodes.len()
        invariant
            i <= st.nodes@.len(),
            st.nodes@.len() == nn as int,
            buf@ == c1 + enc_nodes(map_nodes(st.nodes@.take(i as int))),
            forall|t: int| 0 <= t < i ==> str_enc_ok((#[trigger] st.nodes@[t]).1@),
        decreases st.nodes@.len() - i,
    {
        push_u64(&mut buf, st.nodes[i].0);
        push_str(&mut buf, &st.nodes[i].1);
        proof {
            let pre = map_nodes(st.nodes@.take(i as int));
            let x = (st.nodes@[i as int].0, st.nodes@[i as int].1@);
            lemma_enc_nodes_snoc(pre, x);
            assert(map_nodes(st.nodes@.take(i as int + 1)) =~= pre.push(x));
            assert(buf@ == c1 + (enc_nodes(pre) + enc_u64(x.0) + enc_str(x.1)));
            assert(c1 + (enc_nodes(pre) + enc_u64(x.0) + enc_str(x.1)) =~= c1 + enc_nodes(
                pre.push(x),
            ));
        }
        i = i + 1;
    }
    proof {
        assert(st.nodes@.take(nn as int) =~= st.nodes@);
    }
    let na = st.queue_assignments.len();
    push_u64(&mut buf, na as u64);
    let ghost mid1 = c1 + enc_nodes(map_nodes(st.nodes@)) + enc_u64(na as u64);
    proof {
        assert(buf@ =~= mid1);
    }
    let mut j: usize = 0;
    while j < st.queue_assignments.len()
        invariant
            j <= st.queue_assignments@.len(),
            st.queue_assignments@.len() == na as int,
            buf@ == mid1 + enc_assigns(map_assigns(st.queue_assignments@.take(j as int))),
            forall|t: int| 0 <= t < j ==> str_enc_ok((#[trigger] st.queue_assignments@[t]).0@),
        decreases st.queue_assignments@.len() - j,
    {
        push_str(&mut buf, &st.queue_assignments[j].0);
        push_u64(&mut buf, st.queue_assignments[j].1);
        proof {
            let pre = map_assigns(st.queue_assignments@.take(j as int));
            let x = (st.queue_assignments@[j as int].0@, st.queue_assignments@[j as int].1);
            lemma_enc_assigns_snoc(pre, x);
            assert(map_assigns(st.queue_assignments@.take(j as int + 1)) =~= pre.push(x));
            assert(buf@ == mid1 + (enc_assigns(pre) + enc_str(x.0) + enc_u64(x.1)));
            assert(mid1 + (enc_assigns(pre) + enc_str(x.0) + enc_u64(x.1)) =~= mid1 + enc_assigns(
                pre.push(x),
            ));
        }
        j = j + 1;
    }
    proof {
        assert(st.queue_assignments@.take(na as int) =~= st.queue_assignments@);
    }
    let nl = st.node_loads.len();
    push_u64(&mut buf, nl as u64);
    let ghost mid2 = mid1 + enc_assigns(map_assigns(st.queue_assignments@)) + enc_u64(nl as u64);
    proof {
        assert(buf@ =~= mid2);
    }
    let mut k: usize = 0;
    while k < st.node_loads.len()
        invariant
            k <= st.node_loads@.len(),
            st.node_loads@.len() == nl as int,
            buf@ == mid2 + enc_loads(map_loads(st.node_loads@.take(k as int))),
        decreases st.node_loads@.len() - k,
    {
        push_u64(&mut buf, st.node_loads[k].0);
        push_u64(&mut buf, st.node_loads[k].1 as u64);
        proof {
            let pre = map_loads(st.node_loads@.take(k as int));
            let x = (st.node_loads@[k as int].0, st.node_loads@[k as int].1 as u64);
            lemma_enc_loads_snoc(pre, x);
            assert(map_loads(st.node_loads@.take(k as int + 1)) =~= pre.push(x));
            assert(buf@ == mid2 + (enc_loads(pre) + enc_u64(x.0) + enc_u64(x.1)));
            assert(mid2 + (enc_loads(pre) + enc_u64(x.0) + enc_u64(x.1)) =~= mid2 + enc_loads(
                pre.push(x),
            ));
        }
        k = k + 1;
    }
    proof {
        assert(st.node_loads@.take(nl as int) =~= st.node_loads@);
        assert(buf@ =~= enc_state(*st));
    }
    buf
}

/// Parse a broadcast snapshot into directory sections; `None` on any
/// malformed input.
pub fn decode_state(b: &Vec<u8>) -> (r: Option<ClusterState>)
    ensures
        match r {
            Some(st) => dec_state(b@) == Some(
                (map_nodes(st.nodes@), map_assigns(st.queue_assignments@), map_loads(
                    st.node_loads@,
                )),
            ),
            None => dec_state(b@) is None,
        },
{
    let (nn, p0) = match read_u64(b, 0) {
        Some(x) => x,
        None => {
            return None;
        },
    };
    let mut nodes: Vec<(u64, String)> = Vec::new();
    let mut pos = p0;
    let mut k: u64 = 0;
    while k < nn
        invariant
            k <= nn,
            nodes@.len() == k as int,
            dec_u64(b@, 0) == Some((nn, p0 as int)),
            match dec_nodes(b@, pos as int, (nn - k) as int) {
                Some((tail, pend)) => dec_nodes(b@, p0 as int, nn as int) == Some(
                    (map_nodes(nodes@) + tail, pend),
                ),
                None => dec_nodes(b@, p0 as int, nn as int) is None,
            },
        decreases nn - k,
    {
        let ghost acc0 = map_nodes(nodes@);
        let step = read_u64(b, pos);
        if step.is_none() {
            proof {
                assert(dec_nodes(b@, pos as int, (nn - k) as int) is None);
                assert(dec_state(b@) is None);
            }
            return None;
        }
        let (id, p1) = step.unwrap();
        let step2 = read_str(b, p1);
        if step2.is_none() {
            proof {
                assert(dec_nodes(b@, pos as int, (nn - k) as int) is None);
                assert(dec_state(b@) is None);
            }
            return None;
        }
        let (addr, p2) = step2.unwrap();
        proof {
            assert(dec_nodes(b@, pos as int, (nn - k) as int) == (match dec_nodes(
                b@,
                p2 as int,
                (nn - k) as int - 1,
            ) {
                Some((tail, pend)) => Some((seq![(id, addr@)] + tail, pend)),
                None => None,
            }));
        }
        nodes.push((id, addr));
        pos = p2;
        k = k + 1;
        proof {
            assert(map_nodes(nodes@) =~= acc0.push((id, addr@)));
            match dec_nodes(b@, pos as int, (nn - k) as int) {
                Some((tail, pend)) => {
                    assert(acc0 + (seq![(id, addr@)] + tail) =~= map_nodes(nodes@) + tail);
                },
                None => {},
            }
        }
    }
    proof {
        assert(map_nodes(nodes@) + Seq::<(u64, Seq<char>)>::empty() =~= map_nodes(nodes@));
        assert(dec_nodes(b@, p0 as int, nn as int) == Some((map_nodes(nodes@), pos as int)));
    }
    let step = read_u64(b, pos);
    if step.is_none() {
        proof {
            assert(dec_state(b@) is None);
        }
        return None;
    }
    let (na, p3) = step.unwrap();
    let mut assigns: Vec<(String, u64)> = Vec::new();
    let mut pos2 = p3;
    let mut k2: u64 = 0;
    while k2 < na
        invariant
            k2 <= na,
            assigns@.len() == k2 as int,
            dec_u64(b@, 0) == Some((nn, p0 as int)),
            dec_nodes(b@, p0 as int, nn as int) == Some((map_nodes(nodes@), pos as int)),
            dec_u64(b@, pos as int) == Some((na, p3 as int)),
            match dec_assigns(b@, pos2 as int, (na - k2) as int) {
                Some((tail, pend)) => dec_assigns(b@, p3 as int, na as int) == Some(
                    (map_assigns(assigns@) + tail, pend),
                ),
                None => dec_assigns(b@, p3 as int, na as int) is None,
            },
        decreases na - k2,
    {
        let ghost acc0 = map_assigns(assigns@);
        let step1 = read_str(b, pos2);
        if step1.is_none() {
            proof {
                assert(dec_assigns(b@, pos2 as int, (na - k2) as int) is None);
                assert(dec_state(b@) is None);
            }
            return None;
        }
        let (name, q1) = step1.unwrap();
        let step2 = read_u64(b, q1);
        if step2.is_none() {
            proof {
                assert(dec_assigns(b@, pos2 as int, (na - k2) as int) is None);
                assert(dec_state(b@) is None);
            }
            return None;
        }
        let (owner, q2) = step2.unwrap();
        proof {
            assert(dec_assigns(b@, pos2 as int, (na - k2) as int) == (match dec_assigns(
                b@,
                q2 as int,
                (na - k2) as int - 1,
            ) {
                Some((tail, pend)) => Some((seq![(name@, owner)] + tail, pend)),
                None => None,
            }));
        }
        assigns.push((name, owner));
        pos2 = q2;
        k2 = k2 + 1;
        proof {
            assert(map_assigns(assigns@) =~= acc0.push((name@, owner)));
            match dec_assigns(b@, pos2 as int, (na - k2) as int) {
                Some((tail, pend)) => {
                    assert(acc0 + (seq![(name@, owner)] + tail) =~= map_assigns(assigns@) + tail);
                },
                None => {},
            }
        }
    }
    proof {
        assert(map_assigns(assigns@) + Seq::<(Seq<char>, u64)>::empty() =~= map_assigns(assigns@));
        assert(dec_assigns(b@, p3 as int, na as int) == Some((map_assigns(assigns@), pos2 as int)));
    }
    let step = read_u64(b, pos2);
    if step.is_none() {
        proof {
            assert(dec_state(b@) is None);
        }
        return None;
    }
    let (nl, p4) = step.unwrap();
    let mut loads: Vec<(u64, usize)> = Vec::new();
    let mut pos3 = p4;
    let mut k3: u64 = 0;
    while k3 < nl
        invariant
            k3 <= nl,
            loads@.len() == k3 as int,
            dec_u64(b@, 0) == Some((nn, p0 as int)),
            dec_nodes(b@, p0 as int, nn as int) == Some((map_nodes(nodes@), pos as int)),
            dec_u64(b@, pos as int) == Some((na, p3 as int)),
            dec_assigns(b@, p3 as int, na as int) == Some((map_assigns(assigns@), pos2 as int)),
            dec_u64(b@, pos2 as int) == Some((nl, p4 as int)),
            match dec_loads(b@, pos3 as int, (nl - k3) as int) {
                Some((tail, pend)) => dec_loads(b@, p4 as int, nl as int) == Some(
                    (map_loads(loads@) + tail, pend),
                ),
                None => dec_loads(b@, p4 as int, nl as int) is None,
            },
        decreases nl - k3,
    {
        let ghost acc0 = map_loads(loads@);
        let step1 = read_u64(b, pos3);
        if step1.is_none() {
            proof {
                assert(dec_loads(b@, pos3 as int, (nl - k3) as int) is None);
                assert(dec_state(b@) is None);
            }
            return None;
        }
        let (id, q1) = step1.unwrap();
        let step2 = read_u64(b, q1);
        if step2.is_none() {
            proof {
                assert(dec_loads(b@, pos3 as int, (nl - k3) as int) is None);
                assert(dec_state(b@) is None);
            }
            return None;
        }
        let (load, q2) = step2.unwrap();
        if load > usize::MAX as u64 {
            proof {
                assert(dec_loads(b@, pos3 as int, (nl - k3) as int) is None);
                assert(dec_state(b@) is None);
            }
            return None;
        }
        proof {
            assert(dec_loads(b@, pos3 as int, (nl - k3) as int) == (match dec_loads(
                b@,
                q2 as int,
                (nl - k3) as int - 1,
            ) {
                Some((tail, pend)) => Some((seq![(id, load)] + tail, pend)),
                None => None,
            }));
        }
        loads.push((id, load as usize));
        pos3 = q2;
        k3 = k3 + 1;
        proof {
            assert(map_loads(loads@) =~= acc0.push((id, load)));
            match dec_loads(b@, pos3 as int, (nl - k3) as int) {
                Some((tail, pend)) => {
                    assert(acc0 + (seq![(id, load)] + tail) =~= map_loads(loads@) + tail);
                },
                None => {},
            }
        }
    }
    proof {
        assert(map_loads(loads@) + Seq::<(u64, u64)>::empty() =~= map_loads(loads@));
        assert(dec_loads(b@, p4 as int, nl as int) == Some((map_loads(loads@), pos3 as int)));
    }
    if pos3 != b.len() {
        return None;
    }
    Some(ClusterState { nodes, queue_assignments: assigns, node_loads: loads })
}

/// Parse a persisted message record; `None` on any malformed input.
pub fn decode_message(b: &Vec<u8>) -> (r: Option<Message>)
    ensures
        match r {
            Some(m) => dec_message(b@) == Some((m.id@, m.content@)),
            None => dec_message(b@) is None,
        },
{
    let (id, p1) = match read_str(b, 0) {
        Some(x) => x,
        None => {
            return None;
        },
    };
    let (content, p2) = match read_str(b, p1) {
        Some(x) => x,
        None => {
            return None;
        },
    };
    if p2 != b.len() {
        return None;
    }
    Some(Message { id, content })
}

} // verus!
