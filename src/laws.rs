//! Properties that hold across the coder's operations.
use vstd::prelude::*;
use crate::tree::{Word, child, node_at, walk, path_to, leaves_are_bare, symbols};
use crate::code::code_room;
use crate::builder::{
    present, lemma_present, occurrences, ranked_before, is_frequency_table, rest, merged_down,
    final_root,
};
use crate::pack::{
    all_coded, stream, code_of, decode_bits, prepend, is_packing, unpacked, bit_total,
    lemma_prepend_push, byte_bits, bytes_bits, lemma_bytes_bits_index, lemma_bytes_bits_len,
};

verus! {

/// Following `a` and then `b` is following `a + b`.
pub proof fn lemma_node_at_append(t: Word, a: Seq<bool>, b: Seq<bool>)
    ensures
        node_at(t, a + b) == (match node_at(t, a) {
            Some(n) => node_at(n, b),
            None => None,
        }),
    decreases a.len(),
{
    if a.len() == 0 {
        assert(a + b =~= b);
    } else {
        assert((a + b)[0] == a[0]);
        assert((a + b).drop_first() =~= a.drop_first() + b);
        if let Some(c) = child(t, a[0]) {
            lemma_node_at_append(c, a.drop_first(), b);
        }
    }
}

/// The path that `path_to` finds ends on a true leaf holding the byte.
pub proof fn lemma_path_to_leaf(t: Word, v: u8, room: nat)
    ensures
        match path_to(t, v, room) {
            Some(p) => match node_at(t, p) {
                Some(n) => !n.is_empty && n.value == v,
                None => false,
            },
            None => true,
        },
    decreases t,
{
    if !t.is_empty && t.value == v {
    } else if room > 0 {
        let r = (room - 1) as nat;
        match t.left {
            Some(l) => {
                lemma_path_to_leaf(*l, v, r);
                if let Some(q) = path_to(*l, v, r) {
                    assert((seq![false] + q).drop_first() =~= q);
                }
            },
            None => {},
        }
        match t.right {
            Some(rt) => {
                lemma_path_to_leaf(*rt, v, r);
                if let Some(q) = path_to(*rt, v, r) {
                    assert((seq![true] + q).drop_first() =~= q);
                }
            },
            None => {},
        }
    }
}

/// Decoding the code of a byte gives the byte back.
pub proof fn lemma_decode_encode(t: Word, v: u8)
    ensures
        path_to(t, v, code_room()) matches Some(p) ==> walk(t, p) == Some(v),
{
    lemma_path_to_leaf(t, v, code_room());
}

/// The number of levels of a tree: a childless node has one.
pub open spec fn height(t: Word) -> nat
    decreases t,
{
    let l = match t.left { Some(c) => height(*c), None => 0 };
    let r = match t.right { Some(c) => height(*c), None => 0 };
    1 + if l >= r { l } else { r }
}

/// Every byte held by a leaf has a code when the tree is shallow enough.
pub proof fn lemma_symbols_coded(t: Word, v: u8, room: nat)
    requires
        symbols(t).contains(v),
        height(t) <= room + 1,
    ensures
        path_to(t, v, room).is_some(),
    decreases t,
{
    if !t.is_empty && t.value == v {
    } else {
        let r = (room - 1) as nat;
        match t.left {
            Some(l) => {
                if symbols(*l).contains(v) {
                    lemma_symbols_coded(*l, v, r);
                }
            },
            None => {},
        }
        match t.right {
            Some(rt) => {
                if symbols(*rt).contains(v) {
                    lemma_symbols_coded(*rt, v, r);
                }
            },
            None => {},
        }
    }
}

proof fn lemma_bare_node_at(t: Word, p: Seq<bool>)
    requires
        leaves_are_bare(t),
    ensures
        node_at(t, p) matches Some(n) ==> leaves_are_bare(n),
    decreases p.len(),
{
    if p.len() > 0 {
        if let Some(c) = child(t, p[0]) {
            lemma_bare_node_at(c, p.drop_first());
        }
    }
}

/// No code of a byte is a prefix of the code of another byte.
pub proof fn lemma_prefix_free(t: Word, v1: u8, v2: u8, room: nat)
    requires
        leaves_are_bare(t),
        v1 != v2,
        path_to(t, v1, room).is_some(),
        path_to(t, v2, room).is_some(),
    ensures
        ({
            let p1 = path_to(t, v1, room).unwrap();
            let p2 = path_to(t, v2, room).unwrap();
            !(p1.len() <= p2.len() && p2.subrange(0, p1.len() as int) == p1)
        }),
{
    let p1 = path_to(t, v1, room).unwrap();
    let p2 = path_to(t, v2, room).unwrap();
    lemma_path_to_leaf(t, v1, room);
    lemma_path_to_leaf(t, v2, room);
    if p1.len() <= p2.len() && p2.subrange(0, p1.len() as int) == p1 {
        let q = p2.subrange(p1.len() as int, p2.len() as int);
        assert(p1 + q =~= p2);
        lemma_node_at_append(t, p1, q);
        lemma_bare_node_at(t, p1);
        let n1 = node_at(t, p1).unwrap();
        assert(n1.has_no_children());
        if q.len() > 0 {
            assert(child(n1, q[0]).is_none());
        } else {
            assert(node_at(n1, q) == Some(n1));
        }
    }
}

/// Below an internal node, the bits of a code followed by more bits
/// decode to the coded byte and then to whatever the rest decodes to.
proof fn lemma_decode_code(t: Word, cur: Word, v: u8, room: nat, rest: Seq<bool>)
    requires
        leaves_are_bare(cur),
        cur.is_empty,
        path_to(cur, v, room).is_some(),
    ensures
        decode_bits(t, cur, path_to(cur, v, room).unwrap() + rest)
            == prepend(seq![v], decode_bits(t, t, rest)),
    decreases cur,
{
    let p = path_to(cur, v, room).unwrap();
    let r = (room - 1) as nat;
    let from_left = match cur.left {
        Some(l) => path_to(*l, v, r),
        None => None,
    };
    let (dir, c) = if from_left.is_some() {
        (false, *cur.left.unwrap())
    } else {
        (true, *cur.right.unwrap())
    };
    let q = path_to(c, v, r).unwrap();
    assert(p == seq![dir] + q);
    assert(child(cur, dir) == Some(c));
    assert(leaves_are_bare(c));
    assert((p + rest)[0] == dir);
    assert((p + rest).drop_first() =~= q + rest);
    if !c.is_empty {
        assert(c.has_no_children());
        assert(c.value == v && q.len() == 0);
        assert(q + rest =~= rest);
    } else {
        lemma_decode_code(t, c, v, r, rest);
    }
}

/// The codes of a sequence of bytes, followed by more bits, decode to
/// those bytes and then to whatever the rest decodes to.
pub proof fn lemma_decode_stream(t: Word, s: Seq<u8>, rest: Seq<bool>)
    requires
        leaves_are_bare(t),
        t.is_empty,
        all_coded(t, s),
    ensures
        decode_bits(t, t, stream(t, s) + rest) == prepend(s, decode_bits(t, t, rest)),
    decreases s.len(),
{
    if s.len() == 0 {
        assert(stream(t, s) + rest =~= rest);
        if let Some(x) = decode_bits(t, t, rest) {
            assert(s + x =~= x);
        }
    } else {
        let init = s.drop_last();
        let x = s.last();
        assert(path_to(t, s[s.len() - 1], code_room()).is_some());
        assert forall|i: int| 0 <= i < init.len() implies (#[trigger] path_to(t, init[i], code_room())).is_some() by {
            assert(init[i] == s[i]);
            assert(path_to(t, s[i], code_room()).is_some());
        }
        assert(stream(t, s) + rest =~= stream(t, init) + (code_of(t, x) + rest));
        lemma_decode_stream(t, init, code_of(t, x) + rest);
        lemma_decode_code(t, t, x, code_room(), rest);
        lemma_prepend_push(init, x, decode_bits(t, t, rest));
        assert(init.push(x) =~= s);
    }
}

/// A buffer that packs a bit string unpacks by decoding that bit string.
pub proof fn lemma_unpack_packing(t: Word, out: Seq<u8>, bits: Seq<bool>)
    requires
        is_packing(out, bits),
    ensures
        unpacked(t, out) == decode_bits(t, t, bits),
{
    let n = 3 + bits.len();
    assert(out.len() >= 1);
    assert(bit_total(out) == n);
    if n <= 3 {
        assert(bits.len() == 0);
    }
}

/// Unpacking what `inflate` packed with a tree gives back the bytes it
/// packed, for a tree whose root is internal and whose leaves are bare.
pub proof fn lemma_round_trip(t: Word, s: Seq<u8>, out: Seq<u8>)
    requires
        leaves_are_bare(t),
        t.is_empty,
        all_coded(t, s),
        is_packing(out, stream(t, s)),
    ensures
        unpacked(t, out) == Some(s),
{
    lemma_unpack_packing(t, out, stream(t, s));
    lemma_decode_stream(t, s, Seq::empty());
    assert(stream(t, s) + Seq::<bool>::empty() =~= stream(t, s));
    assert(s + Seq::<u8>::empty() =~= s);
}

/// The round trip for a message's own tree: a tree whose leaves hold
/// exactly the message's bytes, with an internal root, bare leaves and codes
/// that fit in `usize::BITS` bits, unpacks the packed message to itself.
pub proof fn lemma_message_round_trip(t: Word, data: Seq<u8>, out: Seq<u8>)
    requires
        symbols(t) == present(data),
        leaves_are_bare(t),
        t.is_empty,
        height(t) <= code_room() + 1,
        is_packing(out, stream(t, data)),
    ensures
        unpacked(t, out) == Some(data),
{
    assert forall|i: int| 0 <= i < data.len() implies (#[trigger] path_to(t, data[i], code_room())).is_some() by {
        lemma_present(data, i);
        lemma_symbols_coded(t, data[i], code_room());
    }
    lemma_round_trip(t, data, out);
}

/// `w` is the bare leaf that a frequency table of `data` holds for its value.
pub open spec fn is_leaf_of(data: Seq<u8>, w: Word) -> bool {
    !w.is_empty && w.has_no_children() && w.count == occurrences(data, w.value)
}

/// Every entry of `a` is the bare leaf of `data` for its value.
pub open spec fn all_leaves_of(data: Seq<u8>, a: Seq<Word>) -> bool {
    forall|i: int| 0 <= i < a.len() ==> is_leaf_of(data, #[trigger] a[i])
}

/// The entries of `a` stand in strict frequency-table order.
pub open spec fn ranked(a: Seq<Word>) -> bool {
    forall|i: int, j: int| 0 <= i < j < a.len() ==> ranked_before(#[trigger] a[i], #[trigger] a[j])
}

/// Every value of `a` is the value of some entry of `b`.
pub open spec fn covers(a: Seq<Word>, b: Seq<Word>) -> bool {
    forall|i: int| 0 <= i < a.len() ==> exists|j: int| 0 <= j < b.len() && (#[trigger] b[j]).value == (#[trigger] a[i]).value
}

proof fn lemma_tail_ranked(data: Seq<u8>, a: Seq<Word>)
    requires
        a.len() > 0,
        all_leaves_of(data, a),
        ranked(a),
    ensures
        all_leaves_of(data, a.drop_first()),
        ranked(a.drop_first()),
{
    let a2 = a.drop_first();
    assert forall|i: int, j: int| 0 <= i < j < a2.len() implies ranked_before(#[trigger] a2[i], #[trigger] a2[j]) by {
        assert(a2[i] == a[i + 1] && a2[j] == a[j + 1]);
    }
    assert forall|i: int| 0 <= i < a2.len() implies is_leaf_of(data, #[trigger] a2[i]) by {
        assert(a2[i] == a[i + 1]);
    }
}

proof fn lemma_tail_covers(data: Seq<u8>, a: Seq<Word>, b: Seq<Word>)
    requires
        all_leaves_of(data, a),
        a.len() > 0,
        b.len() > 0,
        a[0].value == b[0].value,
        ranked(a),
        covers(a, b),
    ensures
        covers(a.drop_first(), b.drop_first()),
{
    let a2 = a.drop_first();
    let b2 = b.drop_first();
    assert forall|i: int| 0 <= i < a2.len() implies exists|j: int| 0 <= j < b2.len() && (#[trigger] b2[j]).value == (#[trigger] a2[i]).value by {
        assert(a2[i] == a[i + 1]);
        assert(ranked_before(a[0], a[i + 1]));
        assert(is_leaf_of(data, a[0]) && is_leaf_of(data, a[i + 1]));
        assert(a[0].value != a[i + 1].value);
        let m = choose|m: int| 0 <= m < b.len() && (#[trigger] b[m]).value == (#[trigger] a[i + 1]).value;
        assert(m != 0);
        assert(b2[m - 1] == b[m]);
        assert(b2[m - 1].value == a2[i].value);
    }
}

proof fn lemma_heads_agree(data: Seq<u8>, a: Seq<Word>, b: Seq<Word>)
    requires
        a.len() > 0,
        b.len() > 0,
        all_leaves_of(data, a),
        all_leaves_of(data, b),
        ranked(a),
        ranked(b),
        covers(a, b),
        covers(b, a),
    ensures
        a[0] == b[0],
{
    let j = choose|j: int| 0 <= j < b.len() && (#[trigger] b[j]).value == (#[trigger] a[0]).value;
    let k = choose|k: int| 0 <= k < a.len() && (#[trigger] a[k]).value == (#[trigger] b[0]).value;
    assert(is_leaf_of(data, a[0]) && is_leaf_of(data, b[j]) && is_leaf_of(data, a[k]) && is_leaf_of(data, b[0]));
    if j > 0 && k > 0 {
        assert(ranked_before(b[0], b[j]));
        assert(ranked_before(a[0], a[k]));
        assert(b[j] == a[0]);
        assert(a[k] == b[0]);
    }
    assert(a[0].value == b[0].value);
}

proof fn lemma_ranked_unique(data: Seq<u8>, a: Seq<Word>, b: Seq<Word>)
    requires
        all_leaves_of(data, a),
        all_leaves_of(data, b),
        ranked(a),
        ranked(b),
        covers(a, b),
        covers(b, a),
    ensures
        a == b,
    decreases a.len(),
{
    if a.len() == 0 {
        if b.len() > 0 {
            assert(exists|j: int| 0 <= j < a.len() && (#[trigger] a[j]).value == (#[trigger] b[0]).value);
        }
        assert(a =~= b);
    } else if b.len() == 0 {
        assert(exists|j: int| 0 <= j < b.len() && (#[trigger] b[j]).value == (#[trigger] a[0]).value);
    } else {
        lemma_heads_agree(data, a, b);
        lemma_tail_ranked(data, a);
        lemma_tail_ranked(data, b);
        lemma_tail_covers(data, a, b);
        lemma_tail_covers(data, b, a);
        let a2 = a.drop_first();
        let b2 = b.drop_first();
        lemma_ranked_unique(data, a2, b2);
        assert forall|i: int| 0 <= i < a.len() implies a[i] == b[i] by {
            if i > 0 {
                assert(a[i] == a2[i - 1] && b[i] == b2[i - 1]);
            }
        }
        assert(a =~= b);
    }
}

proof fn lemma_table_leaves(data: Seq<u8>, s: Seq<Word>)
    requires
        is_frequency_table(data, s),
    ensures
        all_leaves_of(data, rest(s)),
        ranked(rest(s)),
{
    let a = rest(s);
    assert forall|i: int| 0 <= i < a.len() implies is_leaf_of(data, #[trigger] a[i]) by {
        assert(a[i] == s[i + 1]);
    }
    assert forall|i: int, j: int| 0 <= i < j < a.len() implies ranked_before(#[trigger] a[i], #[trigger] a[j]) by {
        assert(a[i] == s[i + 1] && a[j] == s[j + 1]);
    }
}

proof fn lemma_table_covers(data: Seq<u8>, s1: Seq<Word>, s2: Seq<Word>)
    requires
        is_frequency_table(data, s1),
        is_frequency_table(data, s2),
    ensures
        covers(rest(s1), rest(s2)),
{
    let a = rest(s1);
    let b = rest(s2);
    assert forall|i: int| 0 <= i < a.len() implies exists|j: int| 0 <= j < b.len() && (#[trigger] b[j]).value == (#[trigger] a[i]).value by {
        assert(a[i] == s1[i + 1]);
        let v = a[i].value;
        assert(occurrences(data, v) > 0);
        let m = choose|m: int| 1 <= m < s2.len() && (#[trigger] s2[m]).value == v;
        assert(b[m - 1] == s2[m]);
        assert(b[m - 1].value == a[i].value);
    }
}

/// A message has one frequency table: two tables of the same bytes are equal.
pub proof fn lemma_frequency_table_unique(data: Seq<u8>, s1: Seq<Word>, s2: Seq<Word>)
    requires
        is_frequency_table(data, s1),
        is_frequency_table(data, s2),
    ensures
        s1 == s2,
{
    let a = rest(s1);
    let b = rest(s2);
    lemma_table_leaves(data, s1);
    lemma_table_leaves(data, s2);
    lemma_table_covers(data, s1, s2);
    lemma_table_covers(data, s2, s1);
    lemma_ranked_unique(data, a, b);
    assert(s1[0] == s2[0]);
    assert forall|i: int| 0 <= i < s1.len() implies s1[i] == s2[i] by {
        if i > 0 {
            assert(s1[i] == a[i - 1] && s2[i] == b[i - 1]);
        }
    }
    assert(s1 =~= s2);
}

/// Two runs on the same message build the same tree.
pub proof fn lemma_same_message_same_tree(data: Seq<u8>, s1: Seq<Word>, s2: Seq<Word>)
    requires
        is_frequency_table(data, s1),
        is_frequency_table(data, s2),
    ensures
        final_root(merged_down(s1)) == final_root(merged_down(s2)),
{
    lemma_frequency_table_unique(data, s1, s2);
}

proof fn lemma_bytes_from_bits(x: u8, y: u8)
    requires
        forall|j: int| 0 <= j < 8 ==> #[trigger] byte_bits(x)[j] == byte_bits(y)[j],
    ensures
        x == y,
{
    assert(byte_bits(x)[0] == byte_bits(y)[0]);
    assert(byte_bits(x)[1] == byte_bits(y)[1]);
    assert(byte_bits(x)[2] == byte_bits(y)[2]);
    assert(byte_bits(x)[3] == byte_bits(y)[3]);
    assert(byte_bits(x)[4] == byte_bits(y)[4]);
    assert(byte_bits(x)[5] == byte_bits(y)[5]);
    assert(byte_bits(x)[6] == byte_bits(y)[6]);
    assert(byte_bits(x)[7] == byte_bits(y)[7]);
    assert(x == y) by (bit_vector)
        requires
            ((x >> 0u8) & 1u8 == 1u8) == ((y >> 0u8) & 1u8 == 1u8),
            ((x >> 1u8) & 1u8 == 1u8) == ((y >> 1u8) & 1u8 == 1u8),
            ((x >> 2u8) & 1u8 == 1u8) == ((y >> 2u8) & 1u8 == 1u8),
            ((x >> 3u8) & 1u8 == 1u8) == ((y >> 3u8) & 1u8 == 1u8),
            ((x >> 4u8) & 1u8 == 1u8) == ((y >> 4u8) & 1u8 == 1u8),
            ((x >> 5u8) & 1u8 == 1u8) == ((y >> 5u8) & 1u8 == 1u8),
            ((x >> 6u8) & 1u8 == 1u8) == ((y >> 6u8) & 1u8 == 1u8),
            ((x >> 7u8) & 1u8 == 1u8) == ((y >> 7u8) & 1u8 == 1u8),
    ;
}

/// A bit string has one packing: two buffers that pack it are equal, so
/// packing the same codes twice gives bit-identical output.
pub proof fn lemma_packing_unique(o1: Seq<u8>, o2: Seq<u8>, s: Seq<bool>)
    requires
        is_packing(o1, s),
        is_packing(o2, s),
    ensures
        o1 == o2,
{
    let n = 3 + s.len();
    lemma_bytes_bits_len(o1);
    lemma_bytes_bits_len(o2);
    let h1 = o1[0];
    let h2 = o2[0];
    assert forall|j: u8| j < 3 implies ((h1 >> j) & 1u8 == 1u8) == ((h2 >> j) & 1u8 == 1u8) by {
        assert(((h1 >> j) & 1u8 == 1u8) == ((h2 >> j) & 1u8 == 1u8)) by (bit_vector)
            requires j < 3, h1 & 7u8 == h2 & 7u8;
    }
    assert forall|p: int| 0 <= p < 8 * o1.len() implies #[trigger] bytes_bits(o1)[p] == bytes_bits(o2)[p] by {
        if p < 3 {
            lemma_bytes_bits_index(o1, p);
            lemma_bytes_bits_index(o2, p);
            assert(p / 8 == 0 && p % 8 == p);
            assert(((h1 >> (p as u8)) & 1u8 == 1u8) == ((h2 >> (p as u8)) & 1u8 == 1u8));
        } else if p < n {
            assert(bytes_bits(o1)[p] == bytes_bits(o1).subrange(3, n as int)[p - 3]);
            assert(bytes_bits(o2)[p] == bytes_bits(o2).subrange(3, n as int)[p - 3]);
        }
    }
    assert forall|k: int| 0 <= k < o1.len() implies o1[k] == o2[k] by {
        assert forall|j: int| 0 <= j < 8 implies #[trigger] byte_bits(o1[k])[j] == byte_bits(o2[k])[j] by {
            let p = 8 * k + j;
            lemma_bytes_bits_index(o1, p);
            lemma_bytes_bits_index(o2, p);
            assert(p / 8 == k && p % 8 == j);
            assert(bytes_bits(o1)[p] == bytes_bits(o2)[p]);
        }
        lemma_bytes_from_bits(o1[k], o2[k]);
    }
    assert(o1 =~= o2);
}

/// Two runs on the same message pack it into bit-identical buffers.
pub proof fn lemma_same_message_same_packing(
    data: Seq<u8>,
    s1: Seq<Word>,
    s2: Seq<Word>,
    o1: Seq<u8>,
    o2: Seq<u8>,
)
    requires
        is_frequency_table(data, s1),
        is_frequency_table(data, s2),
        is_packing(o1, stream(final_root(merged_down(s1)), data)),
        is_packing(o2, stream(final_root(merged_down(s2)), data)),
    ensures
        o1 == o2,
{
    lemma_frequency_table_unique(data, s1, s2);
    lemma_packing_unique(o1, o2, stream(final_root(merged_down(s1)), data));
}

} // verus!
