//! Packing codes into bytes behind a three-bit header, and unpacking them.
use vstd::prelude::*;
use crate::tree::{Word, child, path_to, bit_seq};
use crate::code::{encode, code_room};

verus! {

/// The eight bits of a byte, least significant first.
pub open spec fn byte_bits(b: u8) -> Seq<bool> {
    Seq::new(8, |j: int| (b >> (j as u8)) & 1u8 == 1u8)
}

/// The bits of a byte buffer, byte after byte.
pub open spec fn bytes_bits(s: Seq<u8>) -> Seq<bool>
    decreases s.len(),
{
    if s.len() == 0 {
        Seq::empty()
    } else {
        bytes_bits(s.drop_last()) + byte_bits(s.last())
    }
}

/// The code that `encode` gives `b` (meaningful when there is one).
pub open spec fn code_of(t: Word, b: u8) -> Seq<bool> {
    path_to(t, b, code_room()).unwrap()
}

/// Every byte of `s` has a code in `t`.
pub open spec fn all_coded(t: Word, s: Seq<u8>) -> bool {
    forall|i: int| 0 <= i < s.len() ==> (#[trigger] path_to(t, s[i], code_room())).is_some()
}

/// The codes of the bytes of `s`, one after the other.
pub open spec fn stream(t: Word, s: Seq<u8>) -> Seq<bool>
    decreases s.len(),
{
    if s.len() == 0 {
        Seq::empty()
    } else {
        stream(t, s.drop_last()) + code_of(t, s.last())
    }
}

/// `out` holds the bit string `s` behind a three-bit header: the low three
/// bits of the first byte give the total bit count modulo 8, the bits of
/// `s` follow from bit 3 on, and the unused bits of the last byte are zero.
pub open spec fn is_packing(out: Seq<u8>, s: Seq<bool>) -> bool {
    let n = 3 + s.len();
    &&& out.len() == (n + 7) / 8
    &&& bytes_bits(out).subrange(3, n as int) == s
    &&& forall|j: int| n <= j < 8 * out.len() ==> !(#[trigger] bytes_bits(out)[j])
    &&& out[0] & 7u8 == (n % 8) as u8
}

/// The number of meaningful bits in a packed buffer: all bits of every byte
/// but the last, and of the last as many as the header says, 0 meaning 8.
pub open spec fn bit_total(buf: Seq<u8>) -> int {
    let r = (buf[0] & 7u8) as int;
    (buf.len() - 1) * 8 + (if r == 0 { 8 } else { r })
}

/// Prefixes `o` to a decoded sequence; a failed decode stays failed.
pub open spec fn prepend(o: Seq<u8>, r: Option<Seq<u8>>) -> Option<Seq<u8>> {
    match r {
        Some(s) => Some(o + s),
        None => None,
    }
}

/// Decodes `bits` walking down from `cur` and back to the root `t` after
/// each true leaf; `None` when a step finds no child.
pub open spec fn decode_bits(t: Word, cur: Word, bits: Seq<bool>) -> Option<Seq<u8>>
    decreases bits.len(),
{
    if bits.len() == 0 {
        Some(Seq::empty())
    } else {
        match child(cur, bits[0]) {
            None => None,
            Some(c) => if !c.is_empty {
                prepend(seq![c.value], decode_bits(t, t, bits.drop_first()))
            } else {
                decode_bits(t, c, bits.drop_first())
            },
        }
    }
}

/// The bytes that a packed buffer decodes to under `t`.
pub open spec fn unpacked(t: Word, buf: Seq<u8>) -> Option<Seq<u8>> {
    if buf.len() == 0 {
        Some(Seq::empty())
    } else if bit_total(buf) <= 3 {
        Some(Seq::empty())
    } else {
        decode_bits(t, t, bytes_bits(buf).subrange(3, bit_total(buf)))
    }
}

/// The first `f` bits of a byte.
pub open spec fn low_bits(b: u8, f: nat) -> Seq<bool> {
    byte_bits(b).subrange(0, f as int)
}

pub proof fn lemma_bytes_bits_len(s: Seq<u8>)
    ensures
        bytes_bits(s).len() == 8 * s.len(),
    decreases s.len(),
{
    if s.len() > 0 {
        lemma_bytes_bits_len(s.drop_last());
    }
}

/// Bit `i` of a buffer is bit `i % 8` of byte `i / 8`.
pub proof fn lemma_bytes_bits_index(s: Seq<u8>, i: int)
    requires
        0 <= i < 8 * s.len(),
    ensures
        bytes_bits(s).len() == 8 * s.len(),
        bytes_bits(s)[i] == byte_bits(s[i / 8])[i % 8],
    decreases s.len(),
{
    lemma_bytes_bits_len(s);
    lemma_bytes_bits_len(s.drop_last());
    if i < 8 * (s.len() - 1) {
        lemma_bytes_bits_index(s.drop_last(), i);
    } else {
        assert(i / 8 == s.len() - 1);
    }
}

proof fn lemma_push_bytes_bits(s: Seq<u8>, b: u8)
    ensures
        bytes_bits(s.push(b)) == bytes_bits(s) + byte_bits(b),
{
    assert(s.push(b).drop_last() =~= s);
}

/// Setting bit `f` of a byte whose bits from `f` on are clear.
proof fn lemma_set_bit(acc: u8, f: u8, bit: u8)
    requires
        f < 8,
        acc >> f == 0,
        bit < 2,
    ensures
        f == 7 || (acc | (bit << f)) >> ((f + 1) as u8) == 0,
        low_bits(acc | (bit << f), (f + 1) as nat) == low_bits(acc, f as nat).push(bit == 1),
{
    let a2 = acc | (bit << f);
    assert(f < 7 ==> a2 >> ((f + 1) as u8) == 0) by (bit_vector)
        requires f < 8, acc >> f == 0, bit < 2, a2 == acc | (bit << f);
    assert forall|j: u8| j < f implies (a2 >> j) & 1u8 == (acc >> j) & 1u8 by {
        assert((a2 >> j) & 1u8 == (acc >> j) & 1u8) by (bit_vector)
            requires j < f, f < 8, bit < 2, a2 == acc | (bit << f);
    }
    assert((a2 >> f) & 1u8 == bit) by (bit_vector)
        requires f < 8, acc >> f == 0, bit < 2, a2 == acc | (bit << f);
    assert forall|j: int| 0 <= j < f + 1 implies #[trigger] low_bits(a2, (f + 1) as nat)[j] == low_bits(acc, f as nat).push(bit == 1)[j] by {
        if j < f {
            assert((a2 >> (j as u8)) & 1u8 == (acc >> (j as u8)) & 1u8);
        }
    }
    assert(low_bits(a2, (f + 1) as nat) =~= low_bits(acc, f as nat).push(bit == 1));
}

/// A byte whose bits from `f` on are clear is its first `f` bits and zeros.
proof fn lemma_flush(acc: u8, f: u8)
    requires
        f <= 8,
        f == 8 || acc >> f == 0,
    ensures
        low_bits(acc, f as nat) == byte_bits(acc).subrange(0, f as int),
        forall|j: int| f <= j < 8 ==> !(#[trigger] byte_bits(acc)[j]),
{
    assert forall|j: int| f <= j < 8 implies !(#[trigger] byte_bits(acc)[j]) by {
        let k = j as u8;
        assert((acc >> k) & 1u8 == 0u8) by (bit_vector)
            requires f <= k, k < 8, acc >> f == 0;
    }
}

/// Packs the codes of the bytes of `in_buffer` behind a three-bit header;
/// `None` when some byte has no code in `tree`.
pub fn inflate(in_buffer: &[u8], tree: &Word) -> (r: Option<Vec<u8>>)
    ensures
        r.is_some() <==> all_coded(*tree, in_buffer@),
        r matches Some(out) ==> is_packing(out@, stream(*tree, in_buffer@)),
{
    let mut out_buf: Vec<u8> = Vec::new();
    let mut acc: u8 = 0;
    let mut filled: u8 = 3;
    let ghost header = seq![false, false, false];
    proof {
        assert(0u8 >> 3u8 == 0u8) by (bit_vector);
        assert forall|j: int| 0 <= j < 3 implies #[trigger] low_bits(0u8, 3)[j] == header[j] by {
            let k = j as u8;
            assert((0u8 >> k) & 1u8 == 0u8) by (bit_vector);
        }
        assert(low_bits(0u8, 3) =~= header);
        assert(bytes_bits(out_buf@) =~= Seq::<bool>::empty());
        assert(in_buffer@.subrange(0, 0) =~= Seq::<u8>::empty());
    }
    let mut i: usize = 0;
    while i < in_buffer.len()
        invariant
            i <= in_buffer@.len(),
            filled < 8,
            acc >> filled == 0,
            all_coded(*tree, in_buffer@.subrange(0, i as int)),
            bytes_bits(out_buf@) + low_bits(acc, filled as nat)
                == header + stream(*tree, in_buffer@.subrange(0, i as int)),
        decreases in_buffer@.len() - i,
    {
        let ghost prefix = in_buffer@.subrange(0, i as int);
        let ghost next = in_buffer@.subrange(0, i + 1);
        assert(next.drop_last() =~= prefix);
        let encoded = match encode(tree, in_buffer[i]) {
            Some(e) => e,
            None => {
                assert(!all_coded(*tree, in_buffer@));
                return None;
            },
        };
        let ghost code = encoded.view_bits();
        assert(code == code_of(*tree, in_buffer@[i as int]));
        let ghost base = header + stream(*tree, prefix);
        let mut v: usize = encoded.value;
        let mut j: usize = 0;
        assert(code.subrange(0, 0) + bit_seq(v as nat, encoded.bits as nat) =~= code);
        while j < encoded.bits
            invariant
                j <= encoded.bits,
                filled < 8,
                acc >> filled == 0,
                code == encoded.view_bits(),
                code.len() == encoded.bits,
                code.subrange(0, j as int) + bit_seq(v as nat, (encoded.bits - j) as nat) == code,
                bytes_bits(out_buf@) + low_bits(acc, filled as nat) == base + code.subrange(0, j as int),
            decreases encoded.bits - j,
        {
            let ghost rest = bit_seq(v as nat, (encoded.bits - j) as nat);
            assert(v & 1 == v % 2 && v >> 1 == v / 2) by (bit_vector);
            assert(rest[0] == (v % 2 == 1));
            assert(rest.drop_first() =~= bit_seq((v / 2) as nat, (encoded.bits - j - 1) as nat));
            assert(code[j as int] == rest[0]) by {
                assert(code[j as int] == (code.subrange(0, j as int) + rest)[j as int]);
            }
            let bit: u8 = (v & 1) as u8;
            proof {
                lemma_set_bit(acc, filled, bit);
            }
            let ghost old_low = low_bits(acc, filled as nat);
            let ghost old_bytes = bytes_bits(out_buf@);
            acc = acc | (bit << filled);
            filled = filled + 1;
            assert(low_bits(acc, filled as nat) == old_low.push(bit == 1));
            assert(old_bytes + old_low.push(bit == 1) =~= (old_bytes + old_low).push(bit == 1));
            assert(code.subrange(0, j + 1) =~= code.subrange(0, j as int).push(bit == 1));
            assert(bytes_bits(out_buf@) + low_bits(acc, filled as nat) =~= base + code.subrange(0, j + 1));
            if filled == 8 {
                proof {
                    lemma_push_bytes_bits(out_buf@, acc);
                    assert(low_bits(acc, 8) =~= byte_bits(acc));
                    assert(low_bits(0u8, 0) =~= Seq::<bool>::empty());
                    assert(0u8 >> 0u8 == 0u8) by (bit_vector);
                }
                out_buf.push(acc);
                acc = 0;
                filled = 0;
                assert(bytes_bits(out_buf@) + low_bits(acc, filled as nat) =~= base + code.subrange(0, j + 1));
            }
            v = v >> 1;
            j += 1;
            assert(code.subrange(0, j as int) + bit_seq(v as nat, (encoded.bits - j) as nat) =~= code);
        }
        proof {
            assert(code.subrange(0, j as int) =~= code);
            assert(stream(*tree, next) == stream(*tree, prefix) + code);
            assert(base + code =~= header + stream(*tree, next));
            assert forall|k: int| 0 <= k < next.len() implies (#[trigger] path_to(*tree, next[k], code_room())).is_some() by {
                if k < i {
                    assert(next[k] == prefix[k]);
                }
            }
        }
        i += 1;
    }
    assert(in_buffer@.subrange(0, i as int) =~= in_buffer@);
    let ghost s = stream(*tree, in_buffer@);
    let ghost n = 3 + s.len();
    proof {
        lemma_bytes_bits_len(out_buf@);
        lemma_flush(acc, filled);
    }
    let tail = filled;
    if filled != 0 {
        proof {
            lemma_push_bytes_bits(out_buf@, acc);
        }
        out_buf.push(acc);
    }
    proof {
        lemma_bytes_bits_len(out_buf@);
        assert(bytes_bits(out_buf@).subrange(0, n as int) =~= header + s);
        assert(forall|j: int| n <= j < 8 * out_buf@.len() ==> !(#[trigger] bytes_bits(out_buf@)[j]));
        assert(out_buf@.len() >= 1);
        lemma_bytes_bits_index(out_buf@, 0);
        lemma_bytes_bits_index(out_buf@, 1);
        lemma_bytes_bits_index(out_buf@, 2);
        assert forall|k: int| 0 <= k < 3 implies !(#[trigger] bytes_bits(out_buf@)[k]) by {
            assert(bytes_bits(out_buf@)[k] == bytes_bits(out_buf@).subrange(0, n as int)[k]);
            assert((header + s)[k] == header[k]);
        }
        assert(byte_bits(out_buf@[0])[0] == ((out_buf@[0] >> 0u8) & 1u8 == 1u8));
        assert(byte_bits(out_buf@[0])[1] == ((out_buf@[0] >> 1u8) & 1u8 == 1u8));
        assert(byte_bits(out_buf@[0])[2] == ((out_buf@[0] >> 2u8) & 1u8 == 1u8));
    }
    let ghost bb = bytes_bits(out_buf@);
    let first = out_buf[0];
    assert(first & 7u8 == 0u8) by (bit_vector)
        requires (first >> 0u8) & 1u8 != 1u8, (first >> 1u8) & 1u8 != 1u8, (first >> 2u8) & 1u8 != 1u8;
    let head = first | tail;
    let ghost before = out_buf@;
    out_buf.set(0, head);
    proof {
        assert(head & 7u8 == tail) by (bit_vector)
            requires first & 7u8 == 0u8, tail < 8, head == first | tail;
        assert forall|k: u8| 3 <= k < 8 implies (head >> k) & 1u8 == (first >> k) & 1u8 by {
            assert((head >> k) & 1u8 == (first >> k) & 1u8) by (bit_vector)
                requires 3 <= k, k < 8, tail < 8, head == first | tail;
        }
        lemma_bytes_bits_len(out_buf@);
        assert forall|j: int| 3 <= j < 8 * out_buf@.len() implies #[trigger] bytes_bits(out_buf@)[j] == bytes_bits(before)[j] by {
            lemma_bytes_bits_index(out_buf@, j);
            lemma_bytes_bits_index(before, j);
            if j < 8 {
                assert(j / 8 == 0 && j % 8 == j);
                assert((head >> (j as u8)) & 1u8 == (first >> (j as u8)) & 1u8);
            }
        }
        assert forall|k: int| 0 <= k < s.len() implies #[trigger] bytes_bits(out_buf@).subrange(3, n as int)[k] == s[k] by {
            assert(bytes_bits(out_buf@)[3 + k] == bb[3 + k]);
            assert(bb[3 + k] == bb.subrange(0, n as int)[3 + k]);
            assert((header + s)[3 + k] == s[k]);
        }
        assert(bytes_bits(out_buf@).subrange(3, n as int) =~= s);
    }
    Some(out_buf)
}

pub proof fn lemma_prepend_push(o: Seq<u8>, v: u8, r: Option<Seq<u8>>)
    ensures
        prepend(o, prepend(seq![v], r)) == prepend(o.push(v), r),
{
    if let Some(x) = r {
        assert(o + (seq![v] + x) =~= o.push(v) + x);
    }
}

/// Unpacks a buffer made by `inflate`: walks the tree bit by bit from bit
/// 3 up to the bit count the header gives, emitting the byte of each true
/// leaf reached and starting again at the root; `None` when a step finds
/// no child.
pub fn deflate(in_buffer: &[u8], tree: &Word) -> (r: Option<Vec<u8>>)
    ensures
        match r {
            Some(out) => unpacked(*tree, in_buffer@) == Some(out@),
            None => unpacked(*tree, in_buffer@).is_none(),
        },
{
    let mut out_buf: Vec<u8> = Vec::new();
    let len = in_buffer.len();
    if len == 0 {
        return Some(out_buf);
    }
    let b0 = in_buffer[0];
    let header = b0 & 0b111;
    let last_bits: usize = if header == 0 { 8 } else { header as usize };
    assert(header <= 7) by (bit_vector)
        requires header == b0 & 7u8;
    let ghost total = bit_total(in_buffer@);
    assert(total == (len - 1) * 8 + last_bits);
    let ghost all = if total <= 3 { Seq::<bool>::empty() } else { bytes_bits(in_buffer@).subrange(3, total) };
    let ghost goal = if total <= 3 { Some(Seq::<u8>::empty()) } else { decode_bits(*tree, *tree, all) };
    proof {
        lemma_bytes_bits_len(in_buffer@);
        assert(all.len() == if total <= 3 { 0 } else { total - 3 });
        assert(goal == unpacked(*tree, in_buffer@));
        if total <= 3 {
            assert(decode_bits(*tree, *tree, all) == Some(Seq::<u8>::empty()));
        }
        assert(all.subrange(0, all.len() as int) =~= all);
    }
    let mut current_node: &Word = tree;
    let ghost mut p: int = 0;
    let mut idx: usize = 0;
    while idx < len
        invariant
            len == in_buffer@.len(),
            len >= 1,
            idx <= len,
            last_bits == (if in_buffer@[0] & 7u8 == 0 { 8 } else { (in_buffer@[0] & 7u8) as int }),
            total == bit_total(in_buffer@),
            total == (len - 1) * 8 + last_bits,
            1 <= last_bits <= 8,
            all == (if total <= 3 { Seq::<bool>::empty() } else { bytes_bits(in_buffer@).subrange(3, total) }),
            bytes_bits(in_buffer@).len() == 8 * len,
            idx < len ==> p == 8 * idx - 3 + (if idx == 0 { 3int } else { 0int }),
            idx == len ==> p == all.len(),
            0 <= p <= all.len(),
            decode_bits(*tree, *tree, all) == prepend(out_buf@, decode_bits(*tree, *current_node, all.subrange(p, all.len() as int))),
        decreases len - idx,
    {
        let b = in_buffer[idx];
        let start: usize = if idx == 0 { 3 } else { 0 };
        let end: usize = if idx + 1 == len { last_bits } else { 8 };
        let mut cursor: usize = start;
        while cursor < end
            invariant
                len == in_buffer@.len(),
                idx < len,
                b == in_buffer@[idx as int],
                start <= cursor,
                cursor <= end || cursor == start,
                end <= 8,
                end == (if idx + 1 == len { last_bits as int } else { 8 }),
                total == bit_total(in_buffer@),
                total == (len - 1) * 8 + last_bits,
                1 <= last_bits <= 8,
                all == (if total <= 3 { Seq::<bool>::empty() } else { bytes_bits(in_buffer@).subrange(3, total) }),
                bytes_bits(in_buffer@).len() == 8 * len,
                p == 8 * idx + cursor - 3,
                0 <= p <= all.len(),
                decode_bits(*tree, *tree, all) == prepend(out_buf@, decode_bits(*tree, *current_node, all.subrange(p, all.len() as int))),
            decreases end - cursor,
        {
            let ghost pos = 8 * idx + cursor;
            let ghost bits = all.subrange(p, all.len() as int);
            proof {
                assert(total > 3 && pos < total);
                lemma_bytes_bits_index(in_buffer@, pos);
                assert(pos / 8 == idx && pos % 8 == cursor);
                assert(bits[0] == bytes_bits(in_buffer@)[pos]);
                assert(bits.drop_first() =~= all.subrange(p + 1, all.len() as int));
            }
            let sh = cursor as u8;
            let dir = (b >> sh) & 1;
            assert(dir == 0 || dir == 1) by (bit_vector)
                requires dir == (b >> sh) & 1u8;
            assert(bits[0] == (dir == 1));
            let next: &Word = if dir == 0 {
                match &current_node.left {
                    Some(c) => &**c,
                    None => {
                        assert(child(*current_node, bits[0]).is_none());
                        return None;
                    },
                }
            } else {
                match &current_node.right {
                    Some(c) => &**c,
                    None => {
                        assert(child(*current_node, bits[0]).is_none());
                        return None;
                    },
                }
            };
            assert(child(*current_node, bits[0]) == Some(*next));
            if !next.is_empty {
                proof {
                    lemma_prepend_push(out_buf@, next.value, decode_bits(*tree, *tree, bits.drop_first()));
                }
                out_buf.push(next.value);
                current_node = tree;
            } else {
                current_node = next;
            }
            proof {
                p = p + 1;
            }
            cursor += 1;
        }
        proof {
            if idx + 1 == len {
                if total <= 3 {
                    assert(p == 0);
                } else {
                    assert(p == all.len());
                }
            }
        }
        idx += 1;
    }
    proof {
        assert(all.subrange(p, all.len() as int) =~= Seq::<bool>::empty());
        assert(out_buf@ + Seq::<u8>::empty() =~= out_buf@);
    }
    Some(out_buf)
}

} // verus!
