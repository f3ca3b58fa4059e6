//! Codes for byte values: the path from the root to a leaf, and back.
use vstd::prelude::*;
use vstd::arithmetic::power2::{pow2, lemma_pow2_unfold, lemma2_to64};
use vstd::bits::{lemma_usize_shl_is_mul, lemma_usize_pow2_no_overflow};
use crate::tree::{Word, SZEntry, bit_seq, child, node_at, walk, path_to};

verus! {

/// The number of direction bits a code can hold.
pub open spec fn code_room() -> nat {
    usize::BITS as nat
}

/// Appending one direction bit to a code of `len` bits sets bit `len`.
pub proof fn lemma_bit_seq_push(path: nat, len: nat, b: bool)
    requires
        path < pow2(len),
    ensures
        bit_seq(path + (if b { pow2(len) } else { 0 }), len + 1) == bit_seq(path, len).push(b),
    decreases len,
{
    let x = path + (if b { pow2(len) } else { 0nat });
    if len == 0 {
        lemma2_to64();
        assert(bit_seq(x / 2, 0) =~= Seq::empty());
        assert(bit_seq(x, 1) =~= bit_seq(path, 0).push(b));
    } else {
        lemma_pow2_unfold(len);
        let half: nat = (if b { pow2((len - 1) as nat) } else { 0nat });
        assert(x % 2 == path % 2 && x / 2 == path / 2 + half);
        lemma_bit_seq_push(path / 2, (len - 1) as nat, b);
        assert((len + 1 - 1) as nat == len);
        assert(bit_seq(x, len + 1) =~= bit_seq(path, len).push(b));
    }
}

/// Codes of `len` bits name numbers below `2^len`.
proof fn lemma_code_room()
    ensures
        pow2(code_room()) == usize::MAX + 1,
{
    lemma2_to64();
    vstd::arithmetic::power2::lemma2_to64_rest();
}

fn find_path(tree: &Word, search: u8, path: usize, bits: usize) -> (r: Option<SZEntry>)
    requires
        bits <= code_room(),
        path < pow2(bits as nat),
    ensures
        match path_to(*tree, search, (code_room() - bits) as nat) {
            None => r.is_none(),
            Some(p) => r.is_some() && r.unwrap().bits == bits + p.len()
                && r.unwrap().view_bits() == bit_seq(path as nat, bits as nat) + p
                && (r.unwrap().value as nat) < pow2(r.unwrap().bits as nat),
        },
    decreases tree,
{
    if !tree.is_empty && tree.value == search {
        proof {
            assert(bit_seq(path as nat, bits as nat) + Seq::<bool>::empty() =~= bit_seq(path as nat, bits as nat));
        }
        return Some(SZEntry::new(path, bits));
    }
    if bits >= usize::BITS as usize {
        return None;
    }
    proof {
        lemma_pow2_unfold((bits + 1) as nat);
        lemma_code_room();
        if bits + 1 < code_room() {
            vstd::arithmetic::power2::lemma_pow2_strictly_increases((bits + 1) as nat, code_room());
        }
    }
    let ghost room = (code_room() - bits - 1) as nat;
    assert((code_room() - (bits + 1)) as nat == room);
    let mut result: Option<SZEntry> = None;
    if let Some(left) = &tree.left {
        proof {
            lemma_bit_seq_push(path as nat, bits as nat, false);
        }
        result = find_path(left, search, path, bits + 1);
        proof {
            if let Some(p) = path_to(**left, search, room) {
                assert(bit_seq(path as nat, bits as nat).push(false) + p
                    =~= bit_seq(path as nat, bits as nat) + (seq![false] + p));
            }
        }
    }
    if result.is_none() {
        if let Some(right) = &tree.right {
            proof {
                lemma_usize_pow2_no_overflow(bits as nat);
                lemma_usize_shl_is_mul(1, bits);
                lemma_bit_seq_push(path as nat, bits as nat, true);
            }
            let step: usize = 1usize << bits;
            result = find_path(right, search, step + path, bits + 1);
            proof {
                if let Some(p) = path_to(**right, search, room) {
                    assert(bit_seq(path as nat, bits as nat).push(true) + p
                        =~= bit_seq(path as nat, bits as nat) + (seq![true] + p));
                }
            }
        }
    }
    result
}

/// The code of `search`: the path to the first true leaf holding it, left
/// subtrees before right ones, or `None` when no such leaf lies within
/// `usize::BITS` steps of the root.
pub fn encode(tree: &Word, search: u8) -> (r: Option<SZEntry>)
    ensures
        match path_to(*tree, search, code_room()) {
            None => r.is_none(),
            Some(p) => r.is_some() && r.unwrap().bits == p.len() && r.unwrap().view_bits() == p
                && (r.unwrap().value as nat) < pow2(r.unwrap().bits as nat),
        },
{
    proof {
        lemma2_to64();
        assert(bit_seq(0, 0) =~= Seq::<bool>::empty());
        assert forall|p: Seq<bool>| Seq::<bool>::empty() + p == p by {
            assert(Seq::<bool>::empty() + p =~= p);
        }
    }
    find_path(tree, search, 0, 0)
}

fn follow_path(tree: &Word, path: usize, bits: usize) -> (r: Option<u8>)
    ensures
        r == walk(*tree, bit_seq(path as nat, bits as nat)),
    decreases bits,
{
    if bits == 0 {
        return tree.value();
    }
    let ghost s = bit_seq(path as nat, bits as nat);
    assert(path & 1 == path % 2 && path >> 1 == path / 2) by (bit_vector);
    assert(s.drop_first() =~= bit_seq((path / 2) as nat, (bits - 1) as nat));
    assert(s[0] == (path % 2 == 1));
    if (path & 1) == 0 {
        if let Some(left) = &tree.left {
            assert(child(*tree, false) == Some(**left));
            return follow_path(left, path >> 1, bits - 1);
        }
    } else if let Some(right) = &tree.right {
        assert(child(*tree, true) == Some(**right));
        return follow_path(right, path >> 1, bits - 1);
    }
    None
}

/// The byte at the true leaf that `path` leads to, or `None` when the path
/// leaves the tree or ends on an internal node.
pub fn decode(tree: &Word, path: SZEntry) -> (r: Option<u8>)
    ensures
        r == walk(*tree, path.view_bits()),
{
    follow_path(tree, path.value, path.bits)
}

} // verus!
