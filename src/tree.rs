//! The coding tree and the bit codes that address its nodes.
use vstd::prelude::*;

verus! {

/// A node of the coding tree: a true leaf holding a byte value, or an
/// internal node (`is_empty`) that groups its children's weights.
#[derive(Debug)]
pub struct Word {
    pub value: u8,
    pub count: usize,
    pub is_empty: bool,
    pub left: Option<Box<Word>>,
    pub right: Option<Box<Word>>,
}

/// A bit code: `bits` direction bits held in the low bits of `value`,
/// least significant first (0 = left, 1 = right).
#[derive(Debug)]
pub struct SZEntry {
    pub value: usize,
    pub bits: usize,
}

impl Word {
    /// The byte a node stands for: only a true leaf stands for one.
    pub open spec fn symbol(self) -> Option<u8> {
        if self.is_empty { None } else { Some(self.value) }
    }

    pub open spec fn has_no_children(self) -> bool {
        self.left.is_none() && self.right.is_none()
    }

    /// A leaf with its occurrence count.
    pub fn new(value: u8, count: usize) -> (w: Self)
        ensures
            w.value == value,
            w.count == count,
            !w.is_empty,
            w.has_no_children(),
    {
        Word { value, count, is_empty: false, left: None, right: None }
    }

    /// A childless placeholder node carrying a total count.
    pub fn empty(count: usize) -> (w: Self)
        ensures
            w.value == 0,
            w.count == count,
            w.is_empty,
            w.has_no_children(),
    {
        Word { value: 0, count, is_empty: true, left: None, right: None }
    }

    /// An internal node over the given children.
    pub fn tree(value: u8, count: usize, left: Option<Word>, right: Option<Word>) -> (w: Self)
        ensures
            w.value == value,
            w.count == count,
            w.is_empty,
            w.left == (match left { Some(l) => Some(Box::new(l)), None => None::<Box<Word>> }),
            w.right == (match right { Some(r) => Some(Box::new(r)), None => None::<Box<Word>> }),
    {
        let l = match left { Some(l) => Some(Box::new(l)), None => None };
        let r = match right { Some(r) => Some(Box::new(r)), None => None };
        Word { value, count, is_empty: true, left: l, right: r }
    }

    /// The byte of a true leaf; `None` for an internal node.
    pub fn value(&self) -> (r: Option<u8>)
        ensures
            r == self.symbol(),
    {
        if self.is_empty { None } else { Some(self.value) }
    }
}

impl SZEntry {
    pub fn new(value: usize, bits: usize) -> (e: Self)
        ensures
            e.value == value,
            e.bits == bits,
    {
        SZEntry { value, bits }
    }

    /// The direction bits of this code, first step first.
    pub open spec fn view_bits(self) -> Seq<bool> {
        bit_seq(self.value as nat, self.bits as nat)
    }
}

/// The low `len` bits of `path`, least significant first.
pub open spec fn bit_seq(path: nat, len: nat) -> Seq<bool>
    decreases len,
{
    if len == 0 {
        Seq::empty()
    } else {
        seq![path % 2 == 1] + bit_seq(path / 2, (len - 1) as nat)
    }
}

pub proof fn lemma_bit_seq_len(path: nat, len: nat)
    ensures
        bit_seq(path, len).len() == len,
    decreases len,
{
    if len > 0 {
        lemma_bit_seq_len(path / 2, (len - 1) as nat);
    }
}

/// The child taken by one step: `false` goes left, `true` goes right.
pub open spec fn child(t: Word, dir: bool) -> Option<Word> {
    let c = if dir { t.right } else { t.left };
    match c {
        Some(b) => Some(*b),
        None => None,
    }
}

/// The node reached from `t` by following the directions in `p`.
pub open spec fn node_at(t: Word, p: Seq<bool>) -> Option<Word>
    decreases p.len(),
{
    if p.len() == 0 {
        Some(t)
    } else {
        match child(t, p[0]) {
            Some(c) => node_at(c, p.drop_first()),
            None => None,
        }
    }
}

/// The byte reached by following `p` from `t`, if `p` ends on a true leaf.
pub open spec fn walk(t: Word, p: Seq<bool>) -> Option<u8> {
    match node_at(t, p) {
        Some(n) => n.symbol(),
        None => None,
    }
}

/// The path to the first true leaf holding `v` in left-before-right
/// depth-first order, among the leaves at most `room` steps below `t`.
pub open spec fn path_to(t: Word, v: u8, room: nat) -> Option<Seq<bool>>
    decreases t,
{
    if !t.is_empty && t.value == v {
        Some(Seq::empty())
    } else if room == 0 {
        None
    } else {
        let from_left = match t.left {
            Some(l) => path_to(*l, v, (room - 1) as nat),
            None => None,
        };
        match from_left {
            Some(p) => Some(seq![false] + p),
            None => match t.right {
                Some(r) => match path_to(*r, v, (room - 1) as nat) {
                    Some(p) => Some(seq![true] + p),
                    None => None,
                },
                None => None,
            },
        }
    }
}

/// No true leaf has children: the shape every built tree has.
pub open spec fn leaves_are_bare(t: Word) -> bool
    decreases t,
{
    &&& (!t.is_empty ==> t.has_no_children())
    &&& match t.left { Some(l) => leaves_are_bare(*l), None => true }
    &&& match t.right { Some(r) => leaves_are_bare(*r), None => true }
}

/// The sum of the counts of the true leaves under `t`.
pub open spec fn leaf_weight(t: Word) -> int
    decreases t,
{
    if !t.is_empty {
        t.count as int
    } else {
        (match t.left { Some(l) => leaf_weight(*l), None => 0 })
            + (match t.right { Some(r) => leaf_weight(*r), None => 0 })
    }
}

/// Every internal node below the root weighs what its leaves weigh.
pub open spec fn weights_add_up(t: Word) -> bool
    decreases t,
{
    &&& (t.is_empty ==> t.count == leaf_weight(t))
    &&& match t.left { Some(l) => weights_add_up(*l), None => true }
    &&& match t.right { Some(r) => weights_add_up(*r), None => true }
}

/// The byte values held by the true leaves under `t`.
pub open spec fn symbols(t: Word) -> Set<u8>
    decreases t,
{
    (if !t.is_empty { set![t.value] } else { Set::empty() })
        + (match t.left { Some(l) => symbols(*l), None => Set::empty() })
        + (match t.right { Some(r) => symbols(*r), None => Set::empty() })
}

/// A tree that can stand in a list of entries awaiting merging.
pub open spec fn is_sound(t: Word) -> bool {
    leaves_are_bare(t) && weights_add_up(t)
}

/// The sum of the counts of a list of entries.
pub open spec fn total(s: Seq<Word>) -> int
    decreases s.len(),
{
    if s.len() == 0 { 0 } else { total(s.drop_last()) + s.last().count }
}

/// The byte values held by the leaves of a list of entries.
pub open spec fn symbols_of(s: Seq<Word>) -> Set<u8>
    decreases s.len(),
{
    if s.len() == 0 { Set::empty() } else { symbols_of(s.drop_last()) + symbols(s.last()) }
}

} // verus!
