//! Diagnostic text: node names, node descriptions, code bits, and a graph
//! listing of a tree.
use vstd::prelude::*;
use vstd::string::StringExecFns;
use crate::tree::{Word, SZEntry};

verus! {

/// Relies on String::push: appends one character.
#[verifier::external_body]
fn push_char(s: &mut String, c: char)
    ensures
        final(s)@ == old(s)@.push(c),
{
    s.push(c)
}

/// The character of a decimal digit.
pub open spec fn digit(d: nat) -> char {
    ((48 + d) as u8) as char
}

/// The decimal digits of `n`, most significant first.
pub open spec fn decimal(n: nat) -> Seq<char>
    decreases n,
{
    if n < 10 {
        seq![digit(n)]
    } else {
        decimal(n / 10).push(digit(n % 10))
    }
}

fn push_decimal(s: &mut String, n: usize)
    ensures
        final(s)@ == old(s)@ + decimal(n as nat),
    decreases n,
{
    if n >= 10 {
        push_decimal(s, n / 10);
    }
    let d: u8 = (n % 10) as u8;
    push_char(s, (48 + d) as char);
    proof {
        if n >= 10 {
            assert(old(s)@ + decimal((n / 10) as nat) + seq![digit((n % 10) as nat)]
                =~= old(s)@ + decimal(n as nat));
        } else {
            assert(old(s)@.push(digit(n as nat)) =~= old(s)@ + decimal(n as nat));
        }
    }
}

/// The name of a node in the graph listing: its value and count for an
/// internal node, its value and character for a leaf.
pub open spec fn name_text(w: Word) -> Seq<char> {
    decimal(w.value as nat) + seq!['_'] + if w.is_empty {
        decimal(w.count as nat)
    } else {
        seq![w.value as char]
    }
}

/// A node described for a reader: a leaf as its character, value and
/// count, an internal node as an anonymous node with its count.
pub open spec fn description(w: Word) -> Seq<char> {
    if w.is_empty {
        seq!['\u{d8}', '('] + decimal(w.count as nat) + seq![')']
    } else {
        seq!['\'', w.value as char, '\'', ' ', '-', '>', ' '] + decimal(w.value as nat) + seq![' ', '(']
            + decimal(w.count as nat) + seq![')']
    }
}

/// The line relating a node to one of its children.
pub open spec fn edge_text(parent: Word, c: Word) -> Seq<char> {
    seq!['"'] + name_text(parent) + seq!['"', ' ', '-', '-', ' ', '"'] + name_text(c) + seq!['"', ';', '\n']
}

/// The relations of a tree, one per line: a node's own, left then right,
/// then those below its left child, then those below its right child.
pub open spec fn dot_lines(w: Word) -> Seq<char>
    decreases w,
{
    (match w.left { Some(l) => edge_text(w, *l), None => Seq::empty() })
        + (match w.right { Some(r) => edge_text(w, *r), None => Seq::empty() })
        + (match w.left { Some(l) => dot_lines(*l), None => Seq::empty() })
        + (match w.right { Some(r) => dot_lines(*r), None => Seq::empty() })
}

/// The bits of a code as '0' and '1', first step first.
pub open spec fn bits_text(e: SZEntry) -> Seq<char> {
    e.view_bits().map_values(|b: bool| if b { '1' } else { '0' })
}

fn push_name(s: &mut String, w: &Word)
    ensures
        final(s)@ == old(s)@ + name_text(*w),
{
    push_decimal(s, w.value as usize);
    push_char(s, '_');
    if w.is_empty {
        push_decimal(s, w.count);
    } else {
        push_char(s, w.value as char);
    }
    assert(final(s)@ =~= old(s)@ + name_text(*w));
}

fn push_edge(s: &mut String, parent: &Word, c: &Word)
    ensures
        final(s)@ == old(s)@ + edge_text(*parent, *c),
{
    push_char(s, '"');
    push_name(s, parent);
    push_char(s, '"');
    push_char(s, ' ');
    push_char(s, '-');
    push_char(s, '-');
    push_char(s, ' ');
    push_char(s, '"');
    push_name(s, c);
    push_char(s, '"');
    push_char(s, ';');
    push_char(s, '\n');
    assert(final(s)@ =~= old(s)@ + edge_text(*parent, *c));
}

fn push_dot(s: &mut String, w: &Word)
    ensures
        final(s)@ == old(s)@ + dot_lines(*w),
    decreases w,
{
    let ghost start = s@;
    if let Some(left) = &w.left {
        push_edge(s, w, left);
    }
    if let Some(right) = &w.right {
        push_edge(s, w, right);
    }
    if let Some(left) = &w.left {
        push_dot(s, left);
    }
    if let Some(right) = &w.right {
        push_dot(s, right);
    }
    assert(s@ =~= start + dot_lines(*w));
}

impl Word {
    /// The node's name in the graph listing.
    pub fn name(&self) -> (r: String)
        ensures
            r@ == name_text(*self),
    {
        let mut s = String::new();
        push_name(&mut s, self);
        assert(s@ =~= name_text(*self));
        s
    }

    /// The node described for a reader.
    pub fn describe(&self) -> (r: String)
        ensures
            r@ == description(*self),
    {
        let mut s = String::new();
        if self.is_empty {
            push_char(&mut s, '\u{d8}');
            push_char(&mut s, '(');
            push_decimal(&mut s, self.count);
            push_char(&mut s, ')');
        } else {
            push_char(&mut s, '\'');
            push_char(&mut s, self.value as char);
            push_char(&mut s, '\'');
            push_char(&mut s, ' ');
            push_char(&mut s, '-');
            push_char(&mut s, '>');
            push_char(&mut s, ' ');
            push_decimal(&mut s, self.value as usize);
            push_char(&mut s, ' ');
            push_char(&mut s, '(');
            push_decimal(&mut s, self.count);
            push_char(&mut s, ')');
        }
        assert(s@ =~= description(*self));
        s
    }

    /// The tree as a graph listing: one `"parent" -- "child";` line per
    /// relation, inside a `graph TREE { ... }` block.
    pub fn dot_text(&self) -> (r: String)
        ensures
            r@ == "graph TREE {\n"@ + dot_lines(*self) + "}\n"@,
    {
        let mut s = String::new();
        s.append("graph TREE {\n");
        push_dot(&mut s, self);
        s.append("}\n");
        assert(s@ =~= "graph TREE {\n"@ + dot_lines(*self) + "}\n"@);
        s
    }
}

impl SZEntry {
    /// The bits of the code as '0' and '1', first step first.
    pub fn bit_string(&self) -> (r: String)
        ensures
            r@ == bits_text(*self),
    {
        let mut s = String::new();
        let mut v: usize = self.value;
        let mut i: usize = 0;
        let ghost all = self.view_bits();
        proof {
            crate::tree::lemma_bit_seq_len(self.value as nat, self.bits as nat);
        }
        assert(all.subrange(0, 0) + crate::tree::bit_seq(v as nat, self.bits as nat) =~= all);
        while i < self.bits
            invariant
                i <= self.bits,
                all == self.view_bits(),
                all.len() == self.bits,
                all.subrange(0, i as int) + crate::tree::bit_seq(v as nat, (self.bits - i) as nat) == all,
                s@ == all.subrange(0, i as int).map_values(|b: bool| if b { '1' } else { '0' }),
            decreases self.bits - i,
        {
            let ghost rest = crate::tree::bit_seq(v as nat, (self.bits - i) as nat);
            assert(v & 1 == v % 2 && v >> 1 == v / 2) by (bit_vector);
            assert(rest[0] == (v % 2 == 1));
            assert(rest.drop_first() =~= crate::tree::bit_seq((v / 2) as nat, (self.bits - i - 1) as nat));
            assert(all[i as int] == rest[0]) by {
                assert(all[i as int] == (all.subrange(0, i as int) + rest)[i as int]);
            }
            if v & 1 == 1 {
                push_char(&mut s, '1');
            } else {
                push_char(&mut s, '0');
            }
            v = v >> 1;
            i += 1;
            assert(s@ =~= all.subrange(0, i as int).map_values(|b: bool| if b { '1' } else { '0' }));
            assert(all.subrange(0, i as int) + crate::tree::bit_seq(v as nat, (self.bits - i) as nat) =~= all);
        }
        assert(all.subrange(0, i as int) =~= all);
        s
    }
}

} // verus!
