//! The frequency table and the tree builder.
use vstd::prelude::*;
use crate::tree::{Word, is_sound, total, symbols, symbols_of, leaf_weight, leaves_are_bare, weights_add_up};

verus! {

/// How many times `b` occurs in `s`.
pub open spec fn occurrences(s: Seq<u8>, b: u8) -> nat
    decreases s.len(),
{
    if s.len() == 0 {
        0
    } else {
        occurrences(s.drop_last(), b) + (if s.last() == b { 1nat } else { 0nat })
    }
}

/// The number of bytes of `s` below `n`.
pub open spec fn occurrences_below(s: Seq<u8>, n: nat) -> nat
    decreases n,
{
    if n == 0 {
        0
    } else {
        occurrences_below(s, (n - 1) as nat) + occurrences(s, (n - 1) as u8)
    }
}

/// The byte values that occur in `s`.
pub open spec fn present(s: Seq<u8>) -> Set<u8> {
    Set::new(|b: u8| occurrences(s, b) > 0)
}

/// `a` stands before `b` in a frequency table: heavier first, and among
/// equal weights the smaller byte value first.
pub open spec fn ranked_before(a: Word, b: Word) -> bool {
    a.count > b.count || (a.count == b.count && a.value < b.value)
}

/// The frequency table of `data`: a placeholder carrying the total count,
/// then one bare leaf per distinct byte, ranked by `ranked_before`.
pub open spec fn is_frequency_table(data: Seq<u8>, s: Seq<Word>) -> bool {
    &&& s.len() >= 1
    &&& s[0].is_empty && s[0].value == 0 && s[0].count == data.len() && s[0].has_no_children()
    &&& forall|i: int| 1 <= i < s.len() ==> {
        &&& !(#[trigger] s[i]).is_empty
        &&& s[i].has_no_children()
        &&& s[i].count == occurrences(data, s[i].value)
        &&& s[i].count > 0
    }
    &&& forall|i: int, j: int| 1 <= i < j < s.len() ==> ranked_before(#[trigger] s[i], #[trigger] s[j])
    &&& forall|b: u8| occurrences(data, b) > 0 ==> exists|i: int| 1 <= i < s.len() && (#[trigger] s[i]).value == b
}

/// How many entries lead `s` with a count of at least `c`.
pub open spec fn heavier_lead(s: Seq<Word>, c: usize) -> nat
    decreases s.len(),
{
    if s.len() == 0 || s[0].count < c {
        0
    } else {
        1 + heavier_lead(s.drop_first(), c)
    }
}

proof fn lemma_heavier_lead_bound(s: Seq<Word>, c: usize)
    ensures
        heavier_lead(s, c) <= s.len(),
    decreases s.len(),
{
    if s.len() > 0 {
        lemma_heavier_lead_bound(s.drop_first(), c);
    }
}

proof fn lemma_merge_step_len(s: Seq<Word>)
    requires
        s.len() >= 2,
    ensures
        merge_step(s).len() == s.len() - 1,
{
    let keep = s.subrange(0, s.len() - 2);
    lemma_heavier_lead_bound(keep, (s[s.len() - 2].count + s.last().count) as usize);
}

proof fn lemma_heavier_lead(s: Seq<Word>, c: usize, k: int)
    requires
        0 <= k <= s.len(),
        forall|j: int| 0 <= j < k ==> (#[trigger] s[j]).count >= c,
        k < s.len() ==> s[k].count < c,
    ensures
        heavier_lead(s, c) == k,
    decreases s.len(),
{
    if k > 0 {
        assert forall|j: int| 0 <= j < k - 1 implies (#[trigger] s.drop_first()[j]).count >= c by {
            assert(s.drop_first()[j] == s[j + 1]);
        }
        lemma_heavier_lead(s.drop_first(), c, k - 1);
    }
}

/// One merge: the last two entries leave, and an internal node over them,
/// labelled with the list's length, joins after every entry at least as
/// heavy as it.
pub open spec fn merge_step(s: Seq<Word>) -> Seq<Word> {
    let right = s.last();
    let left = s[s.len() - 2];
    let merged = Word {
        value: s.len() as u8,
        count: (left.count + right.count) as usize,
        is_empty: true,
        left: Some(Box::new(left)),
        right: Some(Box::new(right)),
    };
    let keep = s.subrange(0, s.len() - 2);
    keep.insert(heavier_lead(keep, merged.count) as int, merged)
}

/// The list left when merging stops, at three entries or fewer.
pub open spec fn merged_down(s: Seq<Word>) -> Seq<Word>
    decreases s.len(),
{
    if s.len() > 3 && merge_step(s).len() < s.len() {
        merged_down(merge_step(s))
    } else {
        s
    }
}

/// The root over a list of two or three entries: it takes the head's count,
/// the last entry as its right child and, of three, the middle as its left.
pub open spec fn final_root(s: Seq<Word>) -> Word {
    Word {
        value: 0,
        count: s[0].count,
        is_empty: true,
        left: if s.len() == 3 { Some(Box::new(s[1])) } else { None },
        right: Some(Box::new(s.last())),
    }
}

/// Inserts `value` after every entry at least as heavy, before the lighter
/// ones; returns the position it took.
fn insert_sorted(words: &mut Vec<Word>, value: Word) -> (k: usize)
    ensures
        k <= old(words)@.len(),
        final(words)@ == old(words)@.insert(k as int, value),
        forall|j: int| 0 <= j < k ==> (#[trigger] old(words)@[j]).count >= value.count,
        k < old(words)@.len() ==> old(words)@[k as int].count < value.count,
        k == heavier_lead(old(words)@, value.count),
{
    let len = words.len();
    let mut i: usize = 0;
    while i < len && words[i].count >= value.count
        invariant
            len == words@.len(),
            words@ == old(words)@,
            i <= len,
            forall|j: int| 0 <= j < i ==> (#[trigger] words@[j]).count >= value.count,
        decreases len - i,
    {
        i += 1;
    }
    proof {
        lemma_heavier_lead(words@, value.count, i as int);
    }
    words.insert(i, value);
    i
}

proof fn lemma_occurrences_push(s: Seq<u8>, x: u8, b: u8)
    ensures
        occurrences(s.push(x), b) == occurrences(s, b) + (if x == b { 1nat } else { 0nat }),
{
    assert(s.push(x).drop_last() =~= s);
}

proof fn lemma_occurrences_bound(s: Seq<u8>, b: u8)
    ensures
        occurrences(s, b) <= s.len(),
    decreases s.len(),
{
    if s.len() > 0 {
        lemma_occurrences_bound(s.drop_last(), b);
    }
}

proof fn lemma_occurrences_below_push(s: Seq<u8>, x: u8, n: nat)
    requires
        n <= 256,
    ensures
        occurrences_below(s.push(x), n) == occurrences_below(s, n) + (if x < n { 1nat } else { 0nat }),
    decreases n,
{
    if n > 0 {
        lemma_occurrences_below_push(s, x, (n - 1) as nat);
        lemma_occurrences_push(s, x, (n - 1) as u8);
    }
}

/// Every byte is below 256, so counting all of them gives the length.
proof fn lemma_occurrences_all(s: Seq<u8>)
    ensures
        occurrences_below(s, 256) == s.len(),
    decreases s.len(),
{
    if s.len() == 0 {
        assert forall|n: nat| n <= 256 implies occurrences_below(s, n) == 0 by {
            lemma_occurrences_below_empty(s, n);
        }
    } else {
        lemma_occurrences_all(s.drop_last());
        lemma_occurrences_below_push(s.drop_last(), s.last(), 256);
        assert(s.drop_last().push(s.last()) =~= s);
    }
}

proof fn lemma_occurrences_below_empty(s: Seq<u8>, n: nat)
    requires
        s.len() == 0,
    ensures
        occurrences_below(s, n) == 0,
    decreases n,
{
    if n > 0 {
        lemma_occurrences_below_empty(s, (n - 1) as nat);
    }
}

/// Counts the bytes of `data` and returns its frequency table.
pub fn fill_dict(data: &[u8]) -> (r: Vec<Word>)
    ensures
        is_frequency_table(data@, r@),
        total(rest(r@)) == data@.len(),
        symbols_of(rest(r@)) == present(data@),
        is_proper(r@),
{
    let mut histogram: Vec<usize> = Vec::new();
    let mut b: usize = 0;
    while b < 256
        invariant
            b <= 256,
            histogram@.len() == b,
            forall|j: int| 0 <= j < b ==> histogram@[j] == 0,
        decreases 256 - b,
    {
        histogram.push(0);
        b += 1;
    }
    let mut i: usize = 0;
    while i < data.len()
        invariant
            i <= data@.len(),
            histogram@.len() == 256,
            forall|v: u8| #[trigger] histogram@[v as int] == occurrences(data@.subrange(0, i as int), v),
        decreases data@.len() - i,
    {
        let ghost before = data@.subrange(0, i as int);
        assert(data@.subrange(0, i + 1) =~= before.push(data@[i as int]));
        proof {
            assert forall|v: u8| true implies occurrences(data@.subrange(0, i + 1), v)
                == occurrences(before, v) + (if data@[i as int] == v { 1nat } else { 0nat }) by {
                lemma_occurrences_push(before, data@[i as int], v);
            }
            lemma_occurrences_bound(before, data@[i as int]);
        }
        let idx = data[i] as usize;
        let c = histogram[idx];
        histogram.set(idx, c + 1);
        i += 1;
    }
    assert(data@.subrange(0, data@.len() as int) =~= data@);
    let mut words: Vec<Word> = Vec::new();
    let mut v: usize = 0;
    while v < 256
        invariant
            v <= 256,
            histogram@.len() == 256,
            forall|u: u8| #[trigger] histogram@[u as int] == occurrences(data@, u),
            forall|j: int| 0 <= j < words@.len() ==> {
                &&& !(#[trigger] words@[j]).is_empty
                &&& words@[j].has_no_children()
                &&& words@[j].count == occurrences(data@, words@[j].value)
                &&& words@[j].count > 0
                &&& words@[j].value < v
            },
            forall|j: int, l: int| 0 <= j < l < words@.len() ==> ranked_before(#[trigger] words@[j], #[trigger] words@[l]),
            forall|u: u8| u < v && occurrences(data@, u) > 0 ==> exists|j: int| 0 <= j < words@.len() && (#[trigger] words@[j]).value == u,
            total(words@) == occurrences_below(data@, v as nat),
            symbols_of(words@) == Set::new(|u: u8| u < v && occurrences(data@, u) > 0),
        decreases 256 - v,
    {
        let count = histogram[v];
        assert(count == occurrences(data@, v as u8));
        if count > 0 {
            let ghost prev = words@;
            let w = Word::new(v as u8, count);
            let k = insert_sorted(&mut words, w);
            proof {
                lemma_total_insert(prev, k as int, w);
                assert(symbols(w) =~= set![v as u8]);
                assert(symbols_of(words@) =~= Set::new(|u: u8| u < v + 1 && occurrences(data@, u) > 0));
            }
            assert forall|j: int, l: int| 0 <= j < l < words@.len() implies ranked_before(#[trigger] words@[j], #[trigger] words@[l]) by {
                if l < k {
                } else if l == k {
                    assert(words@[j] == prev[j]);
                } else if j < k {
                    assert(words@[l] == prev[l - 1]);
                } else if j == k {
                    assert(words@[l] == prev[l - 1]);
                } else {
                    assert(words@[l] == prev[l - 1] && words@[j] == prev[j - 1]);
                }
            }
            assert forall|u: u8| u < v + 1 && occurrences(data@, u) > 0 implies exists|j: int| 0 <= j < words@.len() && (#[trigger] words@[j]).value == u by {
                if u == v {
                    assert(words@[k as int].value == u);
                } else {
                    let j0 = choose|j: int| 0 <= j < prev.len() && (#[trigger] prev[j]).value == u;
                    if j0 < k {
                        assert(words@[j0].value == u);
                    } else {
                        assert(words@[j0 + 1].value == u);
                    }
                }
            }
        } else {
            assert(symbols_of(words@) =~= Set::new(|u: u8| u < v + 1 && occurrences(data@, u) > 0));
            assert forall|u: u8| u < v + 1 && occurrences(data@, u) > 0 implies exists|j: int| 0 <= j < words@.len() && (#[trigger] words@[j]).value == u by {
                assert(u != v);
            }
        }
        v += 1;
    }
    let ghost leaves = words@;
    proof {
        lemma_occurrences_all(data@);
        assert(symbols_of(leaves) =~= present(data@));
    }
    words.insert(0, Word::empty(data.len()));
    assert(rest(words@) =~= leaves);
    assert forall|i: int| 1 <= i < words@.len() implies is_sound(#[trigger] words@[i]) by {
        assert(words@[i] == leaves[i - 1]);
    }
    assert forall|b: u8| occurrences(data@, b) > 0 implies exists|i: int| 1 <= i < words@.len() && (#[trigger] words@[i]).value == b by {
        let j0 = choose|j: int| 0 <= j < leaves.len() && (#[trigger] leaves[j]).value == b;
        assert(words@[j0 + 1].value == b);
    }
    assert forall|i: int, j: int| 1 <= i < j < words@.len() implies ranked_before(#[trigger] words@[i], #[trigger] words@[j]) by {
        assert(words@[i] == leaves[i - 1] && words@[j] == leaves[j - 1]);
    }
    words
}

proof fn lemma_total_insert(s: Seq<Word>, k: int, x: Word)
    requires
        0 <= k <= s.len(),
    ensures
        total(s.insert(k, x)) == total(s) + x.count,
        symbols_of(s.insert(k, x)) == symbols_of(s) + symbols(x),
    decreases s.len(),
{
    let t = s.insert(k, x);
    if k == s.len() {
        assert(t.drop_last() =~= s);
    } else {
        assert(t.drop_last() =~= s.drop_last().insert(k, x));
        lemma_total_insert(s.drop_last(), k, x);
    }
    assert(symbols_of(t) =~= symbols_of(s) + symbols(x));
}

proof fn lemma_total_nonneg(s: Seq<Word>)
    ensures
        total(s) >= 0,
        s.len() >= 1 ==> total(s) >= s.last().count,
    decreases s.len(),
{
    if s.len() > 0 {
        lemma_total_nonneg(s.drop_last());
    }
}

proof fn lemma_single(x: Word)
    ensures
        total(seq![x]) == x.count,
        symbols_of(seq![x]) == symbols(x),
{
    let e = seq![x].drop_last();
    assert(e.len() == 0);
    assert(total(e) == 0);
    assert(symbols_of(e) == Set::<u8>::empty());
    assert(seq![x].last() == x);
    assert(symbols_of(seq![x]) =~= symbols(x));
}

proof fn lemma_sound_weight(t: Word)
    requires
        weights_add_up(t),
    ensures
        leaf_weight(t) == t.count,
{
}

/// The entries after the head of a list.
pub open spec fn rest(s: Seq<Word>) -> Seq<Word> {
    s.drop_first()
}

/// A list whose head outweighs all other entries together, each of which
/// is a sound tree: the shape of a frequency table.
pub open spec fn is_proper(s: Seq<Word>) -> bool {
    &&& s.len() >= 1
    &&& s[0].count >= total(rest(s))
    &&& forall|i: int| 1 <= i < s.len() ==> is_sound(#[trigger] s[i])
}

/// Builds the coding tree: merges the two lightest entries until three are
/// left, then puts the last two under a root that takes the head's count.
/// `None` when there is no entry besides the head.
pub fn build_tree(words: &mut Vec<Word>) -> (r: Option<Word>)
    requires
        total(old(words)@) <= usize::MAX,
    ensures
        r.is_none() <==> old(words)@.len() <= 1,
        r matches Some(t) ==> t == final_root(merged_down(old(words)@)),
        r.is_none() ==> final(words)@ == old(words)@,
        r.is_some() ==> final(words)@ == merged_down(old(words)@).subrange(0, 1),
        match r {
            Some(t) => {
                &&& t.is_empty
                &&& is_proper(old(words)@) ==> {
                    &&& t.count == old(words)@[0].count
                    &&& leaves_are_bare(t)
                    &&& leaf_weight(t) == total(rest(old(words)@))
                    &&& symbols(t) == symbols_of(rest(old(words)@))
                    &&& (match t.left { Some(l) => weights_add_up(*l), None => true })
                    &&& (match t.right { Some(r) => weights_add_up(*r), None => true })
                }
            },
            None => true,
        },
{
    let ghost start = old(words)@;
    let mut count = words.len();
    if count <= 1 {
        return None;
    }
    while count > 3
        invariant
            count == words@.len(),
            count >= 2,
            total(words@) == total(start),
            total(start) <= usize::MAX,
            merged_down(words@) == merged_down(start),
            is_proper(start) ==> {
                &&& is_proper(words@)
                &&& words@[0].count == start[0].count
                &&& total(rest(words@)) == total(rest(start))
                &&& symbols_of(rest(words@)) == symbols_of(rest(start))
            },
        decreases count,
    {
        let ghost before = words@;
        let right = words.pop().unwrap();
        let left = words.pop().unwrap();
        let ghost mid = words@;
        proof {
            assert(before.drop_last() == mid.push(left));
            assert(mid.push(left).drop_last() =~= mid);
            assert(total(before) == total(before.drop_last()) + right.count);
            assert(total(mid.push(left)) == total(mid) + left.count);
            lemma_total_nonneg(mid);
            assert(rest(before).drop_last() =~= rest(mid).push(left));
            assert(rest(mid).push(left).drop_last() =~= rest(mid));
            assert(rest(before).drop_last().drop_last() =~= rest(mid));
            assert(total(rest(before)) == total(rest(before).drop_last()) + right.count);
            assert(total(rest(mid).push(left)) == total(rest(mid)) + left.count);
            assert(symbols_of(rest(before)) == symbols_of(rest(before).drop_last()) + symbols(right));
            assert(symbols_of(rest(mid).push(left)) == symbols_of(rest(mid)) + symbols(left));
            assert(mid[0] == before[0]);
        }
        let merged = Word::tree(#[verifier::truncate] (count as u8), left.count + right.count, Some(left), Some(right));
        proof {
            if is_proper(start) {
                assert(is_sound(before[before.len() - 1]) && is_sound(before[before.len() - 2]));
                lemma_sound_weight(left);
                lemma_sound_weight(right);
                assert(symbols(merged) =~= symbols(left) + symbols(right));
                lemma_total_nonneg(rest(mid));
            }
        }
        let k = insert_sorted(words, merged);
        proof {
            assert(mid =~= before.subrange(0, before.len() - 2));
            assert(words@ == merge_step(before));
            lemma_merge_step_len(before);
            lemma_total_insert(mid, k as int, merged);
            if is_proper(start) {
                assert(k >= 1);
                assert(rest(words@) =~= rest(mid).insert(k - 1, merged));
                lemma_total_insert(rest(mid), k - 1, merged);
                assert(symbols_of(rest(before)) =~= symbols_of(rest(mid)) + symbols(left) + symbols(right));
                assert(symbols_of(rest(words@)) =~= symbols_of(rest(before)));
                assert forall|i: int| 1 <= i < words@.len() implies is_sound(#[trigger] words@[i]) by {
                    if i < k {
                        assert(words@[i] == mid[i]);
                    } else if i > k {
                        assert(words@[i] == mid[i - 1]);
                    }
                }
            }
        }
        count -= 1;
    }
    let ghost last = words@;
    let second = words.pop();
    let first = if count == 3 { words.pop() } else { None };
    let root_count = words[0].count;
    let root = Word::tree(0, root_count, first, second);
    assert(words@ =~= last.subrange(0, 1));
    proof {
        assert(merged_down(last) == last);
        assert(root == final_root(last));
        if is_proper(start) {
            if count == 3 {
                assert(rest(last).drop_last().drop_last() =~= Seq::<Word>::empty());
                assert(first == Some(last[1]) && second == Some(last[2]));
                lemma_sound_weight(last[1]);
                lemma_sound_weight(last[2]);
                assert(symbols(root) =~= symbols(last[1]) + symbols(last[2]));
                assert(rest(last).drop_last() =~= seq![last[1]]);
                lemma_single(last[1]);
                assert(symbols_of(rest(last)) =~= symbols(last[1]) + symbols(last[2]));
            } else {
                assert(rest(last) =~= seq![last[1]]);
                lemma_single(last[1]);
                assert(second == Some(last[1]));
                lemma_sound_weight(last[1]);
                assert(symbols(root) =~= symbols(last[1]));
                assert(symbols_of(rest(last)) =~= symbols(last[1]));
            }
        }
    }
    Some(root)
}

/// The coding tree of a message: its frequency table, built into a tree.
/// `None` for an empty message. The root weighs the message's length, as
/// do its leaves together, and the leaves hold exactly its distinct bytes.
pub fn message_tree(data: &[u8]) -> (r: Option<Word>)
    requires
        data@.len() <= usize::MAX / 2,
    ensures
        r.is_none() <==> data@.len() == 0,
        r matches Some(t) ==> {
            &&& exists|w: Seq<Word>| is_frequency_table(data@, w) && t == final_root(merged_down(w))
            &&& t.is_empty
            &&& t.count == data@.len()
            &&& leaf_weight(t) == data@.len()
            &&& symbols(t) == present(data@)
            &&& leaves_are_bare(t)
        },
{
    let mut words = fill_dict(data);
    proof {
        assert(words@ =~= seq![words@[0]] + rest(words@));
        lemma_total_split(words@);
        if data@.len() > 0 {
            let b = data@[0];
            lemma_present(data@, 0);
            assert(present(data@).contains(b));
            assert(symbols_of(rest(words@)) != Set::<u8>::empty());
            assert(rest(words@).len() > 0);
        } else {
            assert(rest(words@).len() == 0) by {
                if rest(words@).len() > 0 {
                    assert(words@[1].count == occurrences(data@, words@[1].value));
                    assert(occurrences(data@, words@[1].value) == 0);
                }
            }
        }
    }
    let ghost table = words@;
    let r = build_tree(&mut words);
    assert(r matches Some(t) ==> is_frequency_table(data@, table) && t == final_root(merged_down(table)));
    r
}

proof fn lemma_total_split(s: Seq<Word>)
    requires
        s.len() >= 1,
    ensures
        total(s) == s[0].count + total(rest(s)),
    decreases s.len(),
{
    if s.len() == 1 {
        assert(rest(s) =~= Seq::<Word>::empty());
        assert(s.drop_last() =~= Seq::<Word>::empty());
    } else {
        lemma_total_split(s.drop_last());
        assert(rest(s.drop_last()) =~= rest(s).drop_last());
    }
}

/// Every byte of a message is among its present bytes.
pub proof fn lemma_present(s: Seq<u8>, i: int)
    requires
        0 <= i < s.len(),
    ensures
        present(s).contains(s[i]),
    decreases s.len(),
{
    if i < s.len() - 1 {
        lemma_present(s.drop_last(), i);
    }
}

} // verus!
