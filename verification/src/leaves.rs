//! The frequency table: how often each symbol occurs, and the one order in
//! which the leaves enter the heap.

use vstd::prelude::*;
use vstd::relations::{sorted_by, total_ordering};
use vstd::seq_lib::{group_to_multiset_ensures, lemma_sorted_unique};
use crate::node::Leaf;
use crate::utils::lemma_char_range;

verus! {

/// The number of symbols that one byte can tell apart.
pub const ALPHABET: usize = 256;

/// How often `c` occurs in `text`.
pub open spec fn occurrences(text: Seq<char>, c: char) -> nat
    decreases text.len(),
{
    if text.len() == 0 {
        0
    } else {
        occurrences(text.drop_last(), c) + if text.last() == c { 1nat } else { 0nat }
    }
}

/// Whether every symbol of `text` fits one byte.
pub open spec fn is_byte_text(text: Seq<char>) -> bool {
    forall|i: int| 0 <= i < text.len() ==> (#[trigger] text[i] as int) < 256
}

/// The leaves of `text` for the symbols below `n`, by ascending symbol: one
/// for each symbol that occurs, with the number of its occurrences.
pub open spec fn symbol_leaves(text: Seq<char>, n: nat) -> Seq<Leaf>
    decreases n,
{
    if n == 0 {
        Seq::empty()
    } else {
        let c = (n - 1) as char;
        let rest = symbol_leaves(text, (n - 1) as nat);
        if occurrences(text, c) > 0 {
            rest.push((c, occurrences(text, c) as u32))
        } else {
            rest
        }
    }
}

/// The order of the leaves: heavier first, and by ascending symbol among
/// leaves of one frequency.
pub open spec fn leaf_before(a: Leaf, b: Leaf) -> bool {
    a.1 > b.1 || (a.1 == b.1 && a.0 <= b.0)
}

/// `leaf_before` as a relation.
pub open spec fn leaf_order() -> spec_fn(Leaf, Leaf) -> bool {
    |a: Leaf, b: Leaf| leaf_before(a, b)
}

/// The leaves in the order in which they enter the heap.
pub open spec fn sorted_leaves(leaves: Seq<Leaf>) -> Seq<Leaf> {
    leaves.sort_by(leaf_order())
}

/// The sum of the frequencies of the leaves.
pub open spec fn leaf_sum(leaves: Seq<Leaf>) -> nat
    decreases leaves.len(),
{
    if leaves.len() == 0 {
        0
    } else {
        leaf_sum(leaves.drop_last()) + leaves.last().1 as nat
    }
}

/// Whether the symbol of every leaf fits one byte.
pub open spec fn byte_symbols(leaves: Seq<Leaf>) -> bool {
    forall|i: int| 0 <= i < leaves.len() ==> ((#[trigger] leaves[i]).0 as int) < 256
}

/// The order of the leaves is total: any two leaves compare, and two that
/// compare both ways are the same leaf.
pub proof fn lemma_leaf_order_total()
    ensures
        total_ordering(leaf_order()),
{
    let r = leaf_order();
    assert forall|x: Leaf, y: Leaf| #[trigger] r(x, y) && #[trigger] r(y, x) implies x == y by {
        assert(x.0 == y.0);
    }
}

/// The sorted leaves are sorted and are the same leaves.
pub proof fn lemma_sorted_leaves(leaves: Seq<Leaf>)
    ensures
        sorted_by(sorted_leaves(leaves), leaf_order()),
        sorted_leaves(leaves).to_multiset() == leaves.to_multiset(),
        sorted_leaves(leaves).len() == leaves.len(),
{
    broadcast use group_to_multiset_ensures;

    lemma_leaf_order_total();
    leaves.lemma_sort_by_ensures(leaf_order());
    assert(sorted_leaves(leaves).to_multiset().len() == sorted_leaves(leaves).len());
    assert(leaves.to_multiset().len() == leaves.len());
}

/// Whether `a` comes before `b` in the order of the leaves.
pub fn comes_before(a: Leaf, b: Leaf) -> (r: bool)
    ensures
        r == leaf_before(a, b),
{
    a.1 > b.1 || (a.1 == b.1 && a.0 <= b.0)
}

/// Sorts the leaves: heavier first, by ascending symbol among equals.
pub fn sort_leaves(input: &Vec<Leaf>) -> (out: Vec<Leaf>)
    ensures
        out@ == sorted_leaves(input@),
{
    let mut out: Vec<Leaf> = Vec::new();
    let mut i: usize = 0;
    proof {
        lemma_leaf_order_total();
        assert(input@.take(0) =~= Seq::<Leaf>::empty());
    }
    while i < input.len()
        invariant
            i <= input@.len(),
            total_ordering(leaf_order()),
            sorted_by(out@, leaf_order()),
            out@.to_multiset() == input@.take(i as int).to_multiset(),
        decreases input@.len() - i,
    {
        let x = input[i];
        let mut p: usize = 0;
        while p < out.len() && comes_before(out[p], x)
            invariant
                p <= out@.len(),
                forall|k: int| 0 <= k < p ==> leaf_before(#[trigger] out@[k], x),
            decreases out@.len() - p,
        {
            p += 1;
        }
        let ghost before = out@;
        out.insert(p, x);
        proof {
            broadcast use group_to_multiset_ensures;

            let r = leaf_order();
            assert(input@.take(i + 1) =~= input@.take(i as int).push(x));
            assert forall|a: int, b: int| 0 <= a < b < out@.len() implies #[trigger] r(
                out@[a],
                out@[b],
            ) by {
                if b < p {
                    assert(r(before[a], before[b]));
                } else if b == p {
                    assert(leaf_before(before[a], x));
                } else if a == p {
                    assert(!leaf_before(before[p as int], x));
                    assert(r(x, before[p as int]) || r(before[p as int], x));
                    if b - 1 > p {
                        assert(r(before[p as int], before[b - 1]));
                    }
                    assert(r(x, before[p as int]) && r(before[p as int], before[b - 1]) ==> r(
                        x,
                        before[b - 1],
                    ));
                } else if a < p {
                    assert(r(before[a], before[b - 1]));
                } else {
                    assert(r(before[a - 1], before[b - 1]));
                }
            }
        }
        i += 1;
    }
    proof {
        assert(input@.take(input@.len() as int) =~= input@);
        lemma_sorted_leaves(input@);
        lemma_sorted_unique(out@, sorted_leaves(input@), leaf_order());
    }
    out
}

/// A symbol occurs at most as often as the text is long.
pub proof fn lemma_occurrences_bound(text: Seq<char>, c: char)
    ensures
        occurrences(text, c) <= text.len(),
    decreases text.len(),
{
    if text.len() > 0 {
        lemma_occurrences_bound(text.drop_last(), c);
    }
}

/// A symbol occurs in the text exactly when its count is positive.
pub proof fn lemma_occurrences_positive(text: Seq<char>, c: char)
    ensures
        occurrences(text, c) > 0 <==> text.contains(c),
    decreases text.len(),
{
    if text.len() > 0 {
        lemma_occurrences_positive(text.drop_last(), c);
        if text.contains(c) {
            let i = choose|i: int| 0 <= i < text.len() && text[i] == c;
            if i < text.len() - 1 {
                assert(text.drop_last()[i] == c);
            }
        }
        if text.drop_last().contains(c) {
            let i = choose|i: int| 0 <= i < text.drop_last().len() && text.drop_last()[i] == c;
            assert(text[i] == c);
        }
    }
}

/// The number of symbols of `text` below `n`.
pub open spec fn symbols_below(text: Seq<char>, n: nat) -> nat
    decreases text.len(),
{
    if text.len() == 0 {
        0
    } else {
        symbols_below(text.drop_last(), n) + if (text.last() as int) < n { 1nat } else { 0nat }
    }
}

/// Counting the symbols below `n + 1` counts those below `n` and the
/// occurrences of symbol `n`.
pub proof fn lemma_symbols_below_step(text: Seq<char>, n: nat)
    requires
        n < 256,
    ensures
        symbols_below(text, n + 1) == symbols_below(text, n) + occurrences(text, n as char),
        symbols_below(text, n) <= text.len(),
    decreases text.len(),
{
    if text.len() > 0 {
        lemma_symbols_below_step(text.drop_last(), n);
        assert((n as char) as int == n);
    }
}

/// In a text of byte symbols every symbol is below 256.
pub proof fn lemma_symbols_below_all(text: Seq<char>)
    requires
        is_byte_text(text),
    ensures
        symbols_below(text, 256) == text.len(),
    decreases text.len(),
{
    if text.len() > 0 {
        assert(text.last() == text[text.len() - 1]);
        assert(is_byte_text(text.drop_last())) by {
            assert forall|i: int| 0 <= i < text.drop_last().len() implies (
            #[trigger] text.drop_last()[i] as int) < 256 by {
                assert(text.drop_last()[i] == text[i]);
            }
        }
        lemma_symbols_below_all(text.drop_last());
    }
}

/// The table of a text: its symbols fit one byte and ascend strictly, each
/// leaf carries the count of its symbol, and the counts add up to the number
/// of the text's symbols below `n`.
pub proof fn lemma_symbol_leaves(text: Seq<char>, n: nat)
    requires
        n <= 256,
        text.len() <= u32::MAX,
    ensures
        symbol_leaves(text, n).len() <= n,
        leaf_sum(symbol_leaves(text, n)) == symbols_below(text, n),
        forall|i: int|
            0 <= i < symbol_leaves(text, n).len() ==> {
                let l = #[trigger] symbol_leaves(text, n)[i];
                &&& (l.0 as int) < n
                &&& l.1 == occurrences(text, l.0)
                &&& l.1 > 0
            },
        forall|i: int, j: int|
            0 <= i < j < symbol_leaves(text, n).len() ==> (#[trigger] symbol_leaves(text, n)[i]).0
                < (#[trigger] symbol_leaves(text, n)[j]).0,
        forall|c: char|
            (c as int) < n && occurrences(text, c) > 0 ==> symbol_leaves(text, n).contains(
                (c, #[trigger] occurrences(text, c) as u32),
            ),
    decreases n,
{
    if n == 0 {
        lemma_symbols_below_zero(text);
        assert forall|c: char| (c as int) < n && occurrences(text, c) > 0 implies symbol_leaves(
            text,
            n,
        ).contains((c, #[trigger] occurrences(text, c) as u32)) by {
            lemma_char_range(c);
        }
    } else {
        let m = (n - 1) as nat;
        let c = m as char;
        assert(c as int == m);
        lemma_symbol_leaves(text, m);
        lemma_symbols_below_step(text, m);
        lemma_occurrences_bound(text, c);
        let rest = symbol_leaves(text, m);
        let all = symbol_leaves(text, n);
        if occurrences(text, c) > 0 {
            assert(all == rest.push((c, occurrences(text, c) as u32)));
            assert(all.drop_last() =~= rest);
            assert forall|d: char| (d as int) < n && occurrences(text, d) > 0 implies all.contains(
                (d, #[trigger] occurrences(text, d) as u32),
            ) by {
                if d == c {
                    assert(all[all.len() - 1] == (d, occurrences(text, d) as u32));
                } else {
                    assert((d as int) < m);
                    let k = choose|k: int|
                        0 <= k < rest.len() && rest[k] == (d, occurrences(text, d) as u32);
                    assert(all[k] == rest[k]);
                }
            }
        } else {
            assert(all == rest);
        }
    }
}

/// No symbol is below zero.
pub proof fn lemma_symbols_below_zero(text: Seq<char>)
    ensures
        symbols_below(text, 0) == 0,
    decreases text.len(),
{
    if text.len() > 0 {
        lemma_symbols_below_zero(text.drop_last());
        lemma_char_range(text.last());
    }
}

/// Taking a leaf out lowers the sum by its frequency.
pub proof fn lemma_leaf_sum_remove(leaves: Seq<Leaf>, i: int)
    requires
        0 <= i < leaves.len(),
    ensures
        leaf_sum(leaves) == leaf_sum(leaves.remove(i)) + leaves[i].1,
    decreases leaves.len(),
{
    if i == leaves.len() - 1 {
        assert(leaves.remove(i) =~= leaves.drop_last());
    } else {
        lemma_leaf_sum_remove(leaves.drop_last(), i);
        assert(leaves.remove(i).drop_last() =~= leaves.drop_last().remove(i));
        assert(leaves.remove(i).last() == leaves.last());
    }
}

/// Two tables of the same leaves have the same sum, and the symbols of one
/// fit a byte if those of the other do.
pub proof fn lemma_leaf_permutation(a: Seq<Leaf>, b: Seq<Leaf>)
    requires
        a.to_multiset() == b.to_multiset(),
    ensures
        a.len() == b.len(),
        leaf_sum(a) == leaf_sum(b),
        byte_symbols(a) == byte_symbols(b),
    decreases a.len(),
{
    broadcast use group_to_multiset_ensures;

    assert(a.to_multiset().len() == a.len());
    assert(b.to_multiset().len() == b.len());
    if a.len() > 0 {
        let x = a.last();
        assert(a.contains(x));
        assert(b.to_multiset().count(x) > 0);
        let j = choose|j: int| 0 <= j < b.len() && b[j] == x;
        assert(a.drop_last() =~= a.remove(a.len() - 1));
        lemma_leaf_permutation(a.drop_last(), b.remove(j));
        lemma_leaf_sum_remove(b, j);
        if byte_symbols(a) {
            assert forall|k: int| 0 <= k < b.len() implies ((#[trigger] b[k]).0 as int) < 256 by {
                assert(b.contains(b[k]));
                assert(a.to_multiset().count(b[k]) > 0);
                assert(a.contains(b[k]));
            }
        }
        if byte_symbols(b) {
            assert forall|k: int| 0 <= k < a.len() implies ((#[trigger] a[k]).0 as int) < 256 by {
                assert(a.contains(a[k]));
                assert(b.to_multiset().count(a[k]) > 0);
                assert(b.contains(a[k]));
            }
        }
    }
}

/// No more symbols are below `n` than the text has.
pub proof fn lemma_symbols_below_bound(text: Seq<char>, n: nat)
    ensures
        symbols_below(text, n) <= text.len(),
    decreases text.len(),
{
    if text.len() > 0 {
        lemma_symbols_below_bound(text.drop_last(), n);
    }
}

} // verus!
