//! Paths through the tree: the code table that a tree gives its symbols, the
//! bits of an encoded text, and the text that a run of bits decodes to.

use vstd::prelude::*;
use crate::leaves::occurrences;
use crate::node::{Leaf, Node};

verus! {

/// The code table of the leaves below `node`, each path preceded by `prefix`:
/// a step to the left adds `false`, a step to the right adds `true`. Where a
/// symbol stands on several leaves, the rightmost one gives its code.
pub open spec fn code_table(node: Node, prefix: Seq<bool>) -> Map<char, Seq<bool>>
    decreases node,
{
    if node.left is Some && node.right is Some {
        code_table(*node.left->0, prefix.push(false)).union_prefer_right(
            code_table(*node.right->0, prefix.push(true)),
        )
    } else {
        map![node.ch => prefix]
    }
}

/// The code table of a tree. A tree that is a single leaf has no path to
/// give: its symbol gets the one-bit code `false`.
pub open spec fn code_book(tree: Node) -> Map<char, Seq<bool>> {
    if tree.is_leaf() {
        map![tree.ch => seq![false]]
    } else {
        code_table(tree, Seq::empty())
    }
}

/// The bits of `text` under a code table: the codes of its symbols, one
/// after the other.
pub open spec fn encoded_bits(text: Seq<char>, codes: Map<char, Seq<bool>>) -> Seq<bool>
    decreases text.len(),
{
    if text.len() == 0 {
        Seq::empty()
    } else {
        encoded_bits(text.drop_last(), codes) + codes[text.last()]
    }
}

/// Whether the code table has a code for every symbol of `text`.
pub open spec fn covers(codes: Map<char, Seq<bool>>, text: Seq<char>) -> bool {
    forall|i: int| 0 <= i < text.len() ==> codes.dom().contains(#[trigger] text[i])
}

/// The child of `node` in the direction of `bit`: right for `true`, left for
/// `false`. A node without that child stands for it.
pub open spec fn child(node: Node, bit: bool) -> Node {
    match (if bit { node.right } else { node.left }) {
        Some(n) => *n,
        None => node,
    }
}

/// The symbol of the leaf that `path` leads to from `node`, if it ends on one.
pub open spec fn leaf_at(node: Node, path: Seq<bool>) -> Option<char>
    decreases path.len(),
{
    if node.is_leaf() {
        if path.len() == 0 { Some(node.ch) } else { None }
    } else if path.len() == 0 {
        None
    } else {
        leaf_at(child(node, path[0]), path.drop_first())
    }
}

/// The symbols that a walk yields: from `cur`, each bit leads to a child; a
/// leaf yields its symbol and the walk goes on from `root`. Bits that end
/// short of a leaf yield nothing.
pub open spec fn walk(root: Node, cur: Node, bits: Seq<bool>) -> Seq<char>
    decreases bits.len(),
{
    if bits.len() == 0 {
        Seq::empty()
    } else {
        let next = child(cur, bits[0]);
        if next.is_leaf() {
            seq![next.ch] + walk(root, root, bits.drop_first())
        } else {
            walk(root, next, bits.drop_first())
        }
    }
}

/// The text that `bits` decode to under `tree`. A tree that is a single leaf
/// has no path to walk: it yields its symbol as often as its frequency says,
/// whatever the bits.
pub open spec fn decoded_text(tree: Node, bits: Seq<bool>) -> Seq<char> {
    if tree.is_leaf() {
        Seq::new(tree.freq as nat, |i: int| tree.ch)
    } else {
        walk(tree, tree, bits)
    }
}

/// A well-formed tree is at most as high as it has leaves.
pub proof fn lemma_height_bound(node: Node)
    requires
        node.well_formed(),
    ensures
        1 <= node.height() <= node.leaves().len(),
    decreases node,
{
    if !node.is_leaf() {
        lemma_height_bound(*node.left->0);
        lemma_height_bound(*node.right->0);
    }
}

/// Whether `p` is the beginning of `q`.
pub open spec fn is_prefix(p: Seq<bool>, q: Seq<bool>) -> bool {
    p.len() <= q.len() && q.take(p.len() as int) == p
}

/// Whether some leaf of the table carries the symbol `c`.
pub open spec fn has_symbol(leaves: Seq<Leaf>, c: char) -> bool {
    exists|i: int| 0 <= i < leaves.len() && (#[trigger] leaves[i]).0 == c
}

/// The codes below a well-formed node: a symbol has a code exactly when a
/// leaf carries it, and its code is the prefix followed by a path that leads
/// from the node to a leaf with that symbol.
pub proof fn lemma_code_table(node: Node, prefix: Seq<bool>)
    requires
        node.well_formed(),
    ensures
        forall|c: char|
            code_table(node, prefix).dom().contains(c) <==> has_symbol(node.leaves(), c),
        forall|c: char| #[trigger]
            code_table(node, prefix).dom().contains(c) ==> {
                let code = code_table(node, prefix)[c];
                &&& is_prefix(prefix, code)
                &&& leaf_at(node, code.skip(prefix.len() as int)) == Some(c)
            },
    decreases node,
{
    let table = code_table(node, prefix);
    let n = prefix.len() as int;
    if node.is_leaf() {
        assert forall|c: char| table.dom().contains(c) <==> has_symbol(node.leaves(), c) by {
            if c == node.ch {
                assert(node.leaves()[0].0 == c);
            }
        }
        assert(prefix.take(n) =~= prefix);
        assert(prefix.skip(n) =~= Seq::<bool>::empty());
    } else {
        let l = *node.left->0;
        let r = *node.right->0;
        let lt = code_table(l, prefix.push(false));
        let rt = code_table(r, prefix.push(true));
        lemma_code_table(l, prefix.push(false));
        lemma_code_table(r, prefix.push(true));
        assert forall|c: char| table.dom().contains(c) <==> has_symbol(node.leaves(), c) by {
            if has_symbol(l.leaves(), c) {
                let i = choose|i: int| 0 <= i < l.leaves().len() && (#[trigger] l.leaves()[i]).0 == c;
                assert(node.leaves()[i] == l.leaves()[i]);
            }
            if has_symbol(r.leaves(), c) {
                let i = choose|i: int| 0 <= i < r.leaves().len() && (#[trigger] r.leaves()[i]).0 == c;
                assert(node.leaves()[l.leaves().len() + i] == r.leaves()[i]);
            }
            if has_symbol(node.leaves(), c) {
                let i = choose|i: int|
                    0 <= i < node.leaves().len() && (#[trigger] node.leaves()[i]).0 == c;
                if i < l.leaves().len() {
                    assert(l.leaves()[i].0 == c);
                } else {
                    assert(r.leaves()[i - l.leaves().len()].0 == c);
                }
            }
        }
        assert forall|c: char| #[trigger] table.dom().contains(c) implies {
            let code = table[c];
            &&& is_prefix(prefix, code)
            &&& leaf_at(node, code.skip(n)) == Some(c)
        } by {
            let code = table[c];
            let bit = rt.dom().contains(c);
            let sub = if bit { r } else { l };
            let longer = prefix.push(bit);
            assert(if bit { rt.dom().contains(c) } else { lt.dom().contains(c) });
            assert(is_prefix(longer, code));
            assert(leaf_at(sub, code.skip(n + 1)) == Some(c));
            assert(code.take(n) =~= code.take(n + 1).take(n));
            assert(longer.take(n) =~= prefix);
            assert(code.skip(n)[0] == code.take(n + 1)[n]);
            assert(code.skip(n).drop_first() =~= code.skip(n + 1));
            assert(child(node, bit) == sub);
        }
    }
}

/// The code table of a well-formed tree has a code for exactly the symbols
/// of its leaves. In a tree with more than one leaf, each code leads from
/// the root to a leaf with the symbol.
pub proof fn lemma_code_book(tree: Node)
    requires
        tree.well_formed(),
    ensures
        forall|c: char| code_book(tree).dom().contains(c) <==> has_symbol(tree.leaves(), c),
        !tree.is_leaf() ==> forall|c: char| #[trigger]
            code_book(tree).dom().contains(c) ==> leaf_at(tree, code_book(tree)[c]) == Some(c),
{
    if tree.is_leaf() {
        assert forall|c: char| code_book(tree).dom().contains(c) <==> has_symbol(
            tree.leaves(),
            c,
        ) by {
            if c == tree.ch {
                assert(tree.leaves()[0].0 == c);
            }
        }
    } else {
        lemma_code_table(tree, Seq::empty());
        assert forall|c: char| #[trigger] code_book(tree).dom().contains(c) implies leaf_at(
            tree,
            code_book(tree)[c],
        ) == Some(c) by {
            assert(code_book(tree)[c].skip(0) =~= code_book(tree)[c]);
        }
    }
}

/// A path that ends on a leaf cannot go on: of two paths from one node to
/// leaves, neither is the beginning of the other unless they are the same.
pub proof fn lemma_leaf_paths(node: Node, p: Seq<bool>, q: Seq<bool>)
    requires
        leaf_at(node, p) is Some,
        leaf_at(node, q) is Some,
        is_prefix(p, q),
    ensures
        p == q,
    decreases p.len(),
{
    if node.is_leaf() {
        assert(p =~= q);
    } else {
        assert(q.take(p.len() as int)[0] == p[0]);
        assert(q.drop_first().take(p.len() - 1) =~= q.take(p.len() as int).drop_first());
        lemma_leaf_paths(child(node, p[0]), p.drop_first(), q.drop_first());
        assert(p =~= seq![p[0]] + p.drop_first());
        assert(q =~= seq![q[0]] + q.drop_first());
    }
}

/// No code of a well-formed tree is the beginning of the code of another
/// symbol.
pub proof fn lemma_prefix_free(tree: Node, a: char, b: char)
    requires
        tree.well_formed(),
        code_book(tree).dom().contains(a),
        code_book(tree).dom().contains(b),
        a != b,
    ensures
        !is_prefix(code_book(tree)[a], code_book(tree)[b]),
{
    lemma_code_book(tree);
    if !tree.is_leaf() && is_prefix(code_book(tree)[a], code_book(tree)[b]) {
        lemma_leaf_paths(tree, code_book(tree)[a], code_book(tree)[b]);
    }
}

/// From a node with children, the path to a leaf yields the leaf's symbol,
/// and the walk goes on from the root with the bits that follow.
pub proof fn lemma_walk_code(root: Node, cur: Node, path: Seq<bool>, rest: Seq<bool>, c: char)
    requires
        !cur.is_leaf(),
        leaf_at(cur, path) == Some(c),
    ensures
        walk(root, cur, path + rest) == seq![c] + walk(root, root, rest),
    decreases path.len(),
{
    let bits = path + rest;
    let next = child(cur, path[0]);
    assert(path.len() > 0);
    assert(leaf_at(cur, path) == leaf_at(next, path.drop_first()));
    assert(bits[0] == path[0]);
    assert(bits.drop_first() =~= path.drop_first() + rest);
    if next.is_leaf() {
        assert(path.drop_first().len() == 0);
        assert(next.ch == c);
        assert(path.drop_first() + rest =~= rest);
    } else {
        lemma_walk_code(root, next, path.drop_first(), rest, c);
    }
}

/// Under a tree with more than one leaf, the bits of a text whose symbols
/// all have their path as their code decode to the text, and the walk goes
/// on with the bits that follow.
pub proof fn lemma_walk_text(
    root: Node,
    codes: Map<char, Seq<bool>>,
    text: Seq<char>,
    rest: Seq<bool>,
)
    requires
        !root.is_leaf(),
        forall|i: int| 0 <= i < text.len() ==> leaf_at(root, codes[#[trigger] text[i]]) == Some(text[i]),
    ensures
        walk(root, root, encoded_bits(text, codes) + rest) == text + walk(root, root, rest),
    decreases text.len(),
{
    if text.len() == 0 {
        assert(encoded_bits(text, codes) + rest =~= rest);
        assert(text + walk(root, root, rest) =~= walk(root, root, rest));
    } else {
        let before = text.drop_last();
        let c = text.last();
        assert(leaf_at(root, codes[text[text.len() - 1]]) == Some(c));
        assert forall|i: int| 0 <= i < before.len() implies leaf_at(
            root,
            codes[#[trigger] before[i]],
        ) == Some(before[i]) by {
            assert(before[i] == text[i]);
        }
        lemma_walk_text(root, codes, before, codes[c] + rest);
        lemma_walk_code(root, root, codes[c], rest, c);
        assert(encoded_bits(text, codes) + rest =~= encoded_bits(before, codes) + (codes[c]
            + rest));
        assert(text =~= before.push(c));
        assert(before + (seq![c] + walk(root, root, rest)) =~= text + walk(root, root, rest));
    }
}

/// Whether no two leaves of the table carry the same symbol.
pub open spec fn distinct_symbols(leaves: Seq<Leaf>) -> bool {
    forall|i: int, j: int|
        0 <= i < j < leaves.len() ==> (#[trigger] leaves[i]).0 != (#[trigger] leaves[j]).0
}

/// Whether each leaf of the table carries the number of times that its
/// symbol occurs in `text`.
pub open spec fn counts_text(leaves: Seq<Leaf>, text: Seq<char>) -> bool {
    forall|i: int| 0 <= i < leaves.len() ==> (#[trigger] leaves[i]).1 == occurrences(text, leaves[i].0)
}

/// The sum, over the leaves below `node`, of the number of times that the
/// leaf's symbol occurs in `text` times the number of steps from the top to
/// the leaf, where `node` stands `depth` steps below the top.
pub open spec fn text_depth(node: Node, text: Seq<char>, depth: nat) -> nat
    decreases node,
{
    if node.left is Some && node.right is Some {
        text_depth(*node.left->0, text, depth + 1) + text_depth(*node.right->0, text, depth + 1)
    } else {
        occurrences(text, node.ch) * depth
    }
}

/// The leaves of the two subtrees of a node inherit from the node's leaves
/// that they carry the counts of a text and that their symbols are distinct;
/// and no symbol stands on both sides.
pub proof fn lemma_leaves_split(node: Node, text: Seq<char>)
    requires
        node.left is Some,
        node.right is Some,
    ensures
        counts_text(node.leaves(), text) ==> counts_text(node.left->0.leaves(), text)
            && counts_text(node.right->0.leaves(), text),
        distinct_symbols(node.leaves()) ==> distinct_symbols(node.left->0.leaves())
            && distinct_symbols(node.right->0.leaves()),
        distinct_symbols(node.leaves()) ==> forall|c: char|
            !(has_symbol(node.left->0.leaves(), c) && has_symbol(node.right->0.leaves(), c)),
{
    let l = node.left->0.leaves();
    let r = node.right->0.leaves();
    let all = node.leaves();
    assert(all == l + r);
    if counts_text(all, text) {
        assert forall|i: int| 0 <= i < l.len() implies (#[trigger] l[i]).1 == occurrences(
            text,
            l[i].0,
        ) by {
            assert(all[i] == l[i]);
        }
        assert forall|i: int| 0 <= i < r.len() implies (#[trigger] r[i]).1 == occurrences(
            text,
            r[i].0,
        ) by {
            assert(all[l.len() + i] == r[i]);
        }
    }
    if distinct_symbols(all) {
        assert forall|i: int, j: int| 0 <= i < j < l.len() implies (#[trigger] l[i]).0 != (
        #[trigger] l[j]).0 by {
            assert(all[i] == l[i] && all[j] == l[j]);
        }
        assert forall|i: int, j: int| 0 <= i < j < r.len() implies (#[trigger] r[i]).0 != (
        #[trigger] r[j]).0 by {
            assert(all[l.len() + i] == r[i] && all[l.len() + j] == r[j]);
        }
        assert forall|c: char| !(has_symbol(l, c) && has_symbol(r, c)) by {
            if has_symbol(l, c) && has_symbol(r, c) {
                let i = choose|i: int| 0 <= i < l.len() && (#[trigger] l[i]).0 == c;
                let j = choose|j: int| 0 <= j < r.len() && (#[trigger] r[j]).0 == c;
                assert(all[i] == l[i] && all[l.len() + j] == r[j]);
            }
        }
    }
}

/// Where the leaves carry the counts of a text, the occurrences weigh what
/// the frequencies weigh.
pub proof fn lemma_text_depth_counts(node: Node, text: Seq<char>, depth: nat)
    requires
        counts_text(node.leaves(), text),
    ensures
        text_depth(node, text, depth) == node.weighted_depth(depth),
    decreases node,
{
    if node.left is Some && node.right is Some {
        lemma_leaves_split(node, text);
        lemma_text_depth_counts(*node.left->0, text, depth + 1);
        lemma_text_depth_counts(*node.right->0, text, depth + 1);
    } else {
        assert(node.leaves()[0] == node.as_leaf());
    }
}

/// One symbol more in the text weighs as much more as its leaf stands deep:
/// the depth of the node and the length of the symbol's path below it. A
/// symbol without a leaf weighs nothing.
pub proof fn lemma_text_depth_push(
    node: Node,
    prefix: Seq<bool>,
    text: Seq<char>,
    x: char,
    depth: nat,
)
    requires
        node.well_formed(),
        distinct_symbols(node.leaves()),
    ensures
        has_symbol(node.leaves(), x) ==> text_depth(node, text.push(x), depth) == text_depth(
            node,
            text,
            depth,
        ) + depth + code_table(node, prefix)[x].len() - prefix.len(),
        !has_symbol(node.leaves(), x) ==> text_depth(node, text.push(x), depth) == text_depth(
            node,
            text,
            depth,
        ),
    decreases node,
{
    assert(text.push(x).drop_last() =~= text);
    lemma_code_table(node, prefix);
    if node.is_leaf() {
        let n = occurrences(text, node.ch) as int;
        let d = depth as int;
        assert((n + 1) * d == n * d + d) by (nonlinear_arith);
        if node.ch == x {
            assert(node.leaves()[0].0 == x);
        }
        if has_symbol(node.leaves(), x) {
            let i = choose|i: int| 0 <= i < node.leaves().len() && (#[trigger] node.leaves()[i]).0 == x;
            assert(node.ch == x);
        }
    } else {
        let l = *node.left->0;
        let r = *node.right->0;
        lemma_leaves_split(node, text);
        lemma_text_depth_push(l, prefix.push(false), text, x, depth + 1);
        lemma_text_depth_push(r, prefix.push(true), text, x, depth + 1);
        lemma_code_table(l, prefix.push(false));
        lemma_code_table(r, prefix.push(true));
        assert(!(has_symbol(l.leaves(), x) && has_symbol(r.leaves(), x)));
        assert(has_symbol(node.leaves(), x) <==> code_table(node, prefix).dom().contains(x));
        assert(has_symbol(l.leaves(), x) <==> code_table(l, prefix.push(false)).dom().contains(x));
        assert(has_symbol(r.leaves(), x) <==> code_table(r, prefix.push(true)).dom().contains(x));
    }
}

/// An empty text weighs nothing.
pub proof fn lemma_text_depth_empty(node: Node, depth: nat)
    ensures
        text_depth(node, Seq::empty(), depth) == 0,
    decreases node,
{
    if node.left is Some && node.right is Some {
        lemma_text_depth_empty(*node.left->0, depth + 1);
        lemma_text_depth_empty(*node.right->0, depth + 1);
    } else {
        assert(0 * depth == 0) by (nonlinear_arith);
    }
}

/// Under a tree with more than one leaf and distinct symbols, a text whose
/// symbols all have a leaf takes as many bits as its symbols stand deep.
pub proof fn lemma_text_bits(tree: Node, text: Seq<char>)
    requires
        tree.well_formed(),
        !tree.is_leaf(),
        distinct_symbols(tree.leaves()),
        forall|i: int| 0 <= i < text.len() ==> has_symbol(tree.leaves(), #[trigger] text[i]),
    ensures
        encoded_bits(text, code_book(tree)).len() == text_depth(tree, text, 0),
    decreases text.len(),
{
    if text.len() == 0 {
        lemma_text_depth_empty(tree, 0);
        assert(text =~= Seq::<char>::empty());
    } else {
        let before = text.drop_last();
        let x = text.last();
        assert(text =~= before.push(x));
        assert(has_symbol(tree.leaves(), text[text.len() - 1]));
        assert forall|i: int| 0 <= i < before.len() implies has_symbol(
            tree.leaves(),
            #[trigger] before[i],
        ) by {
            assert(before[i] == text[i]);
        }
        lemma_text_bits(tree, before);
        lemma_text_depth_push(tree, Seq::empty(), before, x, 0);
    }
}

/// Where the leaves of such a tree carry the counts of the text, the text
/// takes as many bits as the tree costs: each symbol its frequency times the
/// length of its code.
pub proof fn lemma_bits_are_cost(tree: Node, text: Seq<char>)
    requires
        tree.well_formed(),
        !tree.is_leaf(),
        distinct_symbols(tree.leaves()),
        counts_text(tree.leaves(), text),
        forall|i: int| 0 <= i < text.len() ==> has_symbol(tree.leaves(), #[trigger] text[i]),
    ensures
        encoded_bits(text, code_book(tree)).len() == tree.cost(),
{
    lemma_text_bits(tree, text);
    lemma_text_depth_counts(tree, text, 0);
}

} // verus!
