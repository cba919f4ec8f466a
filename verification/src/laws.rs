//! What holds of the codec as a whole: what is encoded decodes to itself,
//! the tree keeps the frequencies, the codes are complete and prefix-free,
//! and a written frequency table gives the same tree again.

use vstd::prelude::*;
use vstd::seq_lib::{group_to_multiset_ensures, lemma_sorted_unique};
use crate::bits::{lemma_unpack, offset_of, packed};
use crate::codes::{
    code_book, counts_text, covers, decoded_text, distinct_symbols, encoded_bits, has_symbol,
    is_prefix, leaf_at, lemma_bits_are_cost, lemma_code_book, lemma_height_bound,
    lemma_prefix_free, lemma_walk_text, walk,
};
use crate::format::{
    lemma_level_order_leaves, lemma_parse_wire, level_order, parse, record_count, wire,
};
use crate::heap::{
    build_heap, is_below, is_min_heap, leaf_nodes, lemma_build_heap_is_min_heap,
    lemma_sift_down_subtree, lemma_tree_of_leaves, sift_down, subtree_is_heap,
    subtrees_are_heaps, tree_of, MAX_LEAVES,
};
use crate::huffman::HuffmanView;
use crate::leaves::{
    byte_symbols, is_byte_text, leaf_order, leaf_sum, lemma_leaf_order_total,
    lemma_leaf_permutation, lemma_occurrences_positive, lemma_sorted_leaves, lemma_symbol_leaves,
    lemma_symbols_below_all, lemma_symbols_below_bound, occurrences, sorted_leaves, symbol_leaves,
    ALPHABET,
};
use crate::node::{Leaf, Node};
use crate::utils::be32;
use crate::operations::{compressed, decompressed};
use crate::optimal::{
    coded_leaves, lemma_code_shape, lemma_coded_leaves, lemma_leaves_bits, lemma_tree_beats_shape,
    lemma_tree_is_cheapest, prefix_free, unrelated,
};

verus! {

/// The frequency table of a text, in heap order.
pub open spec fn text_leaves(text: Seq<char>) -> Seq<Leaf> {
    sorted_leaves(symbol_leaves(text, ALPHABET as nat))
}

/// The tree of a text.
pub open spec fn text_tree(text: Seq<char>) -> Option<Node> {
    tree_of(leaf_nodes(text_leaves(text)))
}

/// The code table of a text.
pub open spec fn text_codes(text: Seq<char>) -> Map<char, Seq<bool>> {
    HuffmanView::of_text(text).with_tree().with_codes().codes
}

/// Two tables of the same leaves are the same table once sorted.
pub proof fn lemma_sorted_leaves_unique(a: Seq<Leaf>, b: Seq<Leaf>)
    requires
        a.to_multiset() == b.to_multiset(),
    ensures
        sorted_leaves(a) == sorted_leaves(b),
{
    lemma_sorted_leaves(a);
    lemma_sorted_leaves(b);
    lemma_leaf_order_total();
    lemma_sorted_unique(sorted_leaves(a), sorted_leaves(b), leaf_order());
}

/// A table that holds the leaves of a text has a leaf for exactly the byte
/// symbols that occur in the text, and with each the number of its
/// occurrences.
pub proof fn lemma_table_symbols(text: Seq<char>, leaves: Seq<Leaf>)
    requires
        text.len() <= u32::MAX,
        leaves.to_multiset() == symbol_leaves(text, ALPHABET as nat).to_multiset(),
    ensures
        forall|c: char| has_symbol(leaves, c) <==> ((c as int) < 256 && text.contains(c)),
        forall|i: int|
            0 <= i < leaves.len() ==> (#[trigger] leaves[i]).1 == occurrences(text, leaves[i].0),
{
    broadcast use group_to_multiset_ensures;

    let table = symbol_leaves(text, ALPHABET as nat);
    lemma_symbol_leaves(text, ALPHABET as nat);
    assert forall|i: int| 0 <= i < leaves.len() implies (#[trigger] leaves[i]).1 == occurrences(
        text,
        leaves[i].0,
    ) by {
        assert(leaves.contains(leaves[i]));
        assert(table.to_multiset().count(leaves[i]) > 0);
        assert(table.contains(leaves[i]));
    }
    assert forall|c: char| has_symbol(leaves, c) <==> ((c as int) < 256 && text.contains(c)) by {
        lemma_occurrences_positive(text, c);
        if has_symbol(leaves, c) {
            let i = choose|i: int| 0 <= i < leaves.len() && (#[trigger] leaves[i]).0 == c;
            assert(leaves.contains(leaves[i]));
            assert(table.to_multiset().count(leaves[i]) > 0);
            assert(table.contains(leaves[i]));
            let j = choose|j: int| 0 <= j < table.len() && table[j] == leaves[i];
            assert(table[j].1 > 0);
        }
        if (c as int) < 256 && text.contains(c) {
            let l = (c, occurrences(text, c) as u32);
            assert(table.contains(l));
            assert(leaves.to_multiset().count(l) > 0);
            assert(leaves.contains(l));
            let i = choose|i: int| 0 <= i < leaves.len() && leaves[i] == l;
            assert(leaves[i].0 == c);
        }
    }
}

/// The table and the tree of a text: the table has at most one leaf per
/// byte symbol and the frequencies of it add up to the number of byte
/// symbols in the text; the tree is well formed and holds the table's leaves.
pub proof fn lemma_text_tree(text: Seq<char>)
    requires
        text.len() <= u32::MAX,
    ensures
        text_leaves(text).len() <= ALPHABET,
        byte_symbols(text_leaves(text)),
        leaf_sum(text_leaves(text)) <= text.len(),
        is_byte_text(text) ==> leaf_sum(text_leaves(text)) == text.len(),
        text_leaves(text).to_multiset() == symbol_leaves(text, ALPHABET as nat).to_multiset(),
        text_leaves(text).len() == 0 ==> text_tree(text) is None,
        text_leaves(text).len() > 0 ==> {
            &&& text_tree(text) is Some
            &&& text_tree(text)->0.well_formed()
            &&& text_tree(text)->0.freq == leaf_sum(text_leaves(text))
            &&& text_tree(text)->0.leaves().to_multiset() == text_leaves(text).to_multiset()
            &&& text_tree(text)->0.leaves().len() == text_leaves(text).len()
            &&& byte_symbols(text_tree(text)->0.leaves())
            &&& text_tree(text)->0.height() <= ALPHABET
        },
{
    let table = symbol_leaves(text, ALPHABET as nat);
    let leaves = text_leaves(text);
    lemma_symbol_leaves(text, ALPHABET as nat);
    lemma_symbols_below_bound(text, ALPHABET as nat);
    if is_byte_text(text) {
        lemma_symbols_below_all(text);
    }
    lemma_sorted_leaves(table);
    lemma_leaf_permutation(table, leaves);
    assert(byte_symbols(table));
    if leaves.len() > 0 {
        lemma_tree_of_leaves(leaves);
        let tree = text_tree(text)->0;
        lemma_leaf_permutation(leaves, tree.leaves());
        lemma_height_bound(tree);
    }
}

/// The code table of a text has a code for exactly the byte symbols that
/// occur in it.
pub proof fn lemma_text_codes(text: Seq<char>)
    requires
        text.len() <= u32::MAX,
    ensures
        forall|c: char|
            #![trigger text_codes(text).dom().contains(c)]
            text_codes(text).dom().contains(c) <==> ((c as int) < 256 && text.contains(c)),
        covers(text_codes(text), text) <==> is_byte_text(text),
{
    let leaves = text_leaves(text);
    let codes = text_codes(text);
    lemma_text_tree(text);
    lemma_table_symbols(text, leaves);
    assert forall|c: char|
        #![trigger codes.dom().contains(c)]
        codes.dom().contains(c) <==> ((c as int) < 256 && text.contains(c)) by {
        assert(has_symbol(leaves, c) <==> ((c as int) < 256 && text.contains(c)));
        if leaves.len() > 0 {
            let tree = text_tree(text)->0;
            assert(leaf_nodes(leaves).len() > 0);
            assert(codes == code_book(tree));
            lemma_code_book(tree);
            lemma_table_symbols(text, tree.leaves());
            assert(codes.dom().contains(c) <==> has_symbol(tree.leaves(), c));
            assert(has_symbol(tree.leaves(), c) <==> ((c as int) < 256 && text.contains(c)));
        } else {
            assert(leaf_nodes(leaves).len() == 0);
            assert(codes == Map::<char, Seq<bool>>::empty());
            if has_symbol(leaves, c) {
                let i = choose|i: int| 0 <= i < leaves.len() && (#[trigger] leaves[i]).0 == c;
            }
        }
    }
    if is_byte_text(text) {
        assert forall|i: int| 0 <= i < text.len() implies codes.dom().contains(
            #[trigger] text[i],
        ) by {
            let c = text[i];
            assert(text.contains(c));
            assert((c as int) < 256);
        }
    }
    if covers(codes, text) {
        assert forall|i: int| 0 <= i < text.len() implies (#[trigger] text[i] as int) < 256 by {
            let c = text[i];
            assert(codes.dom().contains(c));
        }
    }
}

/// Round trip: a text of byte symbols, compressed and decompressed, is the
/// text again.
pub proof fn law_round_trip(text: Seq<char>)
    requires
        is_byte_text(text),
        text.len() <= u32::MAX,
    ensures
        decompressed(compressed(text)) == Some(text),
{
    broadcast use group_to_multiset_ensures;

    let leaves = text_leaves(text);
    let made = HuffmanView::of_text(text).with_tree().with_codes();
    let bits = made.bits();
    lemma_text_tree(text);
    lemma_text_codes(text);
    lemma_unpack(bits);
    if leaves.len() == 0 {
        assert(leaf_nodes(leaves).len() == 0);
        assert(text.len() == 0);
        let none = Seq::<Leaf>::empty();
        assert(made.tree is None);
        assert(made.height == 0);
        assert(leaf_sum(none) == 0);
        lemma_parse_wire(0, none, bits);
        lemma_sorted_leaves(none);
        let back = HuffmanView::of_bytes(compressed(text));
        assert(back.leaves.len() == 0);
        assert(back.heap.len() == 0);
        assert(back.after_decode().text =~= text);
    } else {
        let tree = text_tree(text)->0;
        assert(leaf_nodes(leaves).len() > 0);
        assert(made.tree == Some(tree));
        let records = level_order(tree, tree.height());
        lemma_level_order_leaves(tree, tree.height());
        lemma_leaf_permutation(records, tree.leaves());
        lemma_leaf_permutation(tree.leaves(), leaves);
        lemma_parse_wire(tree.height() as u32, records, bits);
        lemma_sorted_leaves_unique(records, symbol_leaves(text, ALPHABET as nat));
        let back = HuffmanView::of_bytes(compressed(text));
        assert(back.leaves == leaves);
        assert(back.with_tree().tree == Some(tree));
        assert(back.bytes == packed(bits));
        assert(back.offset == Some(offset_of(bits)));
        lemma_code_book(tree);
        lemma_table_symbols(text, tree.leaves());
        if tree.is_leaf() {
            assert(tree.leaves() =~= seq![tree.as_leaf()]);
            assert(leaf_sum(tree.leaves().drop_last()) == 0);
            assert(tree.freq == text.len());
            assert forall|i: int| 0 <= i < text.len() implies text[i] == tree.ch by {
                assert(text.contains(text[i]));
                assert(has_symbol(tree.leaves(), text[i]));
            }
            assert(decoded_text(tree, bits) =~= text) by {
                assert(Seq::new(tree.freq as nat, |i: int| tree.ch) =~= text);
            }
            assert(back.after_decode().text =~= text);
        } else {
            assert forall|i: int| 0 <= i < text.len() implies leaf_at(
                tree,
                made.codes[#[trigger] text[i]],
            ) == Some(text[i]) by {
                assert(text.contains(text[i]));
                assert(made.codes.dom().contains(text[i]));
            }
            lemma_walk_text(tree, made.codes, text, Seq::empty());
            assert(bits + Seq::<bool>::empty() =~= bits);
            assert(walk(tree, tree, Seq::<bool>::empty()) =~= Seq::<char>::empty());
            assert(walk(tree, tree, bits) =~= text);
            assert(back.after_decode().text =~= text);
        }
    }
}

/// A well-formed node weighs what its leaves weigh together.
pub proof fn law_node_frequency(node: Node)
    requires
        node.well_formed(),
    ensures
        node.freq == leaf_sum(node.leaves()),
    decreases node,
{
    if node.is_leaf() {
        assert(node.leaves().drop_last() =~= Seq::<Leaf>::empty());
        assert(leaf_sum(node.leaves().drop_last()) == 0);
    } else {
        let l = *node.left->0;
        let r = *node.right->0;
        law_node_frequency(l);
        law_node_frequency(r);
        lemma_leaf_sum_concat(l.leaves(), r.leaves());
    }
}

/// The sum of two tables is the sum of their sums.
pub proof fn lemma_leaf_sum_concat(a: Seq<Leaf>, b: Seq<Leaf>)
    ensures
        leaf_sum(a + b) == leaf_sum(a) + leaf_sum(b),
    decreases b.len(),
{
    if b.len() == 0 {
        assert(a + b =~= a);
    } else {
        lemma_leaf_sum_concat(a, b.drop_last());
        assert((a + b).drop_last() =~= a + b.drop_last());
    }
}

/// Frequency conservation: the root of the tree of a text of byte symbols
/// weighs what its leaves weigh together, which is the length of the text.
pub proof fn law_frequency_conservation(text: Seq<char>)
    requires
        is_byte_text(text),
        0 < text.len() <= u32::MAX,
    ensures
        text_tree(text) is Some,
        text_tree(text)->0.freq == leaf_sum(text_tree(text)->0.leaves()),
        text_tree(text)->0.freq == leaf_sum(text_leaves(text)),
        text_tree(text)->0.freq == text.len(),
{
    lemma_text_tree(text);
    assert(text_leaves(text).len() > 0) by {
        if text_leaves(text).len() == 0 {
            assert(leaf_sum(text_leaves(text)) == 0);
        }
    }
    law_node_frequency(text_tree(text)->0);
}

/// Code-table completeness: the code table of a text of byte symbols has
/// one code for each symbol that occurs in the text, and for no other.
pub proof fn law_codes_complete(text: Seq<char>)
    requires
        is_byte_text(text),
        text.len() <= u32::MAX,
    ensures
        covers(text_codes(text), text),
        forall|c: char| text_codes(text).dom().contains(c) <==> text.contains(c),
{
    lemma_text_codes(text);
    assert forall|c: char| text_codes(text).dom().contains(c) <==> text.contains(c) by {
        if text.contains(c) {
            let i = choose|i: int| 0 <= i < text.len() && text[i] == c;
            assert((text[i] as int) < 256);
        }
    }
}

/// Prefix-freedom: in the code table of a text, the code of one symbol is
/// never the beginning of the code of another.
pub proof fn law_codes_prefix_free(text: Seq<char>, a: char, b: char)
    requires
        text.len() <= u32::MAX,
        text_codes(text).dom().contains(a),
        text_codes(text).dom().contains(b),
        a != b,
    ensures
        !is_prefix(text_codes(text)[a], text_codes(text)[b]),
{
    lemma_text_tree(text);
    let leaves = text_leaves(text);
    if leaves.len() > 0 {
        assert(leaf_nodes(leaves).len() > 0);
        lemma_prefix_free(text_tree(text)->0, a, b);
    } else {
        assert(leaf_nodes(leaves).len() == 0);
    }
}

/// Serialization round trip: the buffer written for the tree of a table
/// is taken apart into a table of the same leaves, and tree construction
/// makes of that table the same tree, and so the same codes.
pub proof fn law_serialization_round_trip(leaves: Seq<Leaf>, bits: Seq<bool>)
    requires
        0 < leaves.len() <= MAX_LEAVES,
        byte_symbols(leaves),
        leaf_sum(leaves) <= u32::MAX,
    ensures
        ({
            let tree = tree_of(leaf_nodes(sorted_leaves(leaves)))->0;
            let buffer = wire(tree.height() as u32, level_order(tree, tree.height()), bits);
            &&& parse(buffer) is Some
            &&& parse(buffer)->0.records.to_multiset() == leaves.to_multiset()
            &&& tree_of(leaf_nodes(sorted_leaves(parse(buffer)->0.records))) == Some(tree)
        }),
{
    let sorted = sorted_leaves(leaves);
    lemma_sorted_leaves(leaves);
    lemma_leaf_permutation(leaves, sorted);
    lemma_tree_of_leaves(sorted);
    let tree = tree_of(leaf_nodes(sorted))->0;
    let records = level_order(tree, tree.height());
    lemma_level_order_leaves(tree, tree.height());
    lemma_leaf_permutation(records, tree.leaves());
    lemma_leaf_permutation(tree.leaves(), sorted);
    lemma_parse_wire(tree.height() as u32, records, bits);
    lemma_sorted_leaves_unique(records, leaves);
}

/// Corruption: a buffer of fewer than twelve bytes, too short for the
/// header and the offset bit, cannot be taken apart, and so does not
/// decompress.
pub proof fn law_short_buffer(bytes: Seq<u8>)
    requires
        bytes.len() < 12,
    ensures
        parse(bytes) is None,
        decompressed(bytes) is None,
        HuffmanView::of_bytes(bytes).malformed,
{
}

/// Minimal code length: no well-formed tree over the leaves of a text has a
/// smaller weighted path length than the tree of the text. So no code that a
/// tree gives these symbols takes fewer bits for the text.
pub proof fn law_minimal_code_length(text: Seq<char>, other: Node)
    requires
        text.len() <= u32::MAX,
        text_leaves(text).len() > 0,
        other.well_formed(),
        other.leaves().to_multiset() == text_leaves(text).to_multiset(),
    ensures
        text_tree(text) is Some,
        text_tree(text)->0.cost() <= other.cost(),
{
    lemma_text_tree(text);
    lemma_tree_is_cheapest(text_leaves(text), other);
}

/// A table that holds the leaves of a text carries the counts of the text,
/// has no symbol twice, and has a leaf for every byte symbol of the text.
pub proof fn lemma_table_distinct(text: Seq<char>, leaves: Seq<Leaf>)
    requires
        text.len() <= u32::MAX,
        leaves.to_multiset() == symbol_leaves(text, ALPHABET as nat).to_multiset(),
    ensures
        counts_text(leaves, text),
        distinct_symbols(leaves),
        is_byte_text(text) ==> forall|i: int|
            0 <= i < text.len() ==> has_symbol(leaves, #[trigger] text[i]),
{
    let table = symbol_leaves(text, ALPHABET as nat);
    lemma_symbol_leaves(text, ALPHABET as nat);
    lemma_table_symbols(text, leaves);
    assert(table.no_duplicates()) by {
        assert forall|i: int, j: int|
            0 <= i < table.len() && 0 <= j < table.len() && i != j implies table[i] != table[j] by {
            if i < j {
                assert(table[i].0 < table[j].0);
            } else {
                assert(table[j].0 < table[i].0);
            }
        }
    }
    table.lemma_multiset_has_no_duplicates();
    leaves.lemma_multiset_has_no_duplicates_conv();
    assert forall|i: int, j: int| 0 <= i < j < leaves.len() implies (#[trigger] leaves[i]).0 != (
    #[trigger] leaves[j]).0 by {
        if leaves[i].0 == leaves[j].0 {
            assert(leaves[i].1 == leaves[j].1);
            assert(leaves[i] == leaves[j]);
        }
    }
    if is_byte_text(text) {
        assert forall|i: int| 0 <= i < text.len() implies has_symbol(leaves, #[trigger] text[i]) by {
            assert(text.contains(text[i]));
            assert((text[i] as int) < 256);
        }
    }
}

/// Fewest bits: where a text of byte symbols has two symbols or more, its
/// code table takes no more bits for the text than the code table of any
/// well-formed tree over the same leaves.
pub proof fn law_fewest_bits(text: Seq<char>, other: Node)
    requires
        is_byte_text(text),
        text.len() <= u32::MAX,
        text_leaves(text).len() >= 2,
        other.well_formed(),
        other.leaves().to_multiset() == text_leaves(text).to_multiset(),
    ensures
        encoded_bits(text, text_codes(text)).len() == text_tree(text)->0.cost(),
        encoded_bits(text, code_book(other)).len() == other.cost(),
        encoded_bits(text, text_codes(text)).len() <= encoded_bits(text, code_book(other)).len(),
{
    broadcast use group_to_multiset_ensures;

    let leaves = text_leaves(text);
    lemma_text_tree(text);
    let tree = text_tree(text)->0;
    assert(leaf_nodes(leaves).len() > 0);
    assert(text_codes(text) == code_book(tree));
    law_minimal_code_length(text, other);
    lemma_table_distinct(text, tree.leaves());
    lemma_table_distinct(text, other.leaves());
    assert(other.leaves().to_multiset().len() == other.leaves().len());
    assert(leaves.to_multiset().len() == leaves.len());
    assert(!tree.is_leaf()) by {
        if tree.is_leaf() {
            assert(tree.leaves() =~= seq![tree.as_leaf()]);
        }
    }
    assert(!other.is_leaf()) by {
        if other.is_leaf() {
            assert(other.leaves() =~= seq![other.as_leaf()]);
        }
    }
    lemma_bits_are_cost(tree, text);
    lemma_bits_are_cost(other, text);
}

/// Minimal weighted code length: where a text of byte symbols has two
/// symbols or more, its code table takes no more bits for the text than any
/// prefix-free code, that is, any assignment of bit strings to the symbols
/// of the text in which the string of one symbol is never the beginning of
/// the string of another.
pub proof fn law_no_code_is_shorter(text: Seq<char>, codes: Map<char, Seq<bool>>)
    requires
        is_byte_text(text),
        text.len() <= u32::MAX,
        text_leaves(text).len() >= 2,
        forall|a: char, b: char|
            text.contains(a) && text.contains(b) && a != b ==> !is_prefix(
                #[trigger] codes[a],
                #[trigger] codes[b],
            ),
    ensures
        encoded_bits(text, text_codes(text)).len() <= encoded_bits(text, codes).len(),
{
    broadcast use group_to_multiset_ensures;

    let leaves = text_leaves(text);
    lemma_text_tree(text);
    let tree = text_tree(text)->0;
    assert(leaf_nodes(leaves).len() > 0);
    assert(text_codes(text) == code_book(tree));
    lemma_table_distinct(text, leaves);
    lemma_table_distinct(text, tree.leaves());
    lemma_table_symbols(text, leaves);
    let items = coded_leaves(leaves, codes);
    lemma_coded_leaves(leaves, codes, text);
    assert(prefix_free(items)) by {
        assert forall|i: int, j: int| 0 <= i < j < items.len() implies unrelated(
            (#[trigger] items[i]).1,
            (#[trigger] items[j]).1,
        ) by {
            let a = leaves[i].0;
            let b = leaves[j].0;
            assert(has_symbol(leaves, a));
            assert(has_symbol(leaves, b));
            assert(text.contains(a) && text.contains(b));
            assert(!is_prefix(codes[a], codes[b]));
            assert(!is_prefix(codes[b], codes[a]));
        }
    }
    let shape = lemma_code_shape(items);
    lemma_tree_beats_shape(leaves, shape);
    lemma_leaves_bits(leaves, codes, text);
    assert(!tree.is_leaf()) by {
        if tree.is_leaf() {
            assert(tree.leaves() =~= seq![tree.as_leaf()]);
        }
    }
    lemma_bits_are_cost(tree, text);
}

/// Heap invariant: after the heap is built, of whatever nodes in whatever
/// order, no node is heavier than either of its children, and the nodes are
/// the same.
pub proof fn law_heap_invariant(nodes: Seq<Node>)
    ensures
        is_min_heap(build_heap(nodes)),
        build_heap(nodes).to_multiset() == nodes.to_multiset(),
{
    lemma_build_heap_is_min_heap(nodes);
}

/// Every code in the code table of a text has at least one bit.
pub proof fn law_codes_not_empty(text: Seq<char>, c: char)
    requires
        text.len() <= u32::MAX,
        text_codes(text).dom().contains(c),
    ensures
        text_codes(text)[c].len() >= 1,
{
    lemma_text_tree(text);
    let leaves = text_leaves(text);
    if leaves.len() > 0 {
        assert(leaf_nodes(leaves).len() > 0);
        let tree = text_tree(text)->0;
        lemma_code_book(tree);
        if !tree.is_leaf() {
            assert(leaf_at(tree, code_book(tree)[c]) == Some(c));
        }
    } else {
        assert(leaf_nodes(leaves).len() == 0);
    }
}

/// Reading back: the codec made from the buffer of a text holds the leaves
/// of the codec made from the text, in the same order in the heap, and no
/// tree yet; and tree construction and code generation give it the code
/// table of the text.
pub proof fn law_read_back(text: Seq<char>)
    requires
        text.len() <= u32::MAX,
    ensures
        !HuffmanView::of_bytes(compressed(text)).malformed,
        HuffmanView::of_bytes(compressed(text)).leaves == HuffmanView::of_text(text).leaves,
        HuffmanView::of_bytes(compressed(text)).heap == HuffmanView::of_text(text).heap,
        HuffmanView::of_bytes(compressed(text)).tree is None,
        HuffmanView::of_bytes(compressed(text)).with_tree().with_codes().codes == text_codes(text),
{
    broadcast use group_to_multiset_ensures;

    let leaves = text_leaves(text);
    let made = HuffmanView::of_text(text).with_tree().with_codes();
    let bits = made.bits();
    lemma_text_tree(text);
    if leaves.len() == 0 {
        assert(leaf_nodes(leaves).len() == 0);
        let none = Seq::<Leaf>::empty();
        assert(made.tree is None);
        assert(leaf_sum(none) == 0);
        lemma_parse_wire(0, none, bits);
        lemma_sorted_leaves(none);
        assert(sorted_leaves(none) =~= leaves);
    } else {
        let tree = text_tree(text)->0;
        assert(leaf_nodes(leaves).len() > 0);
        assert(made.tree == Some(tree));
        let records = level_order(tree, tree.height());
        lemma_level_order_leaves(tree, tree.height());
        lemma_leaf_permutation(records, tree.leaves());
        lemma_leaf_permutation(tree.leaves(), leaves);
        lemma_parse_wire(tree.height() as u32, records, bits);
        lemma_sorted_leaves_unique(records, symbol_leaves(text, ALPHABET as nat));
    }
}

/// Truncation: a buffer that ends before the records that its table length
/// asks for, or before the offset bit after them, cannot be taken apart.
pub proof fn law_truncated_buffer(bytes: Seq<u8>)
    requires
        bytes.len() >= 8,
        bytes.len() < 12 + 5 * record_count(be32(bytes.subrange(4, 8)) as nat),
    ensures
        parse(bytes) is None,
        HuffmanView::of_bytes(bytes).malformed,
{
}

/// Sift-down: where the subtrees at the two children of a position are
/// heaps, sift-down from the position makes the subtree at the position a
/// heap and leaves every node outside it where it was.
pub proof fn law_sift_down(nodes: Seq<Node>, idx: int)
    requires
        0 <= idx < nodes.len(),
        subtrees_are_heaps(nodes, idx),
    ensures
        subtree_is_heap(sift_down(nodes, idx), idx),
        forall|j: int|
            0 <= j < nodes.len() && j != idx && !is_below(j, idx) ==> #[trigger] sift_down(
                nodes,
                idx,
            )[j] == nodes[j],
{
    lemma_sift_down_subtree(nodes, idx);
}

} // verus!
