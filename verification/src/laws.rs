//! What holds of the operations of a rope, whatever the tree and the
//! positions: each statement is proved from the definitions on the model.

use vstd::prelude::*;
use crate::balance::{lemma_build_balanced, lemma_build_wf};
use crate::builder::{leaf_trees, lemma_from_leaves, lemma_kept_leaf_trees};
use crate::pieces::{
    clamp, cuts_between_leaves, lemma_pieces_before_text, lemma_pieces_from_text,
    lemma_window_text, pieces_before, pieces_from, window, with_text,
};
use crate::sizes::lemma_operations_extent;
use crate::tree::{lemma_char_at_indexes_text, lemma_text_is_flattened_leaves, Tree};

verus! {

/// A tree that is joined from two has the text of the first followed by the
/// text of the second, so its length is the sum of their lengths. Its leaves
/// are those of the first followed by those of the second.
pub proof fn lemma_concat(a: Tree, b: Tree)
    ensures
        Tree::concat(a, b).text() == a.text() + b.text(),
        Tree::concat(a, b).len() == a.len() + b.len(),
        Tree::concat(a, b).leaves() == a.leaves() + b.leaves(),
        a.wf() && b.wf() ==> Tree::concat(a, b).wf(),
{
}

/// The two parts of a split hold the text before and the text from the
/// index on.
pub proof fn lemma_split_text(t: Tree, index: nat)
    ensures
        t.split(index).0.text() == t.text().take(clamp(index, t.len())),
        t.split(index).1.text() == t.text().skip(clamp(index, t.len())),
{
    let text = t.text();
    if index == 0 {
        assert(text.take(0) =~= Seq::<char>::empty());
        assert(text.skip(0) =~= text);
    } else if index >= t.len() {
        assert(text.take(text.len() as int) =~= text);
        assert(text.skip(text.len() as int) =~= Seq::<char>::empty());
    } else {
        lemma_text_is_flattened_leaves(t);
        lemma_from_leaves(pieces_before(t.leaves(), index as int));
        lemma_from_leaves(pieces_from(t.leaves(), index as int));
        lemma_pieces_before_text(t.leaves(), index as int);
        lemma_pieces_from_text(t.leaves(), index as int);
    }
}

/// Splitting a tree anywhere and joining the two parts again gives back the
/// same text.
pub proof fn lemma_split_concat_text(t: Tree, index: nat)
    ensures
        Tree::concat(t.split(index).0, t.split(index).1).text() == t.text(),
{
    lemma_split_text(t, index);
    let c = clamp(index, t.len());
    assert(t.text().take(c) + t.text().skip(c) =~= t.text());
}

/// Leaving out the empty texts of two sequences one after the other.
pub proof fn lemma_with_text_add(a: Seq<Seq<char>>, b: Seq<Seq<char>>)
    ensures
        with_text(a + b) == with_text(a) + with_text(b),
    decreases b.len(),
{
    if b.len() == 0 {
        assert(a + b =~= a);
        assert(with_text(a) + with_text(b) =~= with_text(a));
    } else {
        lemma_with_text_add(a, b.drop_last());
        assert((a + b).drop_last() =~= a + b.drop_last());
        assert(with_text(a + b) =~= with_text(a) + with_text(b));
    }
}

/// The leaves of a tree without empty leaves are all texts with characters.
pub proof fn lemma_no_empty_leaves(t: Tree)
    requires
        t.no_empty_leaves(),
    ensures
        with_text(t.leaves()) == t.leaves(),
    decreases t,
{
    match t {
        Tree::Internal { left, right, .. } => {
            lemma_no_empty_leaves(*left);
            lemma_no_empty_leaves(*right);
            lemma_with_text_add(left.leaves(), right.leaves());
        },
        Tree::Leaf { text } => {
            let single = seq![text];
            assert(single.drop_last() =~= Seq::<Seq<char>>::empty());
            assert(with_text(single.drop_last()) =~= Seq::<Seq<char>>::empty());
            assert(single.last() == text);
            assert(with_text(single) =~= single);
        },
        Tree::Empty => {},
    }
}

/// A cut between two leaves parts the leaves without changing any of them.
pub proof fn lemma_cut_between_leaves(leaves: Seq<Seq<char>>, k: int)
    requires
        cuts_between_leaves(leaves, k),
    ensures
        pieces_before(leaves, k) + pieces_from(leaves, k) == leaves,
    decreases leaves.len(),
{
    if leaves.len() == 0 || k <= 0 {
        assert(pieces_before(leaves, k) + pieces_from(leaves, k) =~= leaves);
    } else {
        lemma_cut_between_leaves(leaves.skip(1), k - leaves[0].len());
        assert(pieces_before(leaves, k) + pieces_from(leaves, k) =~= seq![leaves[0]] + (
        pieces_before(leaves.skip(1), k - leaves[0].len()) + pieces_from(
            leaves.skip(1),
            k - leaves[0].len(),
        )));
        assert(seq![leaves[0]] + leaves.skip(1) =~= leaves);
    }
}

/// Splitting a tree and joining the two parts again gives back the same
/// leaves in the same order, where the split is at the start, at or past the
/// end, or between two leaves of a tree without empty leaves.
pub proof fn lemma_split_concat_leaves(t: Tree, index: nat)
    requires
        index == 0 || index >= t.len() || (t.no_empty_leaves() && cuts_between_leaves(
            t.leaves(),
            index as int,
        )),
    ensures
        Tree::concat(t.split(index).0, t.split(index).1).leaves() == t.leaves(),
{
    if index == 0 {
        assert(Tree::Empty.leaves() + t.leaves() =~= t.leaves());
    } else if index >= t.len() {
        assert(t.leaves() + Tree::Empty.leaves() =~= t.leaves());
    } else {
        let before = pieces_before(t.leaves(), index as int);
        let from = pieces_from(t.leaves(), index as int);
        lemma_from_leaves(before);
        lemma_from_leaves(from);
        lemma_cut_between_leaves(t.leaves(), index as int);
        lemma_with_text_add(before, from);
        lemma_no_empty_leaves(t);
    }
}

/// Deleting is splitting twice and joining the outer parts; what is left is
/// the text before `start` followed by the text from `start + len` on.
pub proof fn lemma_delete(t: Tree, start: nat, len: nat)
    ensures
        t.delete(start, len) == Tree::concat(t.split(start).0, t.split(start + len).1),
        t.delete(start, len).text() == t.text().take(clamp(start, t.len())) + t.text().skip(
            clamp(start + len, t.len()),
        ),
{
    lemma_split_text(t, start);
    lemma_split_text(t, start + len);
}

/// After an insertion the text holds the new characters at the position,
/// between what was before it and what was behind it.
pub proof fn lemma_insert_text(t: Tree, index: nat, text: Seq<char>)
    ensures
        t.insert(index, text).text() == t.text().take(clamp(index, t.len())) + text
            + t.text().skip(clamp(index, t.len())),
{
    lemma_split_text(t, index);
    let c = clamp(index, t.len());
    if index == 0 {
        assert(t.text().take(0) =~= Seq::<char>::empty());
        assert(t.text().skip(0) =~= t.text());
        assert(t.insert(index, text).text() =~= t.text().take(c) + text + t.text().skip(c));
    } else if index >= t.len() {
        assert(t.text().take(c) =~= t.text());
        assert(t.text().skip(c) =~= Seq::<char>::empty());
        assert(t.insert(index, text).text() =~= t.text().take(c) + text + t.text().skip(c));
    }
}

/// Rebuilding keeps the text and the leaves with text in their order, drops
/// the empty leaves, and gives a well-formed tree.
pub proof fn lemma_rebuild(t: Tree)
    ensures
        t.rebuild().text() == t.text(),
        t.rebuild().leaves() == with_text(t.leaves()),
        t.rebuild().wf(),
{
    lemma_from_leaves(t.leaves());
    lemma_text_is_flattened_leaves(t);
    lemma_build_wf(leaf_trees(t.leaves()));
}

/// Rebuilding a tree without empty leaves keeps its leaves as they are.
pub proof fn lemma_rebuild_keeps_leaves(t: Tree)
    requires
        t.no_empty_leaves(),
    ensures
        t.rebuild().leaves() == t.leaves(),
{
    lemma_rebuild(t);
    lemma_no_empty_leaves(t);
}

/// Rebuilding a tree with true weights changes the character at no
/// position.
pub proof fn lemma_rebuild_keeps_chars(t: Tree, index: nat)
    requires
        t.weights_ok(),
    ensures
        t.rebuild().char_at(index) == t.char_at(index),
{
    lemma_rebuild(t);
    lemma_char_at_indexes_text(t, index);
    lemma_char_at_indexes_text(t.rebuild(), index);
}

/// Rebuilding twice gives the same tree as rebuilding once.
pub proof fn lemma_rebuild_idempotent(t: Tree)
    ensures
        t.rebuild().rebuild() == t.rebuild(),
{
    let once = t.rebuild();
    lemma_rebuild(t);
    lemma_no_empty_leaves(once);
    lemma_kept_leaf_trees(t.leaves());
    lemma_kept_leaf_trees(with_text(t.leaves()));
}

/// A tree with at least one leaf with text meets the Fibonacci criterion once
/// it is rebuilt.
pub proof fn lemma_rebuild_is_balanced(t: Tree)
    requires
        with_text(t.leaves()).len() > 0,
    ensures
        t.rebuild().is_balanced(),
{
    lemma_kept_leaf_trees(t.leaves());
    lemma_build_balanced(leaf_trees(t.leaves()));
}

/// Rebalancing, that is rebuilding only where the criterion is not met,
/// leaves a balanced tree as it is and keeps the text of every tree; done
/// twice it gives the same tree as done once; it meets the criterion on
/// every tree that met it before or has a leaf with text; and it keeps the
/// leaves of a tree without empty leaves.
pub proof fn lemma_rebalance(t: Tree)
    ensures
        t.is_balanced() ==> t.rebalance() == t,
        t.rebalance().text() == t.text(),
        t.rebalance().rebalance() == t.rebalance(),
        t.is_balanced() || with_text(t.leaves()).len() > 0 ==> t.rebalance().is_balanced(),
        t.weights_ok() ==> t.rebalance().weights_ok(),
        t.wf() ==> t.rebalance().wf(),
        t.no_empty_leaves() ==> t.rebalance().leaves() == t.leaves(),
        t.rebalance().extent() <= t.extent(),
{
    lemma_operations_extent(t, 0, 0, Seq::empty());
    lemma_rebuild(t);
    lemma_rebuild_idempotent(t);
    if with_text(t.leaves()).len() > 0 {
        lemma_rebuild_is_balanced(t);
    }
    if t.no_empty_leaves() {
        lemma_rebuild_keeps_leaves(t);
    }
}

/// Rebalancing a tree with true weights changes the character at no
/// position.
pub proof fn lemma_rebalance_keeps_chars(t: Tree, index: nat)
    requires
        t.weights_ok(),
    ensures
        t.rebalance().char_at(index) == t.char_at(index),
{
    lemma_rebuild_keeps_chars(t, index);
}

/// The parts of a split, a substring and what a deletion leaves are well
/// formed where the tree is; so is the tree after an insertion of a text
/// that is not empty.
pub proof fn lemma_operations_keep_wf(t: Tree, index: nat, len: nat, text: Seq<char>)
    requires
        t.wf(),
    ensures
        t.split(index).0.wf(),
        t.split(index).1.wf(),
        t.substring(index, len).wf(),
        t.delete(index, len).wf(),
        text.len() > 0 ==> t.insert(index, text).wf(),
{
    lemma_build_wf(leaf_trees(pieces_before(t.leaves(), index as int)));
    lemma_build_wf(leaf_trees(pieces_from(t.leaves(), index as int)));
    lemma_build_wf(leaf_trees(pieces_before(t.leaves(), (index + len) as int)));
    lemma_build_wf(leaf_trees(pieces_from(t.leaves(), (index + len) as int)));
    lemma_build_wf(leaf_trees(window(t.leaves(), index, len)));
    lemma_concat(t.split(index).0, t.split(index + len).1);
    let leaf = Tree::Leaf { text };
    lemma_concat(leaf, t);
    lemma_concat(t, leaf);
    lemma_concat(t.split(index).0, leaf);
    lemma_concat(Tree::concat(t.split(index).0, leaf), t.split(index).1);
}

/// A substring is no longer than asked for, and holds the characters of the
/// window as far as the text goes.
pub proof fn lemma_substring(t: Tree, start: nat, len: nat)
    ensures
        t.substring(start, len).text() == t.text().subrange(
            clamp(start, t.len()),
            clamp(start + len, t.len()),
        ),
        t.substring(start, len).len() <= len,
        len == 0 ==> t.substring(start, len) == Tree::Empty,
{
    lemma_text_is_flattened_leaves(t);
    lemma_from_leaves(window(t.leaves(), start, len));
    lemma_window_text(t.leaves(), start, len);
    if len == 0 {
        assert(window(t.leaves(), start, len) =~= Seq::<Seq<char>>::empty());
        assert(leaf_trees(Seq::<Seq<char>>::empty()) =~= Seq::<Tree>::empty());
    }
}

} // verus!
