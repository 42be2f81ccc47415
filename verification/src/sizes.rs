//! How large the results of the operations can get: bounds on depth and
//! number of leaves, by which a caller shows that a result still fits.

use vstd::prelude::*;
use crate::balance::lemma_build_balanced;
use crate::builder::{kept, leaf_trees, lemma_from_leaves, lemma_kept_leaf_trees};
use crate::pieces::{pieces_before, pieces_from, window, with_text};
use crate::tree::Tree;

verus! {

/// Leaving out the empty texts does not add any.
pub proof fn lemma_with_text_count(texts: Seq<Seq<char>>)
    ensures
        with_text(texts).len() <= texts.len(),
    decreases texts.len(),
{
    if texts.len() > 0 {
        lemma_with_text_count(texts.drop_last());
    }
}

/// A tree that is built has no more leaves than texts were given, and is no
/// deeper than it has leaves.
pub proof fn lemma_built_extent(texts: Seq<Seq<char>>)
    ensures
        Tree::from_leaves(texts).leaves().len() <= texts.len(),
        Tree::from_leaves(texts).depth() <= Tree::from_leaves(texts).leaves().len(),
        Tree::from_leaves(texts).extent() <= texts.len(),
{
    lemma_from_leaves(texts);
    lemma_with_text_count(texts);
    lemma_kept_leaf_trees(texts);
    if kept(leaf_trees(texts)).len() > 0 {
        lemma_build_balanced(leaf_trees(texts));
    }
}

/// Cutting at `from` and at `to`, no earlier, gives together at most one
/// piece more than there are leaves, and on each side no more pieces than
/// leaves.
pub proof fn lemma_pieces_count(leaves: Seq<Seq<char>>, from: int, to: int)
    requires
        from <= to,
    ensures
        pieces_before(leaves, from).len() <= leaves.len(),
        pieces_from(leaves, to).len() <= leaves.len(),
        pieces_before(leaves, from).len() + pieces_from(leaves, to).len() <= leaves.len() + 1,
    decreases leaves.len(),
{
    if leaves.len() > 0 {
        let first = leaves[0].len() as int;
        if from > 0 && first <= from {
            lemma_pieces_count(leaves.skip(1), from - first, to - first);
        } else if to > 0 && first <= to {
            lemma_pieces_count(leaves.skip(1), 0, to - first);
        }
    }
}

/// A window has no more pieces than there are leaves.
pub proof fn lemma_window_count(leaves: Seq<Seq<char>>, start: nat, len: nat)
    ensures
        window(leaves, start, len).len() <= leaves.len(),
    decreases leaves.len(),
{
    if leaves.len() == 0 || len == 0 {
    } else if start >= leaves[0].len() {
        lemma_window_count(leaves.skip(1), (start - leaves[0].len()) as nat, len);
    } else {
        let room = (leaves[0].len() - start) as nat;
        let taken = if len < room { len } else { room };
        lemma_window_count(leaves.skip(1), 0, (len - taken) as nat);
    }
}

/// Joining two trees adds their leaves and one level.
pub proof fn lemma_concat_extent(a: Tree, b: Tree)
    ensures
        Tree::concat(a, b).leaves().len() == a.leaves().len() + b.leaves().len(),
        Tree::concat(a, b).depth() == (if a.depth() >= b.depth() {
            a.depth()
        } else {
            b.depth()
        }) + 1,
        Tree::concat(a, b).extent() <= a.extent() + b.extent() + 1,
{
}

/// The parts of a split, a substring, a rebuilt and a rebalanced tree are no
/// larger in extent than the tree; a deletion adds at most one to the extent
/// and an insertion at most two.
pub proof fn lemma_operations_extent(t: Tree, index: nat, len: nat, text: Seq<char>)
    ensures
        t.split(index).0.extent() <= t.extent(),
        t.split(index).1.extent() <= t.extent(),
        t.substring(index, len).extent() <= t.extent(),
        t.rebuild().extent() <= t.extent(),
        t.rebalance().extent() <= t.extent(),
        t.delete(index, len).extent() <= t.extent() + 1,
        t.insert(index, text).extent() <= t.extent() + 2,
{
    let leaves = t.leaves();
    let end = index + len;
    lemma_pieces_count(leaves, index as int, index as int);
    lemma_pieces_count(leaves, index as int, end as int);
    lemma_pieces_count(leaves, end as int, end as int);
    lemma_window_count(leaves, index, len);
    lemma_built_extent(pieces_before(leaves, index as int));
    lemma_built_extent(pieces_from(leaves, index as int));
    lemma_built_extent(pieces_from(leaves, end as int));
    lemma_built_extent(window(leaves, index, len));
    lemma_built_extent(leaves);
    let leaf = Tree::Leaf { text };
    lemma_concat_extent(t.split(index).0, t.split(end).1);
    lemma_concat_extent(leaf, t);
    lemma_concat_extent(t, leaf);
    lemma_concat_extent(t.split(index).0, leaf);
    lemma_concat_extent(Tree::concat(t.split(index).0, leaf), t.split(index).1);
}

} // verus!
