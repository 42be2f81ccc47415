//! Bulk construction: the shape of the tree that is built from an ordered
//! sequence of leaves by pairing neighbours round by round.

use vstd::prelude::*;
use vstd::seq_lib::lemma_flatten_concat;
use crate::pieces::{lemma_with_text_flatten, with_text};
use crate::tree::{lemma_text_is_flattened_leaves, Tree};

verus! {

/// A leaf that holds at least one character: what a rebuild keeps.
pub open spec fn is_text_leaf(t: Tree) -> bool {
    t is Leaf && t.len() > 0
}

/// The entries that a rebuild keeps, in order.
pub open spec fn kept(entries: Seq<Tree>) -> Seq<Tree>
    decreases entries.len(),
{
    if entries.len() == 0 {
        Seq::empty()
    } else if is_text_leaf(entries.last()) {
        kept(entries.drop_last()).push(entries.last())
    } else {
        kept(entries.drop_last())
    }
}

/// One leaf for each text.
pub open spec fn leaf_trees(texts: Seq<Seq<char>>) -> Seq<Tree> {
    Seq::new(texts.len(), |i: int| Tree::Leaf { text: texts[i] })
}

/// One round: neighbours are joined two by two, and a last entry without a
/// neighbour is carried over unchanged.
pub open spec fn pair_round(entries: Seq<Tree>) -> Seq<Tree> {
    Seq::new(
        ((entries.len() + 1) / 2) as nat,
        |i: int|
            if 2 * i + 1 < entries.len() {
                Tree::concat(entries[2 * i], entries[2 * i + 1])
            } else {
                entries[2 * i]
            },
    )
}

/// Rounds of pairing until one entry is left.
pub open spec fn build_rounds(entries: Seq<Tree>) -> Tree
    decreases entries.len(),
{
    if entries.len() == 0 {
        Tree::Empty
    } else if entries.len() == 1 {
        entries[0]
    } else {
        build_rounds(pair_round(entries))
    }
}

impl Tree {
    /// The tree built from the leaves with text among `entries`.
    pub open spec fn build(entries: Seq<Tree>) -> Tree {
        build_rounds(kept(entries))
    }

    /// The tree built from one leaf for each text that is not empty.
    pub open spec fn from_leaves(texts: Seq<Seq<char>>) -> Tree {
        Tree::build(leaf_trees(texts))
    }
}

/// The leaf texts of all entries, in order.
pub open spec fn joined_leaves(entries: Seq<Tree>) -> Seq<Seq<char>>
    decreases entries.len(),
{
    if entries.len() == 0 {
        Seq::empty()
    } else {
        entries[0].leaves() + joined_leaves(entries.skip(1))
    }
}

/// The texts of all entries, joined in order.
pub open spec fn joined_text(entries: Seq<Tree>) -> Seq<char> {
    joined_leaves(entries).flatten()
}

/// The joined text starts with the text of the first entry.
pub proof fn lemma_joined_text_unfold(entries: Seq<Tree>)
    requires
        entries.len() > 0,
    ensures
        joined_text(entries) == entries[0].text() + joined_text(entries.skip(1)),
{
    lemma_flatten_concat(entries[0].leaves(), joined_leaves(entries.skip(1)));
    lemma_text_is_flattened_leaves(entries[0]);
}

/// Two neighbours together are no longer than the joined text.
pub proof fn lemma_neighbours_fit(entries: Seq<Tree>, i: int)
    requires
        0 <= i < entries.len(),
    ensures
        entries[i].len() <= joined_text(entries).len(),
        i + 1 < entries.len() ==> entries[i].len() + entries[i + 1].len() <= joined_text(
            entries,
        ).len(),
    decreases entries.len(),
{
    lemma_joined_text_unfold(entries);
    let rest = entries.skip(1);
    if i == 0 {
        if 1 < entries.len() {
            lemma_joined_text_unfold(rest);
        }
    } else {
        lemma_neighbours_fit(rest, i - 1);
    }
}

/// A round starts with the first two entries joined and goes on with the
/// round of the others.
pub proof fn lemma_pair_round_unfold(entries: Seq<Tree>)
    requires
        entries.len() >= 2,
    ensures
        pair_round(entries) == seq![Tree::concat(entries[0], entries[1])] + pair_round(
            entries.skip(2),
        ),
{
    assert(pair_round(entries) =~= seq![Tree::concat(entries[0], entries[1])] + pair_round(
        entries.skip(2),
    ));
}

/// A round keeps the leaves and their order.
pub proof fn lemma_pair_round_keeps_leaves(entries: Seq<Tree>)
    ensures
        joined_leaves(pair_round(entries)) == joined_leaves(entries),
    decreases entries.len(),
{
    if entries.len() == 0 {
        assert(pair_round(entries) =~= entries);
    } else if entries.len() == 1 {
        assert(pair_round(entries) =~= entries);
    } else {
        let rest = entries.skip(2);
        let head = Tree::concat(entries[0], entries[1]);
        lemma_pair_round_unfold(entries);
        lemma_pair_round_keeps_leaves(rest);
        let next = pair_round(entries);
        assert(next.skip(1) =~= pair_round(rest));
        assert(entries.skip(1).skip(1) =~= rest);
        assert(joined_leaves(entries.skip(1)) == entries[1].leaves() + joined_leaves(rest));
        assert(joined_leaves(next) =~= joined_leaves(entries));
    }
}

/// The tree that is built has the leaves of the entries, in order.
pub proof fn lemma_build_rounds_leaves(entries: Seq<Tree>)
    ensures
        build_rounds(entries).leaves() == joined_leaves(entries),
        build_rounds(entries).text() == joined_text(entries),
    decreases entries.len(),
{
    if entries.len() == 0 {
    } else if entries.len() == 1 {
        assert(joined_leaves(entries.skip(1)) =~= Seq::<Seq<char>>::empty());
        assert(joined_leaves(entries) =~= entries[0].leaves());
    } else {
        lemma_pair_round_keeps_leaves(entries);
        lemma_build_rounds_leaves(pair_round(entries));
    }
    lemma_text_is_flattened_leaves(build_rounds(entries));
}

/// Among one leaf for each text, a rebuild keeps the leaves of the texts that
/// are not empty.
pub proof fn lemma_kept_leaf_trees(texts: Seq<Seq<char>>)
    ensures
        kept(leaf_trees(texts)) == leaf_trees(with_text(texts)),
    decreases texts.len(),
{
    if texts.len() > 0 {
        lemma_kept_leaf_trees(texts.drop_last());
        assert(leaf_trees(texts).drop_last() =~= leaf_trees(texts.drop_last()));
        assert(kept(leaf_trees(texts)) =~= leaf_trees(with_text(texts)));
    } else {
        assert(kept(leaf_trees(texts)) =~= leaf_trees(with_text(texts)));
    }
}

/// The leaves of one leaf for each text are those texts.
pub proof fn lemma_joined_leaf_trees(texts: Seq<Seq<char>>)
    ensures
        joined_leaves(leaf_trees(texts)) == texts,
    decreases texts.len(),
{
    if texts.len() > 0 {
        lemma_joined_leaf_trees(texts.skip(1));
        assert(leaf_trees(texts).skip(1) =~= leaf_trees(texts.skip(1)));
        assert(joined_leaves(leaf_trees(texts)) =~= texts);
    } else {
        assert(joined_leaves(leaf_trees(texts)) =~= texts);
    }
}

/// The tree built from a sequence of texts has those that are not empty as
/// its leaves, in order, and the joined texts as its text.
pub proof fn lemma_from_leaves(texts: Seq<Seq<char>>)
    ensures
        Tree::from_leaves(texts).leaves() == with_text(texts),
        Tree::from_leaves(texts).text() == texts.flatten(),
{
    lemma_kept_leaf_trees(texts);
    lemma_joined_leaf_trees(with_text(texts));
    lemma_build_rounds_leaves(kept(leaf_trees(texts)));
    lemma_with_text_flatten(texts);
}

} // verus!
