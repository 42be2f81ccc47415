//! What the editing operations of a rope compute, stated on the model.

use vstd::prelude::*;
use crate::pieces::{pieces_before, pieces_from, window};
use crate::tree::Tree;

verus! {

impl Tree {
    /// The two parts that cover `[0, index)` and `[index, len)`. At the start
    /// and at or past the end, one part is the tree itself and the other is
    /// empty; anywhere else both parts are rebuilt from the leaves cut at
    /// `index`.
    pub open spec fn split(self, index: nat) -> (Tree, Tree) {
        if index == 0 {
            (Tree::Empty, self)
        } else if index >= self.len() {
            (self, Tree::Empty)
        } else {
            (
                Tree::from_leaves(pieces_before(self.leaves(), index as int)),
                Tree::from_leaves(pieces_from(self.leaves(), index as int)),
            )
        }
    }

    /// The tree rebuilt from the pieces of the leaves that lie in the window
    /// of `len` characters from `start` on.
    pub open spec fn substring(self, start: nat, len: nat) -> Tree {
        Tree::from_leaves(window(self.leaves(), start, len))
    }

    /// `text` as a new leaf at position `index`: in front at 0, behind at or
    /// past the end, between the two parts of a split anywhere else.
    pub open spec fn insert(self, index: nat, text: Seq<char>) -> Tree {
        let leaf = Tree::Leaf { text };
        if index == 0 {
            Tree::concat(leaf, self)
        } else if index >= self.len() {
            Tree::concat(self, leaf)
        } else {
            Tree::concat(Tree::concat(self.split(index).0, leaf), self.split(index).1)
        }
    }

    /// What is left of `start` joined with what is right of `start + len`.
    pub open spec fn delete(self, start: nat, len: nat) -> Tree {
        Tree::concat(self.split(start).0, self.split(start + len).1)
    }

    /// The tree rebuilt from all leaves.
    pub open spec fn rebuild(self) -> Tree {
        Tree::from_leaves(self.leaves())
    }

    /// The tree as it is where it meets the Fibonacci criterion, rebuilt from
    /// its leaves where it does not.
    pub open spec fn rebalance(self) -> Tree {
        if self.is_balanced() {
            self
        } else {
            self.rebuild()
        }
    }
}

} // verus!
