//! The mathematical model of a rope: a binary tree whose leaves hold runs of
//! characters. Every contract of the library is stated over this model.

use vstd::prelude::*;
use crate::fibonacci_seq::fib;

verus! {

/// What a rope node stands for.
pub enum Tree {
    /// An internal node; `weight` is the character count recorded for `left`.
    Internal { left: Box<Tree>, right: Box<Tree>, weight: nat },
    /// A contiguous run of characters.
    Leaf { text: Seq<char> },
    /// Explicit absence.
    Empty,
}

impl Tree {
    /// The leaf texts, from left to right.
    pub open spec fn leaves(self) -> Seq<Seq<char>>
        decreases self,
    {
        match self {
            Tree::Internal { left, right, .. } => left.leaves() + right.leaves(),
            Tree::Leaf { text } => seq![text],
            Tree::Empty => Seq::empty(),
        }
    }

    /// The whole character sequence.
    pub open spec fn text(self) -> Seq<char>
        decreases self,
    {
        match self {
            Tree::Internal { left, right, .. } => left.text() + right.text(),
            Tree::Leaf { text } => text,
            Tree::Empty => Seq::empty(),
        }
    }

    /// The number of characters.
    pub open spec fn len(self) -> nat {
        self.text().len()
    }

    /// 0 for a leaf or an empty node, one more than the deeper child otherwise.
    pub open spec fn depth(self) -> nat
        decreases self,
    {
        match self {
            Tree::Internal { left, right, .. } => if left.depth() >= right.depth() {
                left.depth() + 1
            } else {
                right.depth() + 1
            },
            _ => 0,
        }
    }

    /// Every internal node records the true character count of its left subtree.
    pub open spec fn weights_ok(self) -> bool
        decreases self,
    {
        match self {
            Tree::Internal { left, right, weight } => {
                &&& weight == left.len()
                &&& left.weights_ok()
                &&& right.weights_ok()
            },
            _ => true,
        }
    }

    /// No leaf holds an empty text.
    pub open spec fn no_empty_leaves(self) -> bool
        decreases self,
    {
        match self {
            Tree::Internal { left, right, .. } => left.no_empty_leaves() && right.no_empty_leaves(),
            Tree::Leaf { text } => text.len() > 0,
            Tree::Empty => true,
        }
    }

    /// The invariant of a rope's data: true weights and no empty leaf.
    pub open spec fn wf(self) -> bool {
        self.weights_ok() && self.no_empty_leaves()
    }

    /// The character found by descending along the recorded weights.
    pub open spec fn char_at(self, index: nat) -> Option<char>
        decreases self,
    {
        match self {
            Tree::Internal { left, right, weight } => if index >= weight {
                right.char_at((index - weight) as nat)
            } else {
                left.char_at(index)
            },
            Tree::Leaf { text } => if index < text.len() {
                Some(text[index as int])
            } else {
                None
            },
            Tree::Empty => None,
        }
    }

    /// `left` and `right` under a new internal node with the true weight.
    pub open spec fn concat(left: Tree, right: Tree) -> Tree {
        Tree::Internal { left: Box::new(left), right: Box::new(right), weight: left.len() }
    }

    /// The greater of the depth and the number of leaves: a bound on both.
    pub open spec fn extent(self) -> nat {
        if self.depth() >= self.leaves().len() {
            self.depth()
        } else {
            self.leaves().len()
        }
    }

    /// The Fibonacci criterion: a tree of depth `d` is balanced when it has at
    /// least `fib(d + 2)` leaves.
    pub open spec fn is_balanced(self) -> bool {
        self.leaves().len() >= fib(self.depth() + 2)
    }

    /// The canonical rendering.
    pub open spec fn render(self) -> Seq<char>
        decreases self,
    {
        match self {
            Tree::Internal { left, right, .. } => "Node(Left: "@ + left.render() + ", Right: "@
                + right.render() + ")"@,
            Tree::Leaf { text } => "Leaf(\""@ + text + "\")"@,
            Tree::Empty => "None"@,
        }
    }
}

/// The text of a tree is its leaf texts joined in order.
pub proof fn lemma_text_is_flattened_leaves(t: Tree)
    ensures
        t.text() == t.leaves().flatten(),
    decreases t,
{
    match t {
        Tree::Internal { left, right, .. } => {
            lemma_text_is_flattened_leaves(*left);
            lemma_text_is_flattened_leaves(*right);
            vstd::seq_lib::lemma_flatten_concat(left.leaves(), right.leaves());
        },
        Tree::Leaf { text } => {
            seq![text].lemma_flatten_one_element();
        },
        Tree::Empty => {},
    }
}

/// On a tree with true weights, descending by weight finds the character at
/// that position of the text, and nothing past its end.
pub proof fn lemma_char_at_indexes_text(t: Tree, index: nat)
    requires
        t.weights_ok(),
    ensures
        t.char_at(index) == (if index < t.len() {
            Some(t.text()[index as int])
        } else {
            None
        }),
    decreases t,
{
    match t {
        Tree::Internal { left, right, weight } => {
            if index >= weight {
                lemma_char_at_indexes_text(*right, (index - weight) as nat);
            } else {
                lemma_char_at_indexes_text(*left, index);
            }
        },
        _ => {},
    }
}

} // verus!
