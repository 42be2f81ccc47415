//! The rope itself: one root node and the operations of a text on it.

use std::rc::Rc;
use vstd::prelude::*;
use vstd::string::*;
use crate::laws::{lemma_insert_text, lemma_operations_keep_wf, lemma_rebalance};
use crate::pieces::{clamp, with_text};
use crate::rope_iter::RopeIter;
use crate::rope_node::{trees, Node, RopeNode, RopeNodeType};
use crate::sizes::lemma_operations_extent;
use crate::tree::{lemma_char_at_indexes_text, Tree};

verus! {

impl Tree {
    /// A lone leaf under a node of its own, with nothing to its right; any
    /// other tree as it is.
    pub open spec fn as_root(self) -> Tree {
        match self {
            Tree::Leaf { text } => Tree::Internal {
                left: Box::new(self),
                right: Box::new(Tree::Empty),
                weight: text.len(),
            },
            _ => self,
        }
    }
}

/// Putting a lone leaf under a node of its own keeps the text, the leaves
/// and the well-formedness.
pub proof fn lemma_as_root(t: Tree)
    ensures
        t.as_root().text() == t.text(),
        t.as_root().leaves() == t.leaves(),
        t.wf() ==> t.as_root().wf(),
        !(t.as_root() is Leaf),
        t.as_root().extent() <= t.extent() + 1,
{
    if t is Leaf {
        reveal_with_fuel(Tree::text, 2);
        reveal_with_fuel(Tree::leaves, 2);
        reveal_with_fuel(Tree::weights_ok, 2);
        reveal_with_fuel(Tree::no_empty_leaves, 2);
        reveal_with_fuel(Tree::depth, 2);
        assert(t.as_root().text() =~= t.text());
        assert(t.as_root().leaves() =~= t.leaves());
    }
}

/// In the rope of one string, each position holds the character that the
/// string has there, and no position past its end holds any.
pub proof fn lemma_rope_of_string(text: Seq<char>, index: nat)
    ensures
        (Tree::Leaf { text }).as_root().char_at(index) == (if index < text.len() {
            Some(text[index as int])
        } else {
            None
        }),
{
    let leaf = Tree::Leaf { text };
    lemma_as_root(leaf);
    reveal_with_fuel(Tree::weights_ok, 2);
    lemma_char_at_indexes_text(leaf.as_root(), index);
}

/// A text held as a tree of shared, immutable nodes.
#[derive(Debug)]
pub struct Rope {
    root: RopeNode,
}

impl View for Rope {
    type V = Tree;

    closed spec fn view(&self) -> Tree {
        self.root@
    }
}

impl Rope {
    /// A rope with `node` as its root. A lone leaf is put under a node of its
    /// own.
    pub fn new(node: RopeNode) -> (r: Rope)
        ensures
            r@ == node@.as_root(),
            r@.text() == node@.text(),
            r@.leaves() == node@.leaves(),
            node@.wf() ==> r@.wf(),
            r@.extent() <= node@.extent() + 1,
    {
        proof {
            lemma_as_root(node@);
        }
        let weight: Option<usize> = match &*node.0 {
            RopeNodeType::Leaf(leaf) => Some(leaf.value.as_str().unicode_len()),
            _ => None,
        };
        match weight {
            Some(weight) => Rope {
                root: RopeNode(
                    Rc::new(
                        RopeNodeType::Node(Node { left: node, right: RopeNode::empty(), weight }),
                    ),
                ),
            },
            None => Rope { root: node },
        }
    }

    /// The rope built from the leaves with text among `nodes`, in their
    /// order. A single leaf becomes the root as it is.
    pub fn from_iter(nodes: Vec<RopeNode>) -> (r: Rope)
        requires
            Tree::build(trees(nodes@)).len() <= usize::MAX,
        ensures
            r@ == Tree::build(trees(nodes@)),
            r@.wf(),
    {
        Rope { root: RopeNode::from_iter(nodes) }
    }

    /// The rope of `s1` followed by `s2`.
    pub fn concat(s1: RopeNode, s2: RopeNode) -> (r: Rope)
        requires
            s1@.len() <= usize::MAX,
        ensures
            r@ == Tree::concat(s1@, s2@),
            r@.text() == s1@.text() + s2@.text(),
            r@.len() == s1@.len() + s2@.len(),
            s1@.wf() && s2@.wf() ==> r@.wf(),
            r@.extent() <= s1@.extent() + s2@.extent() + 1,
    {
        Rope::new(s1.concat(s2))
    }

    /// The character at `index`, or `None` outside the text.
    pub fn get_char(&self, index: usize) -> (r: Option<char>)
        ensures
            r == self@.char_at(index as nat),
            self@.weights_ok() ==> r == (if index < self@.len() {
                Some(self@.text()[index as int])
            } else {
                None
            }),
    {
        self.root.get_char(index)
    }

    /// A traversal of the leaves, from left to right.
    pub fn iter(&self) -> (it: RopeIter)
        ensures
            it.wf(),
            it.remaining() == self@.leaves(),
    {
        Rope::iter_node(self.root.share())
    }

    /// A traversal of the leaves of `node`, from left to right.
    pub fn iter_node(node: RopeNode) -> (it: RopeIter)
        ensures
            it.wf(),
            it.remaining() == node@.leaves(),
    {
        RopeIter::new(&node)
    }

    /// The two parts that cover `[0, index)` and `[index, len)`.
    pub fn split(&self, index: usize) -> (r: (RopeNode, RopeNode))
        requires
            self@.len() <= usize::MAX,
        ensures
            r.0@ == self@.split(index as nat).0,
            r.1@ == self@.split(index as nat).1,
            r.0@.text() == self@.text().take(clamp(index as nat, self@.len())),
            r.1@.text() == self@.text().skip(clamp(index as nat, self@.len())),
            self@.wf() ==> r.0@.wf() && r.1@.wf(),
            r.0@.extent() <= self@.extent(),
            r.1@.extent() <= self@.extent(),
    {
        self.root.split(index)
    }

    /// A new rope of up to `len` characters from position `start` on.
    pub fn substring(&self, start: usize, len: usize) -> (r: Rope)
        ensures
            r@ == self@.substring(start as nat, len as nat),
            r@.text() == self@.text().subrange(
                clamp(start as nat, self@.len()),
                clamp((start + len) as nat, self@.len()),
            ),
            len == 0 ==> r@ == Tree::Empty,
            r@.wf(),
            r@.extent() <= self@.extent(),
    {
        Rope { root: self.root.substring(start, len) }
    }

    /// Rebuilds the tree from its leaves unless it is balanced already.
    pub fn rebalance(&mut self)
        requires
            old(self)@.len() <= usize::MAX,
            old(self)@.depth() + 2 <= usize::MAX,
            old(self)@.leaves().len() <= usize::MAX,
        ensures
            final(self)@ == old(self)@.rebalance(),
            old(self)@.is_balanced() ==> final(self)@ == old(self)@,
            final(self)@.text() == old(self)@.text(),
            old(self)@.is_balanced() || with_text(old(self)@.leaves()).len() > 0
                ==> final(self)@.is_balanced(),
            old(self)@.weights_ok() ==> final(self)@.weights_ok(),
            old(self)@.wf() ==> final(self)@.wf(),
            old(self)@.no_empty_leaves() ==> final(self)@.leaves() == old(self)@.leaves(),
            final(self)@.extent() <= old(self)@.extent(),
    {
        self.root = self.root.rebalance();
    }

    /// Whether the tree meets the Fibonacci criterion.
    pub fn is_balanced(&self) -> (r: bool)
        requires
            self@.depth() + 2 <= usize::MAX,
            self@.leaves().len() <= usize::MAX,
        ensures
            r == self@.is_balanced(),
    {
        self.root.is_balanced()
    }

    /// The number of characters.
    pub fn len(&self) -> (n: usize)
        requires
            self@.len() <= usize::MAX,
        ensures
            n == self@.len(),
    {
        self.root.len()
    }

    /// Puts `value` in at position `index`, then rebalances the tree if it
    /// needs it.
    ///
    /// The new text has to fit, and so have the depth and the number of
    /// leaves: an insertion adds at most two to either, and the balance test
    /// looks two levels further.
    pub fn insert(&mut self, index: usize, value: String)
        requires
            old(self)@.len() + value@.len() <= usize::MAX,
            old(self)@.extent() + 4 <= usize::MAX,
        ensures
            final(self)@ == old(self)@.insert(index as nat, value@).rebalance(),
            final(self)@.text() == old(self)@.text().take(clamp(index as nat, old(self)@.len()))
                + value@ + old(self)@.text().skip(clamp(index as nat, old(self)@.len())),
            old(self)@.wf() && value@.len() > 0 ==> final(self)@.wf(),
            final(self)@.extent() <= old(self)@.extent() + 2,
    {
        proof {
            lemma_insert_text(self@, index as nat, value@);
            lemma_operations_extent(self@, index as nat, 0, value@);
            lemma_rebalance(self@.insert(index as nat, value@));
            if self@.wf() {
                lemma_operations_keep_wf(self@, index as nat, 0, value@);
            }
        }
        self.root = self.root.insert(index, value);
        self.rebalance();
    }

    /// Takes out the `len` characters from position `start` on, as far as
    /// the text goes.
    pub fn delete(&mut self, start: usize, len: usize)
        requires
            old(self)@.len() <= usize::MAX,
        ensures
            final(self)@ == old(self)@.delete(start as nat, len as nat),
            final(self)@ == Tree::concat(
                old(self)@.split(start as nat).0,
                old(self)@.split((start + len) as nat).1,
            ),
            final(self)@.text() == old(self)@.text().take(clamp(start as nat, old(self)@.len()))
                + old(self)@.text().skip(clamp((start + len) as nat, old(self)@.len())),
            old(self)@.wf() ==> final(self)@.wf(),
            final(self)@.extent() <= old(self)@.extent() + 1,
    {
        self.root = self.root.delete(start, len);
    }

    /// The canonical rendering of the tree.
    pub fn to_string(&self) -> (s: String)
        ensures
            s@ == self@.render(),
    {
        self.root.to_string()
    }
}

} // verus!
