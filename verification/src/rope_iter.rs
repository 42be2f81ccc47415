//! In-order traversal of a rope's leaves with an explicit stack.

use vstd::prelude::*;
use crate::rope_node::{RopeNode, RopeNodeType};
use crate::tree::Tree;

verus! {

/// The leaves that one stack entry still owes: those of its right subtree for
/// an internal node, itself for a leaf.
spec fn pending(t: Tree) -> Seq<Seq<char>> {
    match t {
        Tree::Internal { right, .. } => right.leaves(),
        Tree::Leaf { text } => seq![text],
        Tree::Empty => Seq::empty(),
    }
}

/// The leaves that a stack still owes, the top entry (the last one) first.
spec fn stack_leaves(stack: Seq<RopeNode>) -> Seq<Seq<char>>
    decreases stack.len(),
{
    if stack.len() == 0 {
        Seq::empty()
    } else {
        pending(stack.last()@) + stack_leaves(stack.drop_last())
    }
}

/// The number of nodes of a tree.
spec fn node_count(t: Tree) -> nat
    decreases t,
{
    match t {
        Tree::Internal { left, right, .. } => 1 + node_count(*left) + node_count(*right),
        _ => 1,
    }
}

/// An upper bound on the pushes and pops that a stack can still cause.
spec fn stack_work(stack: Seq<RopeNode>) -> nat
    decreases stack.len(),
{
    if stack.len() == 0 {
        0
    } else {
        let top = match stack.last()@ {
            Tree::Internal { right, .. } => 1 + node_count(*right),
            _ => 1,
        };
        top + stack_work(stack.drop_last())
    }
}

/// Every entry is an internal node.
spec fn all_internal(stack: Seq<RopeNode>) -> bool {
    forall|i: int| 0 <= i < stack.len() ==> (#[trigger] stack[i])@ is Internal
}

proof fn lemma_push_entry(stack: Seq<RopeNode>, node: RopeNode)
    ensures
        stack_leaves(stack.push(node)) == pending(node@) + stack_leaves(stack),
        stack_work(stack.push(node)) == stack_work(stack) + match node@ {
            Tree::Internal { right, .. } => 1 + node_count(*right),
            _ => 1,
        },
{
    assert(stack.push(node).drop_last() =~= stack);
}

proof fn lemma_pop_entry(stack: Seq<RopeNode>)
    requires
        stack.len() > 0,
    ensures
        stack_leaves(stack) == pending(stack.last()@) + stack_leaves(stack.drop_last()),
        stack_work(stack) == stack_work(stack.drop_last()) + match stack.last()@ {
            Tree::Internal { right, .. } => 1 + node_count(*right),
            _ => 1,
        },
{
}

/// A single pass over the leaves of a tree, from left to right.
pub struct RopeIter {
    nodes_stack: Vec<RopeNode>,
}

impl RopeIter {
    /// Only the top of the stack may be anything but an internal node.
    pub closed spec fn wf(&self) -> bool {
        forall|i: int|
            0 <= i < self.nodes_stack@.len() - 1 ==> (#[trigger] self.nodes_stack@[i])@ is Internal
    }

    /// The texts of the leaves not yet yielded, in the order in which they come.
    pub closed spec fn remaining(&self) -> Seq<Seq<char>> {
        stack_leaves(self.nodes_stack@)
    }

    /// A traversal of `node`, positioned before its first leaf.
    pub fn new(node: &RopeNode) -> (it: RopeIter)
        ensures
            it.wf(),
            it.remaining() == node@.leaves(),
    {
        let mut it = RopeIter { nodes_stack: Vec::new() };
        it.descend_left(node);
        it
    }

    /// Pushes `start` and the nodes on its left spine, down to the first leaf
    /// or to the last internal node before an absent left child.
    fn descend_left(&mut self, start: &RopeNode)
        requires
            all_internal(old(self).nodes_stack@),
        ensures
            final(self).wf(),
            stack_leaves(final(self).nodes_stack@) == start@.leaves() + stack_leaves(
                old(self).nodes_stack@,
            ),
            stack_work(final(self).nodes_stack@) <= stack_work(old(self).nodes_stack@)
                + node_count(start@),
    {
        let ghost owed = start@.leaves() + stack_leaves(self.nodes_stack@);
        let ghost work = stack_work(self.nodes_stack@) + node_count(start@);
        let mut cur: &RopeNode = start;
        loop
            invariant_except_break
                all_internal(self.nodes_stack@),
                cur@.leaves() + stack_leaves(self.nodes_stack@) == owed,
                stack_work(self.nodes_stack@) + node_count(cur@) <= work,
            ensures
                self.wf(),
                stack_leaves(self.nodes_stack@) == owed,
                stack_work(self.nodes_stack@) <= work,
            decreases cur@.depth(),
        {
            proof {
                lemma_push_entry(self.nodes_stack@, *cur);
                assert(self.nodes_stack@.push(*cur).drop_last() =~= self.nodes_stack@);
            }
            match &*cur.0 {
                RopeNodeType::Node(node) => {
                    self.nodes_stack.push(cur.share());
                    cur = &node.left;
                },
                RopeNodeType::Leaf(_) => {
                    self.nodes_stack.push(cur.share());
                    break ;
                },
                RopeNodeType::Empty => {
                    break ;
                },
            }
        }
    }

    /// Pushes what the right child of `parent` still owes: that child and its
    /// left spine.
    fn collect_parent_right_nodes(&mut self, parent: &RopeNodeType)
        requires
            all_internal(old(self).nodes_stack@),
        ensures
            final(self).wf(),
            stack_leaves(final(self).nodes_stack@) == (match parent@ {
                Tree::Internal { right, .. } => right.leaves(),
                _ => Seq::empty(),
            }) + stack_leaves(old(self).nodes_stack@),
            stack_work(final(self).nodes_stack@) <= stack_work(old(self).nodes_stack@)
                + match parent@ {
                Tree::Internal { right, .. } => node_count(*right),
                _ => 0,
            },
    {
        match parent {
            RopeNodeType::Node(parent_node) => {
                self.descend_left(&parent_node.right);
            },
            _ => {},
        }
    }

    /// The next leaf, or `None` when every leaf has been yielded.
    pub fn next(&mut self) -> (r: Option<RopeNode>)
        requires
            old(self).wf(),
        ensures
            final(self).wf(),
            match r {
                Some(n) => {
                    &&& old(self).remaining().len() > 0
                    &&& n@ == (Tree::Leaf { text: old(self).remaining()[0] })
                    &&& final(self).remaining() == old(self).remaining().skip(1)
                },
                None => old(self).remaining().len() == 0 && final(self).remaining().len() == 0,
            },
    {
        loop
            invariant
                self.wf(),
                self.remaining() == old(self).remaining(),
            decreases stack_work(self.nodes_stack@),
        {
            proof {
                if self.nodes_stack@.len() > 0 {
                    lemma_pop_entry(self.nodes_stack@);
                }
            }
            match self.nodes_stack.pop() {
                Some(rope_node) => match &*rope_node.0 {
                    RopeNodeType::Leaf(_) => {
                        proof {
                            if self.nodes_stack@.len() > 0 {
                                lemma_pop_entry(self.nodes_stack@);
                            }
                        }
                        match self.nodes_stack.pop() {
                            Some(parent) => {
                                self.collect_parent_right_nodes(&*parent.0);
                            },
                            None => {},
                        }
                        assert(old(self).remaining().skip(1) =~= self.remaining());
                        return Some(rope_node);
                    },
                    RopeNodeType::Node(_) => {
                        self.collect_parent_right_nodes(&*rope_node.0);
                    },
                    RopeNodeType::Empty => {},
                },
                None => {
                    return None;
                },
            }
        }
    }
}

} // verus!
