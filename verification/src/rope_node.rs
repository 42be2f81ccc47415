//! Rope nodes: the shared, immutable tree and the algorithms on it.

use std::rc::Rc;
use vstd::prelude::*;
use vstd::string::*;
use vstd::pervasive::unreached;
use crate::fibonacci_seq::checked_fibonacci_number;
use crate::balance::lemma_build_wf;
use crate::laws::{
    lemma_delete, lemma_insert_text, lemma_operations_keep_wf, lemma_rebalance, lemma_split_text,
    lemma_substring,
};
use crate::sizes::lemma_operations_extent;
use crate::builder::{
    build_rounds, joined_text, kept, leaf_trees, lemma_build_rounds_leaves, lemma_from_leaves,
    lemma_neighbours_fit, pair_round,
};
use crate::pieces::{
    clamp, lemma_flatten_unfold, lemma_pieces_before_text, lemma_pieces_from_text,
    pieces_before, pieces_from, window, with_text,
};
use crate::rope_iter::RopeIter;
use crate::tree::{lemma_char_at_indexes_text, lemma_text_is_flattened_leaves, Tree};

verus! {

/// A contiguous run of characters.
#[derive(Debug)]
pub struct Leaf {
    pub value: String,
}

/// An internal node. `weight` is meant to be the character count of `left`.
#[derive(Debug)]
pub struct Node {
    pub left: RopeNode,
    pub right: RopeNode,
    pub weight: usize,
}

/// The three kinds of node.
#[derive(Debug)]
pub enum RopeNodeType {
    Node(Node),
    Leaf(Leaf),
    Empty,
}

/// A shared handle to an immutable node.
#[derive(Debug)]
pub struct RopeNode(pub Rc<RopeNodeType>);

/// The tree that a node stands for.
pub open spec fn tree_of(t: RopeNodeType) -> Tree
    decreases t,
{
    match t {
        RopeNodeType::Node(n) => Tree::Internal {
            left: Box::new(tree_of(*n.left.0)),
            right: Box::new(tree_of(*n.right.0)),
            weight: n.weight as nat,
        },
        RopeNodeType::Leaf(l) => Tree::Leaf { text: l.value@ },
        RopeNodeType::Empty => Tree::Empty,
    }
}

impl View for RopeNodeType {
    type V = Tree;

    open spec fn view(&self) -> Tree {
        tree_of(*self)
    }
}

impl View for RopeNode {
    type V = Tree;

    open spec fn view(&self) -> Tree {
        tree_of(*self.0)
    }
}

impl From<Rc<RopeNodeType>> for RopeNode {
    fn from(value: Rc<RopeNodeType>) -> (r: RopeNode) {
        RopeNode(value)
    }
}

impl vstd::std_specs::convert::FromSpecImpl<Rc<RopeNodeType>> for RopeNode {
    open spec fn obeys_from_spec() -> bool {
        true
    }

    open spec fn from_spec(value: Rc<RopeNodeType>) -> RopeNode {
        RopeNode(value)
    }
}

/// The trees that a sequence of handles stands for.
pub open spec fn trees(nodes: Seq<RopeNode>) -> Seq<Tree> {
    Seq::new(nodes.len(), |i: int| nodes[i]@)
}

/// The trees of the first components of a sequence of pairs.
spec fn entry_trees(entries: Seq<(RopeNode, usize)>) -> Seq<Tree> {
    Seq::new(entries.len(), |i: int| entries[i].0@)
}

/// Each pair holds a node and the length of its text.
spec fn lengths_recorded(entries: Seq<(RopeNode, usize)>) -> bool {
    forall|i: int| 0 <= i < entries.len() ==> (#[trigger] entries[i]).1 == entries[i].0@.len()
}

/// The collected leaves followed by the leaves still to come.
spec fn collected(nodes: Seq<RopeNode>, to_come: Seq<Seq<char>>) -> Seq<Tree> {
    trees(nodes) + leaf_trees(to_come)
}

proof fn lemma_collect_step(
    nodes: Seq<RopeNode>,
    node: RopeNode,
    text: Seq<char>,
    to_come: Seq<Seq<char>>,
)
    requires
        node@ == (Tree::Leaf { text }),
    ensures
        collected(nodes.push(node), to_come) == collected(nodes, seq![text] + to_come),
{
    assert(collected(nodes.push(node), to_come) =~= collected(nodes, seq![text] + to_come));
}

proof fn lemma_collect_done(nodes: Seq<RopeNode>)
    ensures
        collected(nodes, Seq::empty()) == trees(nodes),
{
    assert(collected(nodes, Seq::empty()) =~= trees(nodes));
}

impl RopeNode {
    /// A new handle to the same node.
    pub fn share(&self) -> (r: RopeNode)
        ensures
            r == *self,
    {
        RopeNode(Rc::clone(&self.0))
    }

    /// A node that stands for absence.
    pub fn empty() -> (r: RopeNode)
        ensures
            r@ == Tree::Empty,
            r@.wf(),
            r@.extent() == 0,
    {
        RopeNode(Rc::new(RopeNodeType::Empty))
    }

    /// A leaf that holds `value`.
    pub fn leaf(value: String) -> (r: RopeNode)
        ensures
            r@ == (Tree::Leaf { text: value@ }),
            r@.weights_ok(),
            r@.extent() == 1,
    {
        RopeNode(Rc::new(RopeNodeType::Leaf(Leaf { value })))
    }

    /// The leaf behind this handle, if it is one.
    pub fn map_leaf(&self) -> (r: Option<&Leaf>)
        ensures
            match r {
                Some(l) => *self.0 == RopeNodeType::Leaf(*l),
                None => !(self@ is Leaf),
            },
    {
        match &*self.0 {
            RopeNodeType::Leaf(l) => Some(l),
            _ => None,
        }
    }

    /// Whether this node is anything but absence.
    pub fn is_not_none(&self) -> (r: bool)
        ensures
            r == !(self@ is Empty),
    {
        match &*self.0 {
            RopeNodeType::Empty => false,
            _ => true,
        }
    }

    /// The character at `index`, found by descending along the weights.
    pub fn get_char(&self, index: usize) -> (r: Option<char>)
        ensures
            r == self@.char_at(index as nat),
            self@.weights_ok() ==> r == (if index < self@.len() {
                Some(self@.text()[index as int])
            } else {
                None
            }),
    {
        proof {
            if self@.weights_ok() {
                lemma_char_at_indexes_text(self@, index as nat);
            }
        }
        self.get_char_rec(index)
    }

    fn get_char_rec(&self, index: usize) -> (r: Option<char>)
        ensures
            r == self@.char_at(index as nat),
        decreases self,
    {
        match &*self.0 {
            RopeNodeType::Node(node) => {
                if index >= node.weight {
                    node.right.get_char_rec(index - node.weight)
                } else {
                    node.left.get_char_rec(index)
                }
            },
            RopeNodeType::Leaf(leaf) => {
                let s: &str = leaf.value.as_str();
                if index < s.unicode_len() {
                    Some(s.get_char(index))
                } else {
                    None
                }
            },
            RopeNodeType::Empty => None,
        }
    }

    /// The depth of the tree.
    pub fn get_depth(&self) -> (d: usize)
        requires
            self@.depth() <= usize::MAX,
        ensures
            d == self@.depth(),
        decreases self,
    {
        match &*self.0 {
            RopeNodeType::Node(n) => {
                let left: usize = n.left.get_depth();
                let right: usize = n.right.get_depth();
                if left >= right {
                    left + 1
                } else {
                    right + 1
                }
            },
            _ => 0,
        }
    }

    /// The canonical rendering of the tree.
    pub fn to_string(&self) -> (s: String)
        ensures
            s@ == self@.render(),
        decreases self,
    {
        match &*self.0 {
            RopeNodeType::Node(n) => {
                let mut s = String::from_str("Node(Left: ");
                let left = n.left.to_string();
                s.append(left.as_str());
                s.append(", Right: ");
                let right = n.right.to_string();
                s.append(right.as_str());
                s.append(")");
                s
            },
            RopeNodeType::Leaf(leaf) => {
                let mut s = String::from_str("Leaf(\"");
                s.append(leaf.value.as_str());
                s.append("\")");
                s
            },
            RopeNodeType::Empty => String::from_str("None"),
        }
    }

    /// Builds a tree from the leaves with text among `nodes`, in their order,
    /// by joining neighbours round by round. Entries that are no leaves, and
    /// leaves without text, are left out.
    pub fn from_iter(nodes: Vec<RopeNode>) -> (r: RopeNode)
        requires
            Tree::build(trees(nodes@)).len() <= usize::MAX,
        ensures
            r@ == Tree::build(trees(nodes@)),
            r@.wf(),
    {
        proof {
            lemma_build_wf(trees(nodes@));
        }
        let mut entries: Vec<(RopeNode, usize)> = Vec::new();
        let mut i: usize = 0;
        while i < nodes.len()
            invariant
                0 <= i <= nodes.len(),
                entry_trees(entries@) == kept(trees(nodes@.take(i as int))),
                lengths_recorded(entries@),
            decreases nodes.len() - i,
        {
            proof {
                assert(nodes@.take(i + 1).drop_last() =~= nodes@.take(i as int));
                assert(trees(nodes@.take(i + 1)).drop_last() =~= trees(nodes@.take(i as int)));
            }
            match &*nodes[i].0 {
                RopeNodeType::Leaf(leaf) => {
                    let len: usize = leaf.value.as_str().unicode_len();
                    if len > 0 {
                        entries.push((nodes[i].share(), len));
                        assert(entry_trees(entries@) =~= kept(trees(nodes@.take(i + 1))));
                    }
                },
                _ => {},
            }
            i += 1;
        }
        assert(nodes@.take(i as int) =~= nodes@);
        while entries.len() > 1
            invariant
                lengths_recorded(entries@),
                build_rounds(entry_trees(entries@)) == Tree::build(trees(nodes@)),
                Tree::build(trees(nodes@)).len() <= usize::MAX,
            decreases entries.len(),
        {
            let ghost before = entry_trees(entries@);
            proof {
                lemma_build_rounds_leaves(before);
            }
            let count: usize = entries.len();
            let half: usize = count / 2 + count % 2;
            let mut round: Vec<(RopeNode, usize)> = Vec::new();
            let mut k: usize = 0;
            while k < half
                invariant
                    0 <= k <= half,
                    round.len() == k,
                    count == entries.len(),
                    half == (count + 1) / 2,
                    before == entry_trees(entries@),
                    lengths_recorded(entries@),
                    lengths_recorded(round@),
                    joined_text(before).len() <= usize::MAX,
                    entry_trees(round@) =~= pair_round(before).take(k as int),
                decreases half - k,
            {
                let j: usize = 2 * k;
                proof {
                    lemma_neighbours_fit(before, j as int);
                }
                if j + 1 < count {
                    let weight: usize = entries[j].1;
                    let len: usize = weight + entries[j + 1].1;
                    let node = RopeNode(
                        Rc::new(
                            RopeNodeType::Node(
                                Node {
                                    left: entries[j].0.share(),
                                    right: entries[j + 1].0.share(),
                                    weight,
                                },
                            ),
                        ),
                    );
                    assert(node@ == Tree::concat(before[j as int], before[j + 1]));
                    assert(node@.len() == len);
                    round.push((node, len));
                } else {
                    round.push((entries[j].0.share(), entries[j].1));
                }
                assert(entry_trees(round@)[k as int] == pair_round(before)[k as int]);
                k += 1;
            }
            assert(entry_trees(round@) =~= pair_round(before));
            entries = round;
        }
        match entries.pop() {
            Some(entry) => entry.0,
            None => RopeNode::empty(),
        }
    }

    /// A traversal of the leaves of this tree, from left to right.
    pub fn iter(&self) -> (it: RopeIter)
        ensures
            it.wf(),
            it.remaining() == self@.leaves(),
    {
        RopeIter::new(self)
    }

    /// The number of characters, summed over the leaves.
    pub fn len(&self) -> (n: usize)
        requires
            self@.len() <= usize::MAX,
        ensures
            n == self@.len(),
    {
        let mut iter = self.iter();
        let mut total: usize = 0;
        proof {
            lemma_text_is_flattened_leaves(self@);
        }
        loop
            invariant
                iter.wf(),
                total + iter.remaining().flatten().len() == self@.len(),
                self@.len() <= usize::MAX,
            ensures
                total == self@.len(),
            decreases iter.remaining().len(),
        {
            proof {
                if iter.remaining().len() > 0 {
                    lemma_flatten_unfold(iter.remaining());
                }
            }
            match iter.next() {
                Some(node) => {
                    let leaf: &Leaf = match node.map_leaf() {
                        Some(leaf) => leaf,
                        None => unreached(),
                    };
                    total += leaf.value.as_str().unicode_len();
                },
                None => {
                    break ;
                },
            }
        }
        total
    }

    /// This tree and `s2` under a new node, whose weight is the length of
    /// this tree. Both are shared, not copied.
    pub fn concat(self, s2: RopeNode) -> (r: RopeNode)
        requires
            self@.len() <= usize::MAX,
        ensures
            r@ == Tree::concat(self@, s2@),
            r@.text() == self@.text() + s2@.text(),
            r@.len() == self@.len() + s2@.len(),
            self@.wf() && s2@.wf() ==> r@.wf(),
            r@.extent() <= self@.extent() + s2@.extent() + 1,
    {
        let weight: usize = self.len();
        RopeNode(Rc::new(RopeNodeType::Node(Node { left: self, right: s2, weight })))
    }

    /// The two parts that cover `[0, index)` and `[index, len)`.
    ///
    /// At index 0 and at or past the end nothing is rebuilt: one part is this
    /// tree and the other is empty. Anywhere else the leaves are walked in
    /// order; those that end at or before `index` go to the left, those that
    /// start at or after it go to the right, the one that `index` falls into
    /// is cut in two, and each side is rebuilt.
    pub fn split(&self, index: usize) -> (r: (RopeNode, RopeNode))
        requires
            self@.len() <= usize::MAX,
        ensures
            r.0@ == self@.split(index as nat).0,
            r.1@ == self@.split(index as nat).1,
            r.0@.text() == self@.text().take(clamp(index as nat, self@.len())),
            r.1@.text() == self@.text().skip(clamp(index as nat, self@.len())),
            self@.wf() ==> r.0@.wf() && r.1@.wf(),
            r.0@.extent() <= self@.extent(),
            r.1@.extent() <= self@.extent(),
    {
        proof {
            lemma_split_text(self@, index as nat);
            lemma_operations_extent(self@, index as nat, 0, Seq::empty());
            if self@.wf() {
                lemma_operations_keep_wf(self@, index as nat, 0, Seq::empty());
            }
        }
        if index == 0 {
            return (RopeNode::empty(), self.share());
        }
        if index >= self.len() {
            return (self.share(), RopeNode::empty());
        }
        let mut cur_idx: usize = 0;
        let mut iter = self.iter();
        let mut left_subtree: Vec<RopeNode> = Vec::new();
        let mut right_subtree: Vec<RopeNode> = Vec::new();
        let ghost leaves = self@.leaves();
        proof {
            lemma_text_is_flattened_leaves(self@);
            assert(collected(left_subtree@, pieces_before(leaves, index as int)) =~= leaf_trees(
                pieces_before(leaves, index as int),
            ));
            assert(collected(right_subtree@, pieces_from(leaves, index as int)) =~= leaf_trees(
                pieces_from(leaves, index as int),
            ));
        }
        loop
            invariant
                iter.wf(),
                cur_idx + iter.remaining().flatten().len() == self@.len(),
                self@.len() <= usize::MAX,
                collected(left_subtree@, pieces_before(iter.remaining(), index - cur_idx))
                    == leaf_trees(pieces_before(leaves, index as int)),
                collected(right_subtree@, pieces_from(iter.remaining(), index - cur_idx))
                    == leaf_trees(pieces_from(leaves, index as int)),
            ensures
                trees(left_subtree@) == leaf_trees(pieces_before(leaves, index as int)),
                trees(right_subtree@) == leaf_trees(pieces_from(leaves, index as int)),
            decreases iter.remaining().len(),
        {
            let ghost to_come = iter.remaining();
            let ghost k = index - cur_idx;
            proof {
                if to_come.len() > 0 {
                    lemma_flatten_unfold(to_come);
                } else {
                    lemma_collect_done(left_subtree@);
                    lemma_collect_done(right_subtree@);
                }
            }
            match iter.next() {
                Some(node) => {
                    let leaf: &Leaf = match node.map_leaf() {
                        Some(leaf) => leaf,
                        None => unreached(),
                    };
                    let part: &str = leaf.value.as_str();
                    let len: usize = part.unicode_len();
                    let end: usize = cur_idx + len;
                    let ghost rest = to_come.skip(1);
                    if cur_idx < index && end > index {
                        let cut: usize = index - cur_idx;
                        let head = RopeNode::leaf(String::from_str(part.substring_char(0, cut)));
                        let tail = RopeNode::leaf(String::from_str(part.substring_char(cut, len)));
                        proof {
                            lemma_collect_step(
                                left_subtree@,
                                head,
                                to_come[0].take(k),
                                pieces_before(rest, k - len),
                            );
                            lemma_collect_step(right_subtree@, tail, to_come[0].skip(k), rest);
                            assert(pieces_before(to_come, k) =~= seq![to_come[0].take(k)]
                                + pieces_before(rest, k - len));
                            assert(pieces_from(rest, k - len) =~= rest);
                        }
                        left_subtree.push(head);
                        right_subtree.push(tail);
                    } else if cur_idx < index {
                        proof {
                            lemma_collect_step(
                                left_subtree@,
                                node,
                                to_come[0],
                                pieces_before(rest, k - len),
                            );
                        }
                        left_subtree.push(node);
                    } else {
                        proof {
                            lemma_collect_step(right_subtree@, node, to_come[0], rest);
                            assert(pieces_from(to_come, k) =~= seq![to_come[0]] + rest);
                            assert(pieces_from(rest, k - len) =~= rest);
                            assert(pieces_before(rest, k - len) =~= pieces_before(to_come, k));
                        }
                        right_subtree.push(node);
                    }
                    cur_idx = end;
                },
                None => {
                    break ;
                },
            }
        }
        proof {
            lemma_from_leaves(pieces_before(leaves, index as int));
            lemma_from_leaves(pieces_from(leaves, index as int));
            lemma_pieces_before_text(leaves, index as int);
            lemma_pieces_from_text(leaves, index as int);
        }
        (RopeNode::from_iter(left_subtree), RopeNode::from_iter(right_subtree))
    }

    /// Up to `len` characters from position `start` on, as a tree rebuilt from
    /// the leaves in that window. A leaf that lies wholly inside is shared; one
    /// that overlaps an end of the window gives a new leaf with the part
    /// inside. The walk ends as soon as `len` characters are collected.
    pub fn substring(&self, start: usize, len: usize) -> (r: RopeNode)
        ensures
            r@ == self@.substring(start as nat, len as nat),
            r@.text() == self@.text().subrange(
                clamp(start as nat, self@.len()),
                clamp((start + len) as nat, self@.len()),
            ),
            len == 0 ==> r@ == Tree::Empty,
            r@.wf(),
            r@.extent() <= self@.extent(),
    {
        proof {
            lemma_operations_extent(self@, start as nat, len as nat, Seq::empty());
        }
        let mut leafs: Vec<RopeNode> = Vec::new();
        let mut start_idx: usize = start;
        let mut len_left: usize = len;
        let mut iter = self.iter();
        let ghost leaves = self@.leaves();
        proof {
            assert(collected(leafs@, window(leaves, start as nat, len as nat)) =~= leaf_trees(
                window(leaves, start as nat, len as nat),
            ));
        }
        while len_left > 0
            invariant
                iter.wf(),
                collected(leafs@, window(iter.remaining(), start_idx as nat, len_left as nat))
                    == leaf_trees(window(leaves, start as nat, len as nat)),
            ensures
                trees(leafs@) == leaf_trees(window(leaves, start as nat, len as nat)),
            decreases iter.remaining().len(),
        {
            let ghost to_come = iter.remaining();
            proof {
                lemma_collect_done(leafs@);
            }
            match iter.next() {
                Some(node) => {
                    let leaf: &Leaf = match node.map_leaf() {
                        Some(leaf) => leaf,
                        None => unreached(),
                    };
                    let part: &str = leaf.value.as_str();
                    let part_len: usize = part.unicode_len();
                    let ghost rest = to_come.skip(1);
                    if start_idx >= part_len {
                        start_idx -= part_len;
                    } else if start_idx == 0 && len_left >= part_len {
                        proof {
                            lemma_collect_step(
                                leafs@,
                                node,
                                to_come[0],
                                window(rest, 0, (len_left - part_len) as nat),
                            );
                            assert(to_come[0].subrange(0, part_len as int) =~= to_come[0]);
                        }
                        leafs.push(node);
                        len_left -= part_len;
                    } else {
                        let room: usize = part_len - start_idx;
                        let taken: usize = if len_left < room {
                            len_left
                        } else {
                            room
                        };
                        let piece = RopeNode::leaf(
                            String::from_str(part.substring_char(start_idx, start_idx + taken)),
                        );
                        proof {
                            lemma_collect_step(
                                leafs@,
                                piece,
                                to_come[0].subrange(start_idx as int, start_idx + taken),
                                window(rest, 0, (len_left - taken) as nat),
                            );
                        }
                        leafs.push(piece);
                        start_idx = 0;
                        len_left -= taken;
                    }
                },
                None => {
                    break ;
                },
            }
        }
        proof {
            lemma_collect_done(leafs@);
            lemma_substring(self@, start as nat, len as nat);
        }
        RopeNode::from_iter(leafs)
    }

    /// `value` as a new leaf at position `index`: in front at 0, behind at or
    /// past the end, between the two parts of a split anywhere else.
    pub fn insert(&self, index: usize, value: String) -> (r: RopeNode)
        requires
            self@.len() + value@.len() <= usize::MAX,
        ensures
            r@ == self@.insert(index as nat, value@),
            r@.text() == self@.text().take(clamp(index as nat, self@.len())) + value@
                + self@.text().skip(clamp(index as nat, self@.len())),
            self@.wf() && value@.len() > 0 ==> r@.wf(),
            r@.extent() <= self@.extent() + 2,
    {
        proof {
            lemma_insert_text(self@, index as nat, value@);
            lemma_operations_extent(self@, index as nat, 0, value@);
            if self@.wf() {
                lemma_operations_keep_wf(self@, index as nat, 0, value@);
            }
        }
        let new_leaf = RopeNode::leaf(value);
        if index == 0 {
            new_leaf.concat(self.share())
        } else if index >= self.len() {
            self.share().concat(new_leaf)
        } else {
            proof {
                lemma_split_text(self@, index as nat);
            }
            let (left, right) = self.split(index);
            left.concat(new_leaf).concat(right)
        }
    }

    /// The tree without the `len` characters from position `start` on: what
    /// a split at `start` leaves on the left, joined with what a split at
    /// `start + len` leaves on the right.
    pub fn delete(&self, start: usize, len: usize) -> (r: RopeNode)
        requires
            self@.len() <= usize::MAX,
        ensures
            r@ == self@.delete(start as nat, len as nat),
            r@ == Tree::concat(
                self@.split(start as nat).0,
                self@.split((start + len) as nat).1,
            ),
            r@.text() == self@.text().take(clamp(start as nat, self@.len())) + self@.text().skip(
                clamp((start + len) as nat, self@.len()),
            ),
            self@.wf() ==> r@.wf(),
            r@.extent() <= self@.extent() + 1,
    {
        proof {
            lemma_split_text(self@, start as nat);
            lemma_delete(self@, start as nat, len as nat);
            lemma_operations_extent(self@, start as nat, len as nat, Seq::empty());
            if self@.wf() {
                lemma_operations_keep_wf(self@, start as nat, len as nat, Seq::empty());
            }
        }
        let (left, _) = self.split(start);
        let (_, right) = self.split(start.saturating_add(len));
        left.concat(right)
    }

    /// This tree where it meets the Fibonacci criterion, shared and not
    /// copied; the tree rebuilt from its leaves where it does not.
    pub fn rebalance(&self) -> (r: RopeNode)
        requires
            self@.len() <= usize::MAX,
            self@.depth() + 2 <= usize::MAX,
            self@.leaves().len() <= usize::MAX,
        ensures
            r@ == self@.rebalance(),
            self@.is_balanced() ==> r@ == self@,
            r@.text() == self@.text(),
            self@.is_balanced() || with_text(self@.leaves()).len() > 0 ==> r@.is_balanced(),
            self@.weights_ok() ==> r@.weights_ok(),
            self@.wf() ==> r@.wf(),
            self@.no_empty_leaves() ==> r@.leaves() == self@.leaves(),
            r@.extent() <= self@.extent(),
    {
        proof {
            lemma_rebalance(self@);
        }
        if self.is_balanced() {
            return self.share();
        }
        self.rebuild()
    }

    /// The tree rebuilt from all its leaves with text, in order.
    fn rebuild(&self) -> (r: RopeNode)
        requires
            self@.len() <= usize::MAX,
        ensures
            r@ == self@.rebuild(),
    {
        let mut leafs: Vec<RopeNode> = Vec::new();
        let mut iter = self.iter();
        let ghost leaves = self@.leaves();
        proof {
            assert(collected(leafs@, leaves) =~= leaf_trees(leaves));
        }
        loop
            invariant
                iter.wf(),
                collected(leafs@, iter.remaining()) == leaf_trees(leaves),
            ensures
                trees(leafs@) == leaf_trees(leaves),
            decreases iter.remaining().len(),
        {
            let ghost to_come = iter.remaining();
            match iter.next() {
                Some(node) => {
                    proof {
                        lemma_collect_step(leafs@, node, to_come[0], to_come.skip(1));
                        assert(seq![to_come[0]] + to_come.skip(1) =~= to_come);
                    }
                    leafs.push(node);
                },
                None => {
                    proof {
                        assert(to_come =~= Seq::<Seq<char>>::empty());
                        lemma_collect_done(leafs@);
                    }
                    break ;
                },
            }
        }
        proof {
            lemma_from_leaves(leaves);
            lemma_text_is_flattened_leaves(self@);
        }
        RopeNode::from_iter(leafs)
    }

    /// Whether the tree meets the Fibonacci criterion: with depth `d`, it has
    /// at least `fib(d + 2)` leaves.
    pub fn is_balanced(&self) -> (r: bool)
        requires
            self@.depth() + 2 <= usize::MAX,
            self@.leaves().len() <= usize::MAX,
        ensures
            r == self@.is_balanced(),
    {
        let depth: usize = self.get_depth();
        let min_length: usize = match checked_fibonacci_number(depth + 2) {
            Some(v) => v,
            None => {
                return false;
            },
        };
        let mut iter = self.iter();
        let mut count: usize = 0;
        loop
            invariant
                iter.wf(),
                count + iter.remaining().len() == self@.leaves().len(),
                self@.leaves().len() <= usize::MAX,
            ensures
                count == self@.leaves().len(),
            decreases iter.remaining().len(),
        {
            match iter.next() {
                Some(_) => {
                    count += 1;
                },
                None => {
                    break ;
                },
            }
        }
        count >= min_length
    }
}

} // verus!
