//! Why a tree that is built by rounds of pairing is well formed and meets the
//! Fibonacci criterion.

use vstd::prelude::*;
use crate::builder::{build_rounds, is_text_leaf, kept, pair_round};
use crate::fibonacci_seq::fib;
use crate::tree::Tree;

verus! {

/// Two to the power `n`.
pub open spec fn two_to(n: nat) -> nat
    decreases n,
{
    if n == 0 {
        1
    } else {
        2 * two_to((n - 1) as nat)
    }
}

/// A tree of depth `k` whose leaves are as many as that depth can hold.
pub open spec fn is_full(t: Tree, k: nat) -> bool {
    t.depth() == k && t.leaves().len() == two_to(k)
}

/// A tree with at least one leaf that is a single leaf, or has more leaves
/// than a tree one level lower can hold.
pub open spec fn is_dense(t: Tree) -> bool {
    &&& t.leaves().len() >= 1
    &&& t.depth() > 0 ==> t.leaves().len() >= two_to((t.depth() - 1) as nat) + 1
}

/// The state of the entries after `k` rounds: all but the last are full
/// trees of depth `k`, and the last is dense and no deeper.
pub open spec fn after_rounds(entries: Seq<Tree>, k: nat) -> bool {
    &&& entries.len() >= 1
    &&& forall|i: int| 0 <= i < entries.len() - 1 ==> is_full(#[trigger] entries[i], k)
    &&& is_dense(entries.last())
    &&& entries.last().depth() <= k
}

/// Every entry is well formed.
pub open spec fn all_wf(entries: Seq<Tree>) -> bool {
    forall|i: int| 0 <= i < entries.len() ==> (#[trigger] entries[i]).wf()
}

/// A power of two exceeds its exponent.
pub proof fn lemma_two_to_grows(n: nat)
    ensures
        two_to(n) >= n + 1,
    decreases n,
{
    if n > 0 {
        lemma_two_to_grows((n - 1) as nat);
    }
}

/// `fib(k + 3)` is at most `2^k + 1`.
pub proof fn lemma_fib_below_power(k: nat)
    ensures
        fib(k + 3) <= two_to(k) + 1,
    decreases k,
{
    reveal_with_fuel(fib, 6);
    reveal_with_fuel(two_to, 4);
    if k >= 2 {
        lemma_fib_below_power((k - 1) as nat);
        lemma_fib_below_power((k - 2) as nat);
        lemma_two_to_grows((k - 2) as nat);
        assert(fib(k + 3) == fib(k + 2) + fib(k + 1));
        assert(two_to(k) == 4 * two_to((k - 2) as nat));
        assert(two_to((k - 1) as nat) == 2 * two_to((k - 2) as nat));
    }
}

/// A dense tree meets the Fibonacci criterion, and is less deep than it has
/// leaves.
pub proof fn lemma_dense_is_balanced(t: Tree)
    requires
        is_dense(t),
    ensures
        t.is_balanced(),
        t.depth() < t.leaves().len(),
{
    if t.depth() > 0 {
        lemma_fib_below_power((t.depth() - 1) as nat);
        lemma_two_to_grows((t.depth() - 1) as nat);
    }
}

/// One round of pairing leads from the state after `k` rounds to the state
/// after `k + 1`.
pub proof fn lemma_round_step(entries: Seq<Tree>, k: nat)
    requires
        after_rounds(entries, k),
        entries.len() >= 2,
    ensures
        after_rounds(pair_round(entries), k + 1),
{
    let next = pair_round(entries);
    let n = entries.len() as int;
    assert forall|i: int| 0 <= i < next.len() - 1 implies is_full(#[trigger] next[i], k + 1) by {
        assert(is_full(entries[2 * i], k));
        assert(is_full(entries[2 * i + 1], k));
    }
    if n % 2 == 0 {
        assert(is_full(entries[n - 2], k));
        assert(next.last() == Tree::concat(entries[n - 2], entries[n - 1]));
    } else {
        assert(next.last() == entries[n - 1]);
    }
}

/// From the state after some rounds on, pairing ends in a dense tree.
pub proof fn lemma_rounds_end_dense(entries: Seq<Tree>, k: nat)
    requires
        after_rounds(entries, k),
    ensures
        is_dense(build_rounds(entries)),
    decreases entries.len(),
{
    if entries.len() >= 2 {
        lemma_round_step(entries, k);
        lemma_rounds_end_dense(pair_round(entries), k + 1);
    }
}

/// A round keeps the entries well formed.
pub proof fn lemma_rounds_keep_wf(entries: Seq<Tree>)
    requires
        all_wf(entries),
    ensures
        build_rounds(entries).wf(),
    decreases entries.len(),
{
    if entries.len() >= 2 {
        let next = pair_round(entries);
        assert forall|i: int| 0 <= i < next.len() implies (#[trigger] next[i]).wf() by {
            assert(entries[2 * i].wf());
            if 2 * i + 1 < entries.len() {
                assert(entries[2 * i + 1].wf());
            }
        }
        lemma_rounds_keep_wf(next);
    }
}

/// What a rebuild keeps are leaves with text.
pub proof fn lemma_kept_are_text_leaves(entries: Seq<Tree>)
    ensures
        forall|i: int| 0 <= i < kept(entries).len() ==> is_text_leaf(#[trigger] kept(entries)[i]),
    decreases entries.len(),
{
    if entries.len() > 0 {
        let front = kept(entries.drop_last());
        lemma_kept_are_text_leaves(entries.drop_last());
        assert forall|i: int| 0 <= i < kept(entries).len() implies is_text_leaf(
            #[trigger] kept(entries)[i],
        ) by {
            if i < front.len() {
                assert(is_text_leaf(front[i]));
            }
        }
    }
}

/// A tree that is built is well formed: its weights are true and no leaf is
/// empty.
pub proof fn lemma_build_wf(entries: Seq<Tree>)
    ensures
        Tree::build(entries).wf(),
{
    lemma_kept_are_text_leaves(entries);
    let leaves = kept(entries);
    assert forall|i: int| 0 <= i < leaves.len() implies (#[trigger] leaves[i]).wf() by {
        assert(is_text_leaf(leaves[i]));
    }
    lemma_rounds_keep_wf(leaves);
}

/// A tree that is built from at least one leaf with text is dense: its depth
/// is logarithmic in the number of its leaves. So it meets the Fibonacci
/// criterion, and is less deep than it has leaves.
pub proof fn lemma_build_balanced(entries: Seq<Tree>)
    requires
        kept(entries).len() > 0,
    ensures
        is_dense(Tree::build(entries)),
        Tree::build(entries).is_balanced(),
        Tree::build(entries).depth() < Tree::build(entries).leaves().len(),
{
    lemma_kept_are_text_leaves(entries);
    let leaves = kept(entries);
    assert forall|i: int| 0 <= i < leaves.len() - 1 implies is_full(#[trigger] leaves[i], 0) by {
        assert(is_text_leaf(leaves[i]));
    }
    assert(is_text_leaf(leaves.last()));
    lemma_rounds_end_dense(leaves, 0);
    lemma_dense_is_balanced(Tree::build(entries));
}

} // verus!
