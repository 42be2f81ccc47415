//! Cutting an ordered sequence of leaf texts at character positions.

use vstd::prelude::*;

verus! {

/// The position at which an index takes effect in a text of `len`
/// characters: the index itself, or the end of the text where it lies past it.
pub open spec fn clamp(index: nat, len: nat) -> int {
    if index < len {
        index as int
    } else {
        len as int
    }
}

/// The pieces that cover the first `k` characters: whole leaves as long as
/// they end at or before `k`, then the head of the leaf that `k` falls into.
pub open spec fn pieces_before(leaves: Seq<Seq<char>>, k: int) -> Seq<Seq<char>>
    decreases leaves.len(),
{
    if leaves.len() == 0 || k <= 0 {
        Seq::empty()
    } else if leaves[0].len() <= k {
        seq![leaves[0]] + pieces_before(leaves.skip(1), k - leaves[0].len())
    } else {
        seq![leaves[0].take(k)]
    }
}

/// The pieces that cover the characters from position `k` on: the tail of the
/// leaf that `k` falls into, then whole leaves.
pub open spec fn pieces_from(leaves: Seq<Seq<char>>, k: int) -> Seq<Seq<char>>
    decreases leaves.len(),
{
    if leaves.len() == 0 {
        Seq::empty()
    } else if k <= 0 {
        leaves
    } else if leaves[0].len() <= k {
        pieces_from(leaves.skip(1), k - leaves[0].len())
    } else {
        seq![leaves[0].skip(k)] + leaves.skip(1)
    }
}

/// The pieces that cover up to `len` characters from position `start` on.
/// Leaves before the window and empty leaves give no piece; a leaf that
/// overlaps the window gives the part of it that lies inside.
pub open spec fn window(leaves: Seq<Seq<char>>, start: nat, len: nat) -> Seq<Seq<char>>
    decreases leaves.len(),
{
    if leaves.len() == 0 || len == 0 {
        Seq::empty()
    } else if start >= leaves[0].len() {
        window(leaves.skip(1), (start - leaves[0].len()) as nat, len)
    } else {
        let room = (leaves[0].len() - start) as nat;
        let taken = if len < room { len } else { room };
        seq![leaves[0].subrange(start as int, (start + taken) as int)] + window(
            leaves.skip(1),
            0,
            (len - taken) as nat,
        )
    }
}

/// Position `k` lies between two leaves, before the first or after the last.
pub open spec fn cuts_between_leaves(leaves: Seq<Seq<char>>, k: int) -> bool
    decreases leaves.len(),
{
    if k <= 0 {
        k == 0
    } else if leaves.len() == 0 {
        false
    } else {
        leaves[0].len() <= k && cuts_between_leaves(leaves.skip(1), k - leaves[0].len())
    }
}

/// The texts that are not empty, in order.
pub open spec fn with_text(leaves: Seq<Seq<char>>) -> Seq<Seq<char>>
    decreases leaves.len(),
{
    if leaves.len() == 0 {
        Seq::empty()
    } else if leaves.last().len() > 0 {
        with_text(leaves.drop_last()).push(leaves.last())
    } else {
        with_text(leaves.drop_last())
    }
}

/// The joined texts are the first text followed by the joined rest.
pub proof fn lemma_flatten_unfold(leaves: Seq<Seq<char>>)
    requires
        leaves.len() > 0,
    ensures
        leaves.flatten() == leaves[0] + leaves.skip(1).flatten(),
{
    assert(leaves.drop_first() =~= leaves.skip(1));
}

/// The pieces before `k` hold the first `k` characters.
pub proof fn lemma_pieces_before_text(leaves: Seq<Seq<char>>, k: int)
    requires
        0 <= k <= leaves.flatten().len(),
    ensures
        pieces_before(leaves, k).flatten() == leaves.flatten().take(k),
    decreases leaves.len(),
{
    if leaves.len() == 0 || k <= 0 {
        assert(leaves.flatten().take(k) =~= Seq::<char>::empty());
    } else {
        lemma_flatten_unfold(leaves);
        let rest = leaves.skip(1);
        if leaves[0].len() <= k {
            lemma_pieces_before_text(rest, k - leaves[0].len());
            let tail = pieces_before(rest, k - leaves[0].len());
            lemma_flatten_unfold(seq![leaves[0]] + tail);
            assert((seq![leaves[0]] + tail).skip(1) =~= tail);
            assert(leaves[0] + rest.flatten().take(k - leaves[0].len()) =~= leaves.flatten().take(
                k,
            ));
        } else {
            seq![leaves[0].take(k)].lemma_flatten_one_element();
            assert(leaves[0].take(k) =~= leaves.flatten().take(k));
        }
    }
}

/// The pieces from `k` on hold the characters from position `k` on.
pub proof fn lemma_pieces_from_text(leaves: Seq<Seq<char>>, k: int)
    requires
        0 <= k <= leaves.flatten().len(),
    ensures
        pieces_from(leaves, k).flatten() == leaves.flatten().skip(k),
    decreases leaves.len(),
{
    if leaves.len() == 0 {
        assert(leaves.flatten().skip(k) =~= Seq::<char>::empty());
    } else if k <= 0 {
        assert(leaves.flatten().skip(k) =~= leaves.flatten());
    } else {
        lemma_flatten_unfold(leaves);
        let rest = leaves.skip(1);
        if leaves[0].len() <= k {
            lemma_pieces_from_text(rest, k - leaves[0].len());
            assert(rest.flatten().skip(k - leaves[0].len()) =~= leaves.flatten().skip(k));
        } else {
            let cut = seq![leaves[0].skip(k)] + rest;
            lemma_flatten_unfold(cut);
            assert(cut.skip(1) =~= rest);
            assert(leaves[0].skip(k) + rest.flatten() =~= leaves.flatten().skip(k));
        }
    }
}

/// The window holds the characters of the text from `start` on, up to `len`
/// of them and as far as the text goes.
pub proof fn lemma_window_text(leaves: Seq<Seq<char>>, start: nat, len: nat)
    ensures
        window(leaves, start, len).flatten() == leaves.flatten().subrange(
            clamp(start, leaves.flatten().len()),
            clamp(start + len, leaves.flatten().len()),
        ),
    decreases leaves.len(),
{
    let text = leaves.flatten();
    let from = clamp(start, text.len());
    let to = clamp(start + len, text.len());
    if leaves.len() == 0 || len == 0 {
        assert(text.subrange(from, to) =~= Seq::<char>::empty());
    } else {
        lemma_flatten_unfold(leaves);
        let rest = leaves.skip(1);
        let first = leaves[0];
        let rest_text = rest.flatten();
        if start >= first.len() {
            let rest_start = (start - first.len()) as nat;
            lemma_window_text(rest, rest_start, len);
            let rest_from = clamp(rest_start, rest_text.len());
            let rest_to = clamp(rest_start + len, rest_text.len());
            assert(rest_text.subrange(rest_from, rest_to) =~= text.subrange(from, to));
        } else {
            let room = (first.len() - start) as nat;
            let taken = if len < room { len } else { room };
            let rest_len = (len - taken) as nat;
            lemma_window_text(rest, 0, rest_len);
            let tail = window(rest, 0, rest_len);
            let piece = first.subrange(start as int, (start + taken) as int);
            let cut = seq![piece] + tail;
            lemma_flatten_unfold(cut);
            assert(cut.skip(1) =~= tail);
            let rest_to = clamp(rest_len, rest_text.len());
            assert(piece + rest_text.subrange(0, rest_to) =~= text.subrange(from, to));
        }
    }
}

/// Leaving out the empty texts does not change the joined text.
pub proof fn lemma_with_text_flatten(leaves: Seq<Seq<char>>)
    ensures
        with_text(leaves).flatten() == leaves.flatten(),
    decreases leaves.len(),
{
    if leaves.len() > 0 {
        let front = leaves.drop_last();
        lemma_with_text_flatten(front);
        assert(leaves =~= front.push(leaves.last()));
        front.lemma_flatten_push(leaves.last());
        with_text(front).lemma_flatten_push(leaves.last());
        assert(leaves.flatten() =~= front.flatten() + leaves.last());
    }
}

} // verus!
