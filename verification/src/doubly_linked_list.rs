//! A doubly linked list. Its items live in an arena that only grows, and an
//! item is addressed by a handle that stays valid while the item is linked.

use vstd::prelude::*;

verus! {

/// One item of a list: its value and the handles of its neighbours.
#[derive(Debug)]
pub struct ListItem<T> where T: Clone {
    pub next: Option<usize>,
    pub prev: Option<usize>,
    pub value: T,
}

/// A list of values, linked in both directions.
pub struct DoublyLinkedList<T> where T: Clone {
    /// The handle of the first item.
    pub head: Option<usize>,
    /// The handle of the last item.
    pub tail: Option<usize>,
    /// The arena: every item that was ever put in, by handle.
    pub items: Vec<ListItem<T>>,
    /// The handles of the linked items, from head to tail.
    pub order: Ghost<Seq<usize>>,
}

/// The handle before position `i` of `order`, if there is one.
pub open spec fn handle_before(order: Seq<usize>, i: int) -> Option<usize> {
    if i == 0 {
        None
    } else {
        Some(order[i - 1])
    }
}

/// The handle behind position `i` of `order`, if there is one.
pub open spec fn handle_behind(order: Seq<usize>, i: int) -> Option<usize> {
    if i == order.len() - 1 {
        None
    } else {
        Some(order[i + 1])
    }
}

/// The item at position `i` of `order` has a slot, and its links name its
/// neighbours in `order`.
pub open spec fn linked_at<T: Clone>(slots: Seq<ListItem<T>>, order: Seq<usize>, i: int) -> bool {
    &&& order[i] < slots.len()
    &&& slots[order[i] as int].prev == handle_before(order, i)
    &&& slots[order[i] as int].next == handle_behind(order, i)
}

/// Replaces the link to the previous item in one slot.
fn set_prev<T: Clone>(items: &mut Vec<ListItem<T>>, at: usize, prev: Option<usize>)
    requires
        at < old(items).len(),
    ensures
        final(items).len() == old(items).len(),
        final(items)[at as int].prev == prev,
        final(items)[at as int].next == old(items)[at as int].next,
        final(items)[at as int].value == old(items)[at as int].value,
        forall|i: int|
            0 <= i < old(items).len() && i != at ==> #[trigger] final(items)[i] == old(items)[i],
{
    items[at].prev = prev;
}

/// Replaces the link to the next item in one slot.
fn set_next<T: Clone>(items: &mut Vec<ListItem<T>>, at: usize, next: Option<usize>)
    requires
        at < old(items).len(),
    ensures
        final(items).len() == old(items).len(),
        final(items)[at as int].next == next,
        final(items)[at as int].prev == old(items)[at as int].prev,
        final(items)[at as int].value == old(items)[at as int].value,
        forall|i: int|
            0 <= i < old(items).len() && i != at ==> #[trigger] final(items)[i] == old(items)[i],
{
    items[at].next = next;
}

/// Replaces the value in one slot.
fn set_value<T: Clone>(items: &mut Vec<ListItem<T>>, at: usize, value: T)
    requires
        at < old(items).len(),
    ensures
        final(items).len() == old(items).len(),
        final(items)[at as int].value == value,
        final(items)[at as int].next == old(items)[at as int].next,
        final(items)[at as int].prev == old(items)[at as int].prev,
        forall|i: int|
            0 <= i < old(items).len() && i != at ==> #[trigger] final(items)[i] == old(items)[i],
{
    items[at].value = value;
}

impl<T> View for DoublyLinkedList<T> where T: Clone {
    type V = Seq<T>;

    /// The values, from head to tail.
    open spec fn view(&self) -> Seq<T> {
        Seq::new(self.order@.len(), |i: int| self.items@[self.order@[i] as int].value)
    }
}

impl<T> DoublyLinkedList<T> where T: Clone {
    /// The handles of the linked items, from head to tail.
    pub open spec fn handles(&self) -> Seq<usize> {
        self.order@
    }

    /// The links, `head` and `tail` describe one chain that holds each linked
    /// item once.
    pub open spec fn wf(&self) -> bool {
        let order = self.handles();
        &&& order.no_duplicates()
        &&& forall|i: int| 0 <= i < order.len() ==> #[trigger] order[i] < self.items.len()
        &&& forall|i: int| 0 <= i < order.len() ==> #[trigger] linked_at(self.items@, order, i)
        &&& self.head == (if order.len() == 0 {
            None
        } else {
            Some(order.first())
        })
        &&& self.tail == (if order.len() == 0 {
            None
        } else {
            Some(order.last())
        })
    }

    /// An empty list.
    pub fn new() -> (r: Self)
        ensures
            r.wf(),
            r.items@.len() == 0,
            r.handles() == Seq::<usize>::empty(),
            r.view() == Seq::<T>::empty(),
            r.head is None,
            r.tail is None,
    {
        let r = DoublyLinkedList {
            head: None,
            tail: None,
            items: Vec::new(),
            order: Ghost(Seq::empty()),
        };
        assert(r.view() =~= Seq::<T>::empty());
        r
    }

    /// The item behind a handle. For a linked item of a well-formed list it
    /// holds the value at the item's position and the handles of its
    /// neighbours.
    pub fn item(&self, at: usize) -> (r: &ListItem<T>)
        requires
            at < self.items.len(),
        ensures
            *r == self.items[at as int],
            self.wf() && self.handles().contains(at) ==> {
                &&& r.value == self.view()[self.handles().index_of(at)]
                &&& r.prev == handle_before(self.handles(), self.handles().index_of(at))
                &&& r.next == handle_behind(self.handles(), self.handles().index_of(at))
            },
    {
        proof {
            if self.wf() && self.handles().contains(at) {
                let i = self.handles().index_of(at);
                assert(linked_at(self.items@, self.handles(), i));
            }
        }
        &self.items[at]
    }

    /// Puts `value` in front of the list.
    pub fn push_head(&mut self, value: T)
        requires
            old(self).wf(),
        ensures
            final(self).wf(),
            final(self).handles() == seq![old(self).items.len() as usize] + old(self).handles(),
            final(self).view() == seq![value] + old(self).view(),
    {
        let new_head: usize = self.items.len();
        match self.head {
            Some(head) => {
                assert(linked_at(self.items@, self.order@, 0));
                self.items.push(ListItem { value, next: Some(head), prev: None });
                set_prev(&mut self.items, head, Some(new_head));
                self.head = Some(new_head);
            },
            None => {
                self.items.push(ListItem { next: None, prev: None, value });
                self.head = Some(new_head);
                self.sync_tail();
            },
        }
        self.order = Ghost(seq![new_head] + self.order@);
        proof {
            let before = old(self).order@;
            let after = self.order@;
            let values = seq![value] + old(self).view();
            assert forall|i: int| 0 <= i < after.len() implies #[trigger] linked_at(
                self.items@,
                after,
                i,
            ) by {
                if i > 0 {
                    assert(linked_at(old(self).items@, before, i - 1));
                }
            }
            assert forall|i: int| 0 <= i < after.len() implies self.view()[i] == values[i] by {
                if i > 0 {
                    assert(linked_at(old(self).items@, before, i - 1));
                }
            }
            assert(self.view() =~= seq![value] + old(self).view());
            assert forall|i: int, j: int|
                0 <= i < after.len() && 0 <= j < after.len() && i != j implies after[i]
                != after[j] by {
                if i > 0 {
                    assert(linked_at(old(self).items@, before, i - 1));
                }
                if j > 0 {
                    assert(linked_at(old(self).items@, before, j - 1));
                }
            }
        }
    }

    /// Puts `value` at the end of the list.
    pub fn push(&mut self, value: T)
        requires
            old(self).wf(),
        ensures
            final(self).wf(),
            final(self).handles() == old(self).handles().push(old(self).items.len() as usize),
            final(self).view() == old(self).view().push(value),
    {
        let new_tail: usize = self.items.len();
        match self.tail {
            Some(tail) => {
                assert(linked_at(self.items@, self.order@, self.order@.len() - 1));
                self.items.push(ListItem { value, next: None, prev: Some(tail) });
                set_next(&mut self.items, tail, Some(new_tail));
                self.tail = Some(new_tail);
            },
            None => {
                self.items.push(ListItem { next: None, prev: None, value });
                self.tail = Some(new_tail);
                self.sync_head();
            },
        }
        self.order = Ghost(self.order@.push(new_tail));
        proof {
            let before = old(self).order@;
            let after = self.order@;
            let values = old(self).view();
            assert forall|i: int| 0 <= i < after.len() implies #[trigger] linked_at(
                self.items@,
                after,
                i,
            ) by {
                if i < before.len() {
                    assert(linked_at(old(self).items@, before, i));
                }
            }
            assert forall|i: int| 0 <= i < after.len() implies self.view()[i]
                == values.push(value)[i] by {
                if i < before.len() {
                    assert(linked_at(old(self).items@, before, i));
                }
            }
            assert(self.view() =~= old(self).view().push(value));
            assert forall|i: int, j: int|
                0 <= i < after.len() && 0 <= j < after.len() && i != j implies after[i]
                != after[j] by {
                if i < before.len() {
                    assert(linked_at(old(self).items@, before, i));
                }
                if j < before.len() {
                    assert(linked_at(old(self).items@, before, j));
                }
            }
        }
    }

    /// Takes the first item out and returns a copy of its value.
    pub fn pop_head(&mut self) -> (r: Option<T>)
        requires
            old(self).wf(),
        ensures
            final(self).wf(),
            match r {
                Some(v) => {
                    &&& old(self).handles().len() > 0
                    &&& cloned(old(self).view()[0], v)
                    &&& final(self).handles() == old(self).handles().skip(1)
                    &&& final(self).view() == old(self).view().skip(1)
                },
                None => {
                    &&& old(self).handles().len() == 0
                    &&& final(self).handles() == old(self).handles()
                    &&& final(self).items == old(self).items
                },
            },
    {
        match self.head {
            Some(head) => {
                assert(linked_at(self.items@, self.order@, 0));
                let new_head: Option<usize> = self.items[head].next;
                match new_head {
                    Some(next) => {
                        assert(linked_at(self.items@, self.order@, 1));
                        set_prev(&mut self.items, next, None);
                    },
                    None => {},
                }
                self.head = new_head;
                self.sync_tail();
                self.order = Ghost(self.order@.skip(1));
                proof {
                    let before = old(self).order@;
                    let after = self.order@;
                    let values = old(self).view();
                    assert forall|i: int| 0 <= i < after.len() implies #[trigger] linked_at(
                        self.items@,
                        after,
                        i,
                    ) by {
                        assert(linked_at(old(self).items@, before, i + 1));
                    }
                    assert forall|i: int| 0 <= i < after.len() implies self.view()[i]
                        == values.skip(1)[i] by {
                        assert(linked_at(old(self).items@, before, i + 1));
                    }
                    assert(self.view() =~= old(self).view().skip(1));
                    if after.len() > 0 {
                        assert(linked_at(old(self).items@, before, before.len() - 1));
                    }
                }
                Some(self.items[head].value.clone())
            },
            None => None,
        }
    }

    /// Takes the last item out and returns a copy of its value.
    pub fn pop(&mut self) -> (r: Option<T>)
        requires
            old(self).wf(),
        ensures
            final(self).wf(),
            match r {
                Some(v) => {
                    &&& old(self).handles().len() > 0
                    &&& cloned(old(self).view().last(), v)
                    &&& final(self).handles() == old(self).handles().drop_last()
                    &&& final(self).view() == old(self).view().drop_last()
                },
                None => {
                    &&& old(self).handles().len() == 0
                    &&& final(self).handles() == old(self).handles()
                    &&& final(self).items == old(self).items
                },
            },
    {
        match self.tail {
            Some(tail) => {
                let ghost last = self.order@.len() - 1;
                assert(linked_at(self.items@, self.order@, last));
                let new_tail: Option<usize> = self.items[tail].prev;
                match new_tail {
                    Some(prev) => {
                        assert(linked_at(self.items@, self.order@, last - 1));
                        set_next(&mut self.items, prev, None);
                    },
                    None => {},
                }
                self.tail = new_tail;
                self.sync_head();
                self.order = Ghost(self.order@.drop_last());
                proof {
                    let before = old(self).order@;
                    let after = self.order@;
                    let values = old(self).view();
                    assert forall|i: int| 0 <= i < after.len() implies #[trigger] linked_at(
                        self.items@,
                        after,
                        i,
                    ) by {
                        assert(linked_at(old(self).items@, before, i));
                    }
                    assert forall|i: int| 0 <= i < after.len() implies self.view()[i]
                        == values.drop_last()[i] by {
                        assert(linked_at(old(self).items@, before, i));
                    }
                    assert(self.view() =~= old(self).view().drop_last());
                    if after.len() > 0 {
                        assert(linked_at(old(self).items@, before, 0));
                    }
                }
                Some(self.items[tail].value.clone())
            },
            None => None,
        }
    }

    /// A pass over the handles of the linked items, from head to tail.
    pub fn iter(&self) -> (it: DoublyLinkedListIter<'_, T>)
        requires
            self.wf(),
        ensures
            it.wf(),
            it.remaining() == self.handles(),
    {
        let it = DoublyLinkedListIter { list: self, cursor: self.head, position: Ghost(0) };
        assert(it.remaining() =~= self.handles());
        it
    }

    /// Replaces each value by what `f` makes of it, from head to tail.
    pub fn foreach<F>(&mut self, f: F) where F: Fn(&T) -> T
        requires
            old(self).wf(),
            forall|i: int|
                0 <= i < old(self).view().len() ==> f.requires((&#[trigger] old(self).view()[i],)),
        ensures
            final(self).wf(),
            final(self).handles() == old(self).handles(),
            final(self).view().len() == old(self).view().len(),
            forall|i: int|
                0 <= i < old(self).view().len() ==> f.ensures(
                    (&old(self).view()[i],),
                    #[trigger] final(self).view()[i],
                ),
    {
        let mut cursor: Option<usize> = self.head;
        let ghost mut position: int = 0;
        loop
            invariant
                self.wf(),
                self.order == old(self).order,
                0 <= position <= self.order@.len(),
                cursor == (if position < self.order@.len() {
                    Some(self.order@[position])
                } else {
                    None
                }),
                forall|i: int|
                    0 <= i < old(self).view().len() ==> f.requires(
                        (&#[trigger] old(self).view()[i],),
                    ),
                forall|i: int|
                    0 <= i < position ==> f.ensures(
                        (&old(self).view()[i],),
                        #[trigger] self.view()[i],
                    ),
                forall|i: int|
                    position <= i < self.order@.len()
                        ==> #[trigger] self.view()[i] == old(self).view()[i],
            ensures
                position == self.order@.len(),
            decreases self.order@.len() - position,
        {
            let at: usize = match cursor {
                Some(at) => at,
                None => {
                    break ;
                },
            };
            let ghost before = self.items@;
            let ghost values = self.view();
            assert(linked_at(before, self.order@, position));
            assert(self.view()[position] == old(self).view()[position]);
            let value: T = f(&self.items[at].value);
            cursor = self.items[at].next;
            set_value(&mut self.items, at, value);
            proof {
                assert forall|i: int| 0 <= i < self.order@.len() implies #[trigger] linked_at(
                    self.items@,
                    self.order@,
                    i,
                ) by {
                    assert(linked_at(before, self.order@, i));
                }
                assert forall|i: int| 0 <= i < self.order@.len() && i != position implies (
                #[trigger] self.view()[i]) == values[i] by {
                    assert(linked_at(before, self.order@, i));
                }
                position = position + 1;
            }
        }
    }

    /// Puts `value` in behind the item with the handle `node`.
    pub fn insert_after(&mut self, node: usize, value: T)
        requires
            old(self).wf(),
            old(self).handles().contains(node),
        ensures
            final(self).wf(),
            final(self).handles() == old(self).handles().insert(
                old(self).handles().index_of(node) + 1,
                old(self).items.len() as usize,
            ),
            final(self).view() == old(self).view().insert(
                old(self).handles().index_of(node) + 1,
                value,
            ),
    {
        let ghost at = self.order@.index_of(node);
        assert(linked_at(self.items@, self.order@, at));
        let next_node: Option<usize> = self.items[node].next;
        let new_node: usize = self.items.len();
        self.items.push(ListItem { next: next_node, prev: Some(node), value });
        match next_node {
            Some(next) => {
                assert(linked_at(old(self).items@, self.order@, at + 1));
                set_prev(&mut self.items, next, Some(new_node));
            },
            None => {
                self.tail = Some(new_node);
            },
        }
        set_next(&mut self.items, node, Some(new_node));
        self.order = Ghost(self.order@.insert(at + 1, new_node));
        proof {
            let before = old(self).order@;
            let after = self.order@;
            let values = old(self).view();
            assert forall|i: int| 0 <= i < after.len() implies #[trigger] linked_at(
                self.items@,
                after,
                i,
            ) by {
                if i <= at {
                    assert(linked_at(old(self).items@, before, i));
                } else if i > at + 1 {
                    assert(linked_at(old(self).items@, before, i - 1));
                }
            }
            assert forall|i: int| 0 <= i < after.len() implies self.view()[i]
                == values.insert(at + 1, value)[i] by {
                if i <= at {
                    assert(linked_at(old(self).items@, before, i));
                } else if i > at + 1 {
                    assert(linked_at(old(self).items@, before, i - 1));
                }
            }
            assert(self.view() =~= old(self).view().insert(at + 1, value));
            assert forall|i: int, j: int|
                0 <= i < after.len() && 0 <= j < after.len() && i != j implies after[i]
                != after[j] by {
                if i <= at {
                    assert(linked_at(old(self).items@, before, i));
                } else if i > at + 1 {
                    assert(linked_at(old(self).items@, before, i - 1));
                }
                if j <= at {
                    assert(linked_at(old(self).items@, before, j));
                } else if j > at + 1 {
                    assert(linked_at(old(self).items@, before, j - 1));
                }
            }
            assert(linked_at(old(self).items@, before, 0));
        }
    }

    /// Puts `value` in before the item with the handle `node`.
    pub fn insert_before(&mut self, node: usize, value: T)
        requires
            old(self).wf(),
            old(self).handles().contains(node),
        ensures
            final(self).wf(),
            final(self).handles() == old(self).handles().insert(
                old(self).handles().index_of(node),
                old(self).items.len() as usize,
            ),
            final(self).view() == old(self).view().insert(
                old(self).handles().index_of(node),
                value,
            ),
    {
        let ghost at = self.order@.index_of(node);
        assert(linked_at(self.items@, self.order@, at));
        let prev_node: Option<usize> = self.items[node].prev;
        let new_node: usize = self.items.len();
        self.items.push(ListItem { prev: prev_node, next: Some(node), value });
        match prev_node {
            Some(prev) => {
                assert(linked_at(old(self).items@, self.order@, at - 1));
                set_next(&mut self.items, prev, Some(new_node));
            },
            None => {
                self.head = Some(new_node);
            },
        }
        set_prev(&mut self.items, node, Some(new_node));
        self.order = Ghost(self.order@.insert(at, new_node));
        proof {
            let before = old(self).order@;
            let after = self.order@;
            let values = old(self).view();
            assert forall|i: int| 0 <= i < after.len() implies #[trigger] linked_at(
                self.items@,
                after,
                i,
            ) by {
                if i < at {
                    assert(linked_at(old(self).items@, before, i));
                } else if i > at {
                    assert(linked_at(old(self).items@, before, i - 1));
                }
            }
            assert forall|i: int| 0 <= i < after.len() implies self.view()[i]
                == values.insert(at, value)[i] by {
                if i < at {
                    assert(linked_at(old(self).items@, before, i));
                } else if i > at {
                    assert(linked_at(old(self).items@, before, i - 1));
                }
            }
            assert(self.view() =~= old(self).view().insert(at, value));
            assert forall|i: int, j: int|
                0 <= i < after.len() && 0 <= j < after.len() && i != j implies after[i]
                != after[j] by {
                if i < at {
                    assert(linked_at(old(self).items@, before, i));
                } else if i > at {
                    assert(linked_at(old(self).items@, before, i - 1));
                }
                if j < at {
                    assert(linked_at(old(self).items@, before, j));
                } else if j > at {
                    assert(linked_at(old(self).items@, before, j - 1));
                }
            }
            assert(linked_at(old(self).items@, before, before.len() - 1));
        }
    }

    /// Takes the item with the handle `node` out of the list.
    pub fn remove(&mut self, node: usize)
        requires
            old(self).wf(),
            old(self).handles().contains(node),
        ensures
            final(self).wf(),
            final(self).handles() == old(self).handles().remove(
                old(self).handles().index_of(node),
            ),
            final(self).view() == old(self).view().remove(old(self).handles().index_of(node)),
    {
        let ghost at = self.order@.index_of(node);
        let ghost before = self.order@;
        assert(linked_at(self.items@, before, at));
        let prev_node: Option<usize> = self.items[node].prev;
        let next_node: Option<usize> = self.items[node].next;
        match prev_node {
            Some(prev) => {
                assert(linked_at(self.items@, before, at - 1));
                match next_node {
                    Some(next) => {
                        assert(linked_at(self.items@, before, at + 1));
                        set_next(&mut self.items, prev, Some(next));
                        set_prev(&mut self.items, next, Some(prev));
                    },
                    None => {
                        set_next(&mut self.items, prev, None);
                        self.tail = Some(prev);
                    },
                }
            },
            None => {
                match next_node {
                    Some(next) => {
                        assert(linked_at(self.items@, before, at + 1));
                        set_prev(&mut self.items, next, None);
                    },
                    None => {},
                }
                self.head = next_node;
                self.sync_tail();
            },
        }
        self.order = Ghost(self.order@.remove(at));
        proof {
            let after = self.order@;
            let values = old(self).view();
            assert forall|i: int| 0 <= i < after.len() implies #[trigger] linked_at(
                self.items@,
                after,
                i,
            ) by {
                if i < at {
                    assert(linked_at(old(self).items@, before, i));
                } else {
                    assert(linked_at(old(self).items@, before, i + 1));
                }
            }
            assert forall|i: int| 0 <= i < after.len() implies self.view()[i]
                == values.remove(at)[i] by {
                if i < at {
                    assert(linked_at(old(self).items@, before, i));
                } else {
                    assert(linked_at(old(self).items@, before, i + 1));
                }
            }
            assert(self.view() =~= old(self).view().remove(at));
            assert(linked_at(old(self).items@, before, 0));
            assert(linked_at(old(self).items@, before, before.len() - 1));
        }
    }

    /// Makes `tail` follow `head` where the list has at most one item.
    fn sync_tail(&mut self)
        requires
            match old(self).head {
                Some(head) => head < old(self).items.len(),
                None => true,
            },
        ensures
            final(self).head == old(self).head,
            final(self).items == old(self).items,
            final(self).order == old(self).order,
            final(self).tail == (match old(self).head {
                Some(head) => if old(self).items[head as int].next is None {
                    Some(head)
                } else {
                    old(self).tail
                },
                None => None,
            }),
    {
        match self.head {
            Some(head) => {
                if self.items[head].next.is_none() {
                    self.tail = Some(head);
                }
            },
            None => {
                self.tail = None;
            },
        }
    }

    /// Makes `head` follow `tail` where the list has at most one item.
    fn sync_head(&mut self)
        requires
            match old(self).tail {
                Some(tail) => tail < old(self).items.len(),
                None => true,
            },
        ensures
            final(self).tail == old(self).tail,
            final(self).items == old(self).items,
            final(self).order == old(self).order,
            final(self).head == (match old(self).tail {
                Some(tail) => if old(self).items[tail as int].prev is None {
                    Some(tail)
                } else {
                    old(self).head
                },
                None => None,
            }),
    {
        match self.tail {
            Some(tail) => {
                if self.items[tail].prev.is_none() {
                    self.head = Some(tail);
                }
            },
            None => {
                self.head = None;
            },
        }
    }
}

/// A pass over the handles of a list, from head to tail.
pub struct DoublyLinkedListIter<'a, T: Clone> {
    list: &'a DoublyLinkedList<T>,
    cursor: Option<usize>,
    position: Ghost<int>,
}

impl<'a, T: Clone> DoublyLinkedListIter<'a, T> {
    /// The list is well formed and the pass stands at one of its items, or
    /// behind the last.
    pub closed spec fn wf(&self) -> bool {
        let order = self.list.handles();
        &&& self.list.wf()
        &&& 0 <= self.position@ <= order.len()
        &&& self.cursor == (if self.position@ < order.len() {
            Some(order[self.position@])
        } else {
            None
        })
    }

    /// The handles still to come, in order.
    pub closed spec fn remaining(&self) -> Seq<usize> {
        self.list.handles().skip(self.position@)
    }

    /// The next handle, or `None` behind the last item.
    pub fn next(&mut self) -> (r: Option<usize>)
        requires
            old(self).wf(),
        ensures
            final(self).wf(),
            match r {
                Some(at) => {
                    &&& old(self).remaining().len() > 0
                    &&& at == old(self).remaining()[0]
                    &&& final(self).remaining() == old(self).remaining().skip(1)
                },
                None => {
                    &&& old(self).remaining().len() == 0
                    &&& final(self).remaining() == old(self).remaining()
                },
            },
    {
        match self.cursor {
            Some(at) => {
                assert(linked_at(self.list.items@, self.list.order@, self.position@));
                self.cursor = self.list.items[at].next;
                self.position = Ghost(self.position@ + 1);
                assert(self.remaining() =~= old(self).remaining().skip(1));
                Some(at)
            },
            None => None,
        }
    }
}

} // verus!
