//! Data structures: a rope and a doubly linked list.
//!
//! The rope holds a text as a tree of shared, immutable nodes. `rope` is the
//! rope itself, `rope_node` the nodes and the algorithms on them, and
//! `rope_iter` the traversal of the leaves. Their contracts speak of the
//! mathematical tree in `tree`; `pieces`, `builder` and `operations` say on
//! that tree what cutting, rebuilding and editing give, `balance`, `sizes`
//! and `laws` prove what holds of the results, and `fibonacci_seq` holds the
//! numbers of the balance criterion.
//!
//! `doubly_linked_list` is a list whose items live in an arena and are
//! addressed by handles.

pub mod balance;
pub mod builder;
pub mod doubly_linked_list;
pub mod fibonacci_seq;
pub mod laws;
pub mod operations;
pub mod pieces;
pub mod rope;
pub mod rope_iter;
pub mod rope_node;
pub mod sizes;
pub mod tree;
