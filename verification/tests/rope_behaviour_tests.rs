use data_structures::fibonacci_seq::{checked_fibonacci_number, get_fibonacci_number};
use data_structures::rope::Rope;
use data_structures::rope_iter::RopeIter;
use data_structures::rope_node::{Node, RopeNode, RopeNodeType};
use std::rc::Rc;

fn leaf(text: &str) -> RopeNode {
    RopeNode::leaf(String::from(text))
}

fn node(left: RopeNode, right: RopeNode, weight: usize) -> RopeNode {
    RopeNode(Rc::new(RopeNodeType::Node(Node {
        left,
        right,
        weight,
    })))
}

fn four_leaves() -> RopeNode {
    node(
        node(leaf("hello "), leaf("world! "), 6),
        node(leaf("My name"), leaf("is sugondese"), 7),
        13,
    )
}

fn two_leaves() -> RopeNode {
    node(
        node(leaf("hello "), leaf("world! "), 6),
        RopeNode::empty(),
        13,
    )
}

fn leaf_texts(mut iter: RopeIter) -> Vec<String> {
    let mut texts = Vec::new();
    while let Some(found) = iter.next() {
        texts.push(found.map_leaf().unwrap().value.clone());
    }
    texts
}

fn leaf_nodes(root: &RopeNode) -> Vec<RopeNode> {
    let mut found = Vec::new();
    let mut iter = root.iter();
    while let Some(next) = iter.next() {
        found.push(next);
    }
    found
}

fn text_of(root: &RopeNode) -> String {
    leaf_texts(root.iter()).concat()
}

const TEXT: &str = "hello world! My nameis sugondese";

#[test]
fn fibonacci_values() {
    assert_eq!(get_fibonacci_number(0), 1);
    assert_eq!(get_fibonacci_number(1), 1);
    assert_eq!(get_fibonacci_number(2), 1);
    assert_eq!(get_fibonacci_number(3), 2);
    assert_eq!(get_fibonacci_number(4), 3);
    assert_eq!(get_fibonacci_number(5), 5);
    assert_eq!(get_fibonacci_number(10), 55);
    assert_eq!(get_fibonacci_number(20), 6765);
}

#[test]
fn checked_fibonacci_values() {
    assert_eq!(checked_fibonacci_number(1), Some(1));
    assert_eq!(checked_fibonacci_number(3), Some(2));
    assert_eq!(checked_fibonacci_number(10), Some(55));
    assert_eq!(checked_fibonacci_number(47), Some(2971215073));
    assert_eq!(checked_fibonacci_number(200), None);
    assert_eq!(checked_fibonacci_number(usize::MAX), None);
}

#[test]
fn get_char_agrees_with_text_at_every_index() {
    let rope = Rope::new(four_leaves());
    let chars: Vec<char> = TEXT.chars().collect();
    assert_eq!(rope.len(), chars.len());
    for (index, expected) in chars.iter().enumerate() {
        assert_eq!(rope.get_char(index), Some(*expected));
    }
    assert_eq!(rope.get_char(chars.len()), None);
    assert_eq!(rope.get_char(usize::MAX), None);
}

#[test]
fn get_char_follows_the_weights() {
    let root = node(leaf("ab"), leaf("cd"), 1);
    assert_eq!(root.get_char(0), Some('a'));
    assert_eq!(root.get_char(1), Some('c'));
    assert_eq!(root.get_char(2), Some('d'));
    assert_eq!(root.get_char(3), None);
}

#[test]
fn get_char_on_leaf_and_on_nothing() {
    assert_eq!(leaf("abc").get_char(2), Some('c'));
    assert_eq!(leaf("abc").get_char(3), None);
    assert_eq!(RopeNode::empty().get_char(0), None);
}

#[test]
fn concat_adds_the_lengths() {
    let a = node(leaf("hello "), leaf("world! "), 6);
    let b = node(leaf("My name"), leaf("is sugondese"), 7);
    assert_eq!(a.len(), 13);
    assert_eq!(b.len(), 19);
    let rope = Rope::concat(a, b);
    assert_eq!(rope.len(), 32);
    assert_eq!(rope.get_char(13), Some('M'));
}

#[test]
fn concat_records_the_length_of_the_left_side() {
    let joined = leaf("hello ").concat(leaf("world! "));
    match &*joined.0 {
        RopeNodeType::Node(inner) => assert_eq!(inner.weight, 6),
        _ => panic!("an internal node was expected"),
    }
    assert_eq!(
        joined.to_string(),
        r#"Node(Left: Leaf("hello "), Right: Leaf("world! "))"#
    );
}

#[test]
fn concat_with_nothing_keeps_the_other_side() {
    let left = RopeNode::empty().concat(leaf("abc"));
    assert_eq!(left.to_string(), r#"Node(Left: None, Right: Leaf("abc"))"#);
    assert_eq!(left.len(), 3);
    assert_eq!(left.get_char(0), Some('a'));
    let right = leaf("abc").concat(RopeNode::empty());
    assert_eq!(right.to_string(), r#"Node(Left: Leaf("abc"), Right: None)"#);
    assert_eq!(right.len(), 3);
}

#[test]
fn split_then_concat_keeps_the_text_at_every_index() {
    let root = four_leaves();
    for index in 0..=40 {
        let (left, right) = root.split(index);
        let cut = index.min(32);
        assert_eq!(text_of(&left), &TEXT[..cut]);
        assert_eq!(text_of(&right), &TEXT[cut..]);
        assert_eq!(text_of(&left.concat(right)), TEXT);
    }
}

#[test]
fn split_between_leaves_then_concat_keeps_the_leaves() {
    let root = four_leaves();
    let expected = vec!["hello ", "world! ", "My name", "is sugondese"];
    for index in [0, 6, 13, 20, 32, 50] {
        let (left, right) = root.split(index);
        assert_eq!(leaf_texts(left.concat(right).iter()), expected);
    }
}

#[test]
fn split_inside_a_leaf_cuts_that_leaf() {
    let root = four_leaves();
    let (left, right) = root.split(9);
    assert_eq!(leaf_texts(left.iter()), vec!["hello ", "wor"]);
    assert_eq!(
        leaf_texts(right.iter()),
        vec!["ld! ", "My name", "is sugondese"]
    );
}

#[test]
fn split_two_leaves_at_nine() {
    let rope = Rope::new(two_leaves());
    let (left, right) = rope.split(9);
    assert_eq!(
        left.to_string(),
        r#"Node(Left: Leaf("hello "), Right: Leaf("wor"))"#
    );
    assert_eq!(right.to_string(), r#"Leaf("ld! ")"#);
}

#[test]
fn split_four_leaves_at_nine() {
    let rope = Rope::new(four_leaves());
    let (left, right) = rope.split(9);
    assert_eq!(
        left.to_string(),
        r#"Node(Left: Leaf("hello "), Right: Leaf("wor"))"#
    );
    assert_eq!(
        right.to_string(),
        r#"Node(Left: Node(Left: Leaf("ld! "), Right: Leaf("My name")), Right: Leaf("is sugondese"))"#
    );
}

#[test]
fn split_at_the_ends_shares_the_tree() {
    let root = four_leaves();
    let (left, right) = root.split(0);
    assert!(!left.is_not_none());
    assert!(Rc::ptr_eq(&right.0, &root.0));
    let (left, right) = root.split(32);
    assert!(Rc::ptr_eq(&left.0, &root.0));
    assert!(!right.is_not_none());
    let (left, right) = root.split(33);
    assert!(Rc::ptr_eq(&left.0, &root.0));
    assert!(!right.is_not_none());
}

#[test]
fn split_shares_the_leaves_it_does_not_cut() {
    let first = leaf("hello ");
    let second = leaf("world! ");
    let root = node(first.share(), second.share(), 6);
    let (left, right) = root.split(6);
    assert!(Rc::ptr_eq(&left.0, &first.0));
    assert!(Rc::ptr_eq(&right.0, &second.0));
}

#[test]
fn delete_is_two_splits_and_a_concat() {
    let root = four_leaves();
    for (start, len) in [(0, 6), (3, 5), (6, 7), (9, 100), (40, 2), (5, 0)] {
        let (left, _) = root.split(start);
        let (_, right) = root.split(start + len);
        assert_eq!(
            root.delete(start, len).to_string(),
            left.concat(right).to_string()
        );
    }
}

#[test]
fn delete_takes_out_the_window() {
    let root = four_leaves();
    assert_eq!(text_of(&root.delete(3, 5)), "helrld! My nameis sugondese");
    assert_eq!(text_of(&root.delete(0, 13)), "My nameis sugondese");
    assert_eq!(text_of(&root.delete(30, 100)), &TEXT[..30]);
    assert_eq!(text_of(&root.delete(32, 1)), TEXT);
    assert_eq!(text_of(&root.delete(7, 0)), TEXT);
    assert_eq!(text_of(&root.delete(4, usize::MAX)), "hell");
}

#[test]
fn delete_first_leaf_of_two() {
    let mut rope = Rope::new(two_leaves());
    rope.delete(0, 6);
    assert_eq!(
        rope.to_string(),
        r#"Node(Left: None, Right: Leaf("world! "))"#
    );
    let root = two_leaves();
    assert_eq!(
        root.delete(0, 6).to_string(),
        r#"Node(Left: None, Right: Leaf("world! "))"#
    );
}

#[test]
fn insert_new_leaf_at_six() {
    let mut rope = Rope::new(two_leaves());
    rope.insert(6, String::from("new_leaf"));
    assert_eq!(
        rope.to_string(),
        r#"Node(Left: Node(Left: Leaf("hello "), Right: Leaf("new_leaf")), Right: Leaf("world! "))"#
    );
}

#[test]
fn insert_on_a_node_does_not_rebalance() {
    let root = two_leaves();
    assert_eq!(
        root.insert(9, String::from("new_leaf")).to_string(),
        r#"Node(Left: Node(Left: Node(Left: Leaf("hello "), Right: Leaf("wor")), Right: Leaf("new_leaf")), Right: Leaf("ld! "))"#
    );
}

#[test]
fn insert_puts_the_text_at_the_index() {
    let root = four_leaves();
    assert_eq!(
        text_of(&root.insert(0, String::from("++"))),
        "++hello world! My nameis sugondese"
    );
    assert_eq!(
        text_of(&root.insert(8, String::from("++"))),
        "hello wo++rld! My nameis sugondese"
    );
    assert_eq!(
        text_of(&root.insert(32, String::from("++"))),
        "hello world! My nameis sugondese++"
    );
    assert_eq!(
        text_of(&root.insert(1000, String::from("++"))),
        "hello world! My nameis sugondese++"
    );
}

#[test]
fn insert_into_an_empty_rope() {
    let mut rope = Rope::new(RopeNode::empty());
    rope.insert(0, String::from("abc"));
    assert_eq!(rope.to_string(), r#"Leaf("abc")"#);
    assert_eq!(rope.len(), 3);
    assert!(rope.is_balanced());
}

#[test]
fn substring_of_nothing_is_empty() {
    let rope = Rope::new(four_leaves());
    assert_eq!(rope.substring(0, 0).to_string(), "None");
    assert_eq!(rope.substring(5, 0).to_string(), "None");
    assert_eq!(rope.substring(32, 4).to_string(), "None");
    assert_eq!(rope.substring(100, 4).to_string(), "None");
    assert_eq!(Rope::new(RopeNode::empty()).substring(0, 3).to_string(), "None");
}

#[test]
fn substring_is_cut_off_at_the_end_of_the_text() {
    let rope = Rope::new(four_leaves());
    assert_eq!(rope.substring(30, 100).to_string(), r#"Leaf("se")"#);
    assert_eq!(
        rope.substring(0, 600).to_string(),
        r#"Node(Left: Node(Left: Leaf("hello "), Right: Leaf("world! ")), Right: Node(Left: Leaf("My name"), Right: Leaf("is sugondese")))"#
    );
    assert_eq!(rope.substring(4, usize::MAX).len(), 28);
}

#[test]
fn substring_inside_one_leaf() {
    let root = four_leaves();
    assert_eq!(root.substring(7, 3).to_string(), r#"Leaf("orl")"#);
    assert_eq!(root.substring(6, 7).to_string(), r#"Leaf("world! ")"#);
    assert_eq!(
        root.substring(5, 2).to_string(),
        r#"Node(Left: Leaf(" "), Right: Leaf("w"))"#
    );
}

#[test]
fn substring_shares_the_leaves_that_lie_inside() {
    let first = leaf("hello ");
    let second = leaf("world! ");
    let root = node(first.share(), second.share(), 6);
    let part = root.substring(0, 8);
    match &*part.0 {
        RopeNodeType::Node(inner) => {
            assert!(Rc::ptr_eq(&inner.left.0, &first.0));
            assert_eq!(inner.right.to_string(), r#"Leaf("wo")"#);
            assert_eq!(inner.weight, 6);
        }
        _ => panic!("an internal node was expected"),
    }
}

#[test]
fn substring_agrees_with_the_text() {
    let root = four_leaves();
    for start in 0..35 {
        for len in 0..35 {
            let from = start.min(32);
            let to = (start + len).min(32);
            assert_eq!(text_of(&root.substring(start, len)), &TEXT[from..to]);
        }
    }
}

#[test]
fn rebuild_of_no_leaf_is_empty() {
    assert_eq!(RopeNode::from_iter(Vec::new()).to_string(), "None");
    assert_eq!(Rope::from_iter(Vec::new()).to_string(), "None");
}

#[test]
fn rebuild_of_one_leaf_is_that_leaf() {
    let only = leaf("abc");
    let built = RopeNode::from_iter(vec![only.share()]);
    assert!(Rc::ptr_eq(&built.0, &only.0));
    assert_eq!(Rope::from_iter(vec![only]).to_string(), r#"Leaf("abc")"#);
}

#[test]
fn rebuild_pairs_neighbours_round_by_round() {
    let leaves = |count: usize| -> Vec<RopeNode> {
        ["a", "b", "c", "d", "e", "f", "g"][..count]
            .iter()
            .map(|text| leaf(text))
            .collect()
    };
    assert_eq!(
        RopeNode::from_iter(leaves(2)).to_string(),
        r#"Node(Left: Leaf("a"), Right: Leaf("b"))"#
    );
    assert_eq!(
        RopeNode::from_iter(leaves(3)).to_string(),
        r#"Node(Left: Node(Left: Leaf("a"), Right: Leaf("b")), Right: Leaf("c"))"#
    );
    assert_eq!(
        RopeNode::from_iter(leaves(5)).to_string(),
        r#"Node(Left: Node(Left: Node(Left: Leaf("a"), Right: Leaf("b")), Right: Node(Left: Leaf("c"), Right: Leaf("d"))), Right: Leaf("e"))"#
    );
    assert_eq!(
        RopeNode::from_iter(leaves(7)).to_string(),
        r#"Node(Left: Node(Left: Node(Left: Leaf("a"), Right: Leaf("b")), Right: Node(Left: Leaf("c"), Right: Leaf("d"))), Right: Node(Left: Node(Left: Leaf("e"), Right: Leaf("f")), Right: Leaf("g")))"#
    );
}

#[test]
fn rebuild_records_true_weights() {
    let built = RopeNode::from_iter(vec![leaf("ab"), leaf("cde"), leaf("f"), leaf("gh")]);
    match &*built.0 {
        RopeNodeType::Node(root) => {
            assert_eq!(root.weight, 5);
            match &*root.left.0 {
                RopeNodeType::Node(left) => assert_eq!(left.weight, 2),
                _ => panic!("an internal node was expected"),
            }
            match &*root.right.0 {
                RopeNodeType::Node(right) => assert_eq!(right.weight, 1),
                _ => panic!("an internal node was expected"),
            }
        }
        _ => panic!("an internal node was expected"),
    }
    let chars: Vec<char> = "abcdefgh".chars().collect();
    for (index, expected) in chars.iter().enumerate() {
        assert_eq!(built.get_char(index), Some(*expected));
    }
}

#[test]
fn rebuild_leaves_out_empty_leaves_and_other_nodes() {
    let built = RopeNode::from_iter(vec![
        leaf(""),
        leaf("a"),
        RopeNode::empty(),
        node(leaf("x"), leaf("y"), 1),
        leaf(""),
        leaf("b"),
        leaf(""),
    ]);
    assert_eq!(built.to_string(), r#"Node(Left: Leaf("a"), Right: Leaf("b"))"#);
}

#[test]
fn rebalance_twice_is_rebalance_once() {
    let root = node(
        node(node(leaf("a"), node(leaf("b"), leaf("c"), 1), 1), leaf("d"), 3),
        RopeNode::empty(),
        4,
    );
    let once = root.rebalance();
    let twice = once.rebalance();
    assert_eq!(
        once.to_string(),
        r#"Node(Left: Node(Left: Leaf("a"), Right: Leaf("b")), Right: Node(Left: Leaf("c"), Right: Leaf("d")))"#
    );
    assert_eq!(once.to_string(), twice.to_string());
    assert_eq!(leaf_texts(once.iter()), leaf_texts(twice.iter()));
}

#[test]
fn rebalance_keeps_text_leaves_and_characters() {
    let root = node(four_leaves(), RopeNode::empty(), 32);
    let balanced = root.rebalance();
    assert_eq!(leaf_texts(balanced.iter()), leaf_texts(root.iter()));
    assert_eq!(text_of(&balanced), TEXT);
    for index in 0..34 {
        assert_eq!(balanced.get_char(index), root.get_char(index));
    }
}

#[test]
fn rebalance_of_an_unbalanced_tree_drops_empty_leaves() {
    let root = node(
        node(node(leaf("ab"), leaf(""), 2), leaf("cd"), 2),
        RopeNode::empty(),
        4,
    );
    assert!(!root.is_balanced());
    assert_eq!(
        root.rebalance().to_string(),
        r#"Node(Left: Leaf("ab"), Right: Leaf("cd"))"#
    );
}

#[test]
fn rebalance_leaves_a_balanced_tree_alone() {
    let right_heavy = node(leaf("a"), node(leaf("b"), leaf("c"), 1), 1);
    assert!(right_heavy.is_balanced());
    let same = right_heavy.rebalance();
    assert!(Rc::ptr_eq(&same.0, &right_heavy.0));
    assert_eq!(
        same.to_string(),
        r#"Node(Left: Leaf("a"), Right: Node(Left: Leaf("b"), Right: Leaf("c")))"#
    );

    let with_empty_leaf = node(node(leaf("ab"), leaf(""), 2), leaf("cd"), 2);
    assert!(with_empty_leaf.is_balanced());
    assert_eq!(
        with_empty_leaf.rebalance().to_string(),
        r#"Node(Left: Node(Left: Leaf("ab"), Right: Leaf("")), Right: Leaf("cd"))"#
    );

    let wrong_weights = node(leaf("ab"), leaf("cd"), 1);
    assert!(wrong_weights.is_balanced());
    let kept = wrong_weights.rebalance();
    assert!(Rc::ptr_eq(&kept.0, &wrong_weights.0));
    assert_eq!(kept.get_char(1), Some('c'));

    let single = leaf("abc");
    assert!(Rc::ptr_eq(&single.rebalance().0, &single.0));
}

#[test]
fn rebalance_of_an_unbalanced_tree_mends_the_weights() {
    let root = node(
        node(
            node(leaf("hello"), leaf("world"), 5),
            node(leaf("My name"), leaf("is sugondese"), 5),
            5,
        ),
        RopeNode::empty(),
        29,
    );
    assert!(!root.is_balanced());
    assert_eq!(root.get_char(5), Some('M'));
    let balanced = root.rebalance();
    assert_eq!(balanced.get_char(5), Some('w'));
    assert_eq!(balanced.get_char(10), Some('M'));
}

#[test]
fn rope_is_balanced_after_rebalance() {
    let mut deep = Rope::new(node(four_leaves(), RopeNode::empty(), 32));
    assert!(!deep.is_balanced());
    deep.rebalance();
    assert!(deep.is_balanced());
    let before = deep.to_string();
    deep.rebalance();
    assert_eq!(deep.to_string(), before);

    let mut single = Rope::new(leaf("abc"));
    assert_eq!(single.to_string(), r#"Node(Left: Leaf("abc"), Right: None)"#);
    assert!(!single.is_balanced());
    single.rebalance();
    assert_eq!(single.to_string(), r#"Leaf("abc")"#);
    assert!(single.is_balanced());
}

#[test]
fn rebalance_leaves_a_balanced_rope_alone() {
    let root = node(leaf("ab"), leaf(""), 2);
    let mut rope = Rope::new(root);
    assert!(rope.is_balanced());
    rope.rebalance();
    assert_eq!(rope.to_string(), r#"Node(Left: Leaf("ab"), Right: Leaf(""))"#);
}

#[test]
fn empty_rope_is_never_balanced() {
    let mut rope = Rope::new(RopeNode::empty());
    assert!(!rope.is_balanced());
    rope.rebalance();
    assert_eq!(rope.to_string(), "None");
    assert!(!rope.is_balanced());
    assert_eq!(rope.len(), 0);
    assert_eq!(rope.get_char(0), None);
}

#[test]
fn balance_is_leaf_count_against_fibonacci() {
    assert!(leaf("a").is_balanced());
    assert!(!RopeNode::empty().is_balanced());
    assert!(node(leaf("a"), leaf("b"), 1).is_balanced());
    assert!(!node(leaf("a"), RopeNode::empty(), 1).is_balanced());
    let three_deep_two = node(node(leaf("a"), leaf("b"), 1), leaf("c"), 2);
    assert_eq!(three_deep_two.get_depth(), 2);
    assert!(three_deep_two.is_balanced());
    let four_deep_three = node(three_deep_two, leaf("d"), 3);
    assert_eq!(four_deep_three.get_depth(), 3);
    assert!(!four_deep_three.is_balanced());
    let five_deep_three = node(
        node(node(leaf("a"), leaf("b"), 1), leaf("c"), 2),
        node(leaf("d"), leaf("e"), 1),
        3,
    );
    assert_eq!(five_deep_three.get_depth(), 3);
    assert!(five_deep_three.is_balanced());
}

#[test]
fn depth_of_leaf_and_of_nothing_is_zero() {
    assert_eq!(leaf("abc").get_depth(), 0);
    assert_eq!(RopeNode::empty().get_depth(), 0);
    assert_eq!(node(RopeNode::empty(), RopeNode::empty(), 0).get_depth(), 1);
    assert_eq!(four_leaves().get_depth(), 2);
}

#[test]
fn new_rope_wraps_a_lone_leaf() {
    let rope = Rope::new(leaf("abc"));
    assert_eq!(rope.to_string(), r#"Node(Left: Leaf("abc"), Right: None)"#);
    assert_eq!(rope.get_char(2), Some('c'));
    assert_eq!(rope.get_char(3), None);
    assert_eq!(rope.len(), 3);
    assert_eq!(Rope::new(RopeNode::empty()).to_string(), "None");
    let inner = node(leaf("a"), leaf("b"), 1);
    assert_eq!(
        Rope::new(inner).to_string(),
        r#"Node(Left: Leaf("a"), Right: Leaf("b"))"#
    );
}

#[test]
fn traversal_passes_over_absent_children() {
    let root = node(
        node(RopeNode::empty(), leaf("a"), 0),
        node(
            node(RopeNode::empty(), RopeNode::empty(), 0),
            node(leaf("b"), RopeNode::empty(), 1),
            0,
        ),
        1,
    );
    assert_eq!(leaf_texts(root.iter()), vec!["a", "b"]);
    assert_eq!(root.len(), 2);
}

#[test]
fn traversal_of_leaf_and_of_nothing() {
    assert_eq!(leaf_texts(leaf("abc").iter()), vec!["abc"]);
    assert!(leaf_texts(RopeNode::empty().iter()).is_empty());
    assert!(leaf_texts(node(RopeNode::empty(), RopeNode::empty(), 0).iter()).is_empty());
}

#[test]
fn traversal_yields_empty_leaves_too() {
    let root = node(leaf(""), node(leaf("a"), leaf(""), 1), 0);
    assert_eq!(leaf_texts(root.iter()), vec!["", "a", ""]);
}

#[test]
fn traversal_stays_exhausted() {
    let root = node(leaf("a"), leaf("b"), 1);
    let mut iter = root.iter();
    assert!(iter.next().is_some());
    assert!(iter.next().is_some());
    assert!(iter.next().is_none());
    assert!(iter.next().is_none());
}

#[test]
fn traversal_of_a_deep_left_spine() {
    let mut root = leaf("x");
    for _ in 0..1000 {
        root = node(root, RopeNode::empty(), 1);
    }
    let mut iter = root.iter();
    assert_eq!(iter.next().unwrap().map_leaf().unwrap().value, "x");
    assert!(iter.next().is_none());
}

#[test]
fn positions_count_characters() {
    let root = node(leaf("h\u{e9}llo "), leaf("w\u{f6}rld"), 6);
    assert_eq!(root.len(), 11);
    assert_eq!(root.get_char(1), Some('\u{e9}'));
    assert_eq!(root.get_char(7), Some('\u{f6}'));
    let (left, right) = root.split(2);
    assert_eq!(left.to_string(), "Leaf(\"h\u{e9}\")");
    assert_eq!(
        right.to_string(),
        "Node(Left: Leaf(\"llo \"), Right: Leaf(\"w\u{f6}rld\"))"
    );
    assert_eq!(root.substring(1, 7).len(), 7);
    assert_eq!(text_of(&root.substring(1, 7)), "\u{e9}llo w\u{f6}");
}

#[test]
fn map_leaf_and_is_not_none() {
    assert_eq!(leaf("abc").map_leaf().unwrap().value, "abc");
    assert!(RopeNode::empty().map_leaf().is_none());
    assert!(node(leaf("a"), leaf("b"), 1).map_leaf().is_none());
    assert!(leaf("abc").is_not_none());
    assert!(node(leaf("a"), leaf("b"), 1).is_not_none());
    assert!(!RopeNode::empty().is_not_none());
}

#[test]
fn render_of_each_kind_of_node() {
    assert_eq!(RopeNode::empty().to_string(), "None");
    assert_eq!(leaf("").to_string(), r#"Leaf("")"#);
    assert_eq!(leaf("a b").to_string(), r#"Leaf("a b")"#);
    assert_eq!(
        node(RopeNode::empty(), leaf("x"), 0).to_string(),
        r#"Node(Left: None, Right: Leaf("x"))"#
    );
}

#[test]
fn node_from_a_shared_pointer() {
    let shared = Rc::new(RopeNodeType::Leaf(data_structures::rope_node::Leaf {
        value: String::from("abc"),
    }));
    let from = RopeNode::from(Rc::clone(&shared));
    assert!(Rc::ptr_eq(&from.0, &shared));
    let into: RopeNode = shared.into();
    assert_eq!(into.to_string(), r#"Leaf("abc")"#);
    assert!(Rc::ptr_eq(&into.share().0, &from.0));
}

#[test]
fn insert_of_an_empty_text_adds_an_empty_leaf() {
    let root = node(leaf("ab"), leaf("cd"), 2);
    let inserted = root.insert(2, String::new());
    assert_eq!(
        inserted.to_string(),
        r#"Node(Left: Node(Left: Leaf("ab"), Right: Leaf("")), Right: Leaf("cd"))"#
    );
    assert_eq!(text_of(&inserted), "abcd");
    assert_eq!(
        RopeNode::from_iter(leaf_nodes(&inserted)).to_string(),
        r#"Node(Left: Leaf("ab"), Right: Leaf("cd"))"#
    );
}
