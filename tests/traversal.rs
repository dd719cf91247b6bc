use arboriter::{traverse_tree, BinaryNode, TreeControl};
use std::cell::Cell;

fn sample_binary_tree() -> BinaryNode<i32> {
    BinaryNode::with_children(
        1,
        Some(Box::new(BinaryNode::with_children(
            2,
            Some(Box::new(BinaryNode::new(4))),
            Some(Box::new(BinaryNode::new(5))),
        ))),
        Some(Box::new(BinaryNode::with_children(
            3,
            None,
            Some(Box::new(BinaryNode::new(6))),
        ))),
    )
}

fn binary_children<'a>(node: &&'a BinaryNode<i32>) -> Vec<&'a BinaryNode<i32>> {
    let mut children = Vec::new();
    if let Some(left) = &node.left {
        children.push(left.as_ref());
    }
    if let Some(right) = &node.right {
        children.push(right.as_ref());
    }
    children
}

#[test]
fn test_binary_tree() {
    let root = sample_binary_tree();
    let values = traverse_tree(
        &root,
        Vec::new(),
        |_: &&BinaryNode<i32>| true,
        binary_children,
        |mut values: Vec<i32>, node: &&BinaryNode<i32>| {
            values.push(node.value);
            (values, TreeControl::Continue)
        },
    );
    assert_eq!(values, vec![1, 2, 4, 5, 3, 6]);
}

#[test]
fn test_string_generation() {
    let strings = traverse_tree(
        String::new(),
        Vec::new(),
        |s: &String| s.len() <= 2,
        |s: &String| {
            let mut branches = Vec::new();
            branches.push(format!("{}a", s));
            branches.push(format!("{}b", s));
            branches
        },
        |mut strings: Vec<String>, s: &String| {
            strings.push(s.clone());
            if s.len() == 2 {
                (strings, TreeControl::Prune)
            } else {
                (strings, TreeControl::Continue)
            }
        },
    );
    let expected = vec!["", "a", "aa", "ab", "b", "ba", "bb"];
    assert_eq!(strings, expected);
}

#[test]
fn test_break() {
    let count = traverse_tree(
        0,
        0u32,
        |n: &i32| *n < 10,
        |n: &i32| vec![*n + 1],
        |count: u32, n: &i32| {
            if *n >= 5 {
                (count + 1, TreeControl::Break)
            } else {
                (count + 1, TreeControl::Continue)
            }
        },
    );
    assert_eq!(count, 6);
}

#[test]
fn test_prune() {
    let root = sample_binary_tree();
    let values = traverse_tree(
        &root,
        Vec::new(),
        |_: &&BinaryNode<i32>| true,
        binary_children,
        |mut values: Vec<i32>, node: &&BinaryNode<i32>| {
            values.push(node.value);
            if node.value == 2 {
                (values, TreeControl::Prune)
            } else {
                (values, TreeControl::Continue)
            }
        },
    );
    assert_eq!(values, vec![1, 2, 3, 6]);
}

/// Collects every visited node of an integer tree, with the signal chosen by `signal`.
fn visited_numbers(
    root: u32,
    condition: impl Fn(&u32) -> bool,
    branch: impl Fn(&u32) -> Vec<u32>,
    signal: impl Fn(u32) -> TreeControl,
) -> Vec<u32> {
    traverse_tree(root, Vec::new(), condition, branch, |mut seen: Vec<u32>, n: &u32| {
        seen.push(*n);
        (seen, signal(*n))
    })
}

#[test]
fn doubling_tree_prunes_even_nodes() {
    let seen = visited_numbers(
        1,
        |n| *n < 8,
        |n| vec![2 * n, 2 * n + 1],
        |n| if n % 2 == 0 { TreeControl::Prune } else { TreeControl::Continue },
    );
    assert_eq!(seen, vec![1, 2, 3, 6, 7]);
}

#[test]
fn chain_breaks_after_six_visits() {
    let seen = visited_numbers(
        0,
        |n| *n <= 10,
        |n| vec![n + 1],
        |n| if n >= 5 { TreeControl::Break } else { TreeControl::Continue },
    );
    assert_eq!(seen, vec![0, 1, 2, 3, 4, 5]);
}

#[test]
fn ineligible_root_calls_nothing() {
    let branch_calls = Cell::new(0u32);
    let visit_calls = Cell::new(0u32);
    let seen = traverse_tree(
        11u32,
        Vec::new(),
        |n: &u32| *n < 8,
        |n: &u32| {
            branch_calls.set(branch_calls.get() + 1);
            vec![2 * n, 2 * n + 1]
        },
        |mut seen: Vec<u32>, n: &u32| {
            visit_calls.set(visit_calls.get() + 1);
            seen.push(*n);
            (seen, TreeControl::Continue)
        },
    );
    assert!(seen.is_empty());
    assert_eq!(branch_calls.get(), 0);
    assert_eq!(visit_calls.get(), 0);
}

/// The tree 1 -> [2, 3], 2 -> [4, 5], 3 -> [6, 7].
fn seven_node_children(n: &u32) -> Vec<u32> {
    if *n < 4 {
        vec![2 * n, 2 * n + 1]
    } else {
        vec![]
    }
}

#[test]
fn full_tree_is_visited_once_in_preorder() {
    let seen = visited_numbers(1, |_| true, seven_node_children, |_| TreeControl::Continue);
    assert_eq!(seen, vec![1, 2, 4, 5, 3, 6, 7]);
}

#[test]
fn prune_skips_exactly_one_subtree() {
    let seen = visited_numbers(1, |_| true, seven_node_children, |n| {
        if n == 2 {
            TreeControl::Prune
        } else {
            TreeControl::Continue
        }
    });
    assert_eq!(seen, vec![1, 2, 3, 6, 7]);
}

#[test]
fn break_stops_siblings_and_ancestors_siblings() {
    let seen = visited_numbers(1, |_| true, seven_node_children, |n| {
        if n == 4 {
            TreeControl::Break
        } else {
            TreeControl::Continue
        }
    });
    assert_eq!(seen, vec![1, 2, 4]);
}

#[test]
fn break_at_root_visits_root_only() {
    let seen = visited_numbers(1, |_| true, |n| vec![n + 1], |_| TreeControl::Break);
    assert_eq!(seen, vec![1]);
}

#[test]
fn leaf_root_is_visited_once() {
    let seen = visited_numbers(9, |_| true, |_| vec![], |_| TreeControl::Continue);
    assert_eq!(seen, vec![9]);
}

#[test]
fn children_keep_branch_order() {
    // 1 -> [3, 2], 2 -> [4, 3]: children listed in decreasing order
    let reversed = |n: &u32| if *n < 3 { vec![n + 2, n + 1] } else { vec![] };
    let seen = visited_numbers(1, |_| true, reversed, |_| TreeControl::Continue);
    assert_eq!(seen, vec![1, 3, 2, 4, 3]);
}

#[test]
fn ineligible_children_are_skipped() {
    // 3 is not eligible, so neither it nor its children are visited
    let seen = visited_numbers(1, |n| n % 3 != 0, seven_node_children, |_| TreeControl::Continue);
    assert_eq!(seen, vec![1, 2, 4, 5]);
}

#[test]
fn state_follows_visits_in_order() {
    let total = traverse_tree(
        1u64,
        0u64,
        |n: &u64| *n < 8,
        |n: &u64| vec![2 * n, 2 * n + 1],
        |acc: u64, n: &u64| (acc * 10 + n, TreeControl::Continue),
    );
    // pre-order 1, 2, 4, 5, 3, 6, 7
    assert_eq!(total, 1245367);
}
