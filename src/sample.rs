//! Walks over binary trees: collecting values, and searching with an early
//! stop.

use vstd::prelude::*;
use crate::binary::{
    BinaryNode, binary_kids, every_node, slot_walk, value_of, lemma_binary_bounded,
    lemma_binary_preorder_values, lemma_binary_walk_children,
};
use crate::control::TreeControl;
use crate::levels::leveled;
use crate::laws::{
    breaking_traversal_stops_at_first_halt, continuing_traversal_visits_preorder, first_where,
    lemma_replay_collects, lemma_walk_replays, preorder, tree_preorder,
};
use crate::model::{traversal, walk};
use crate::traverse::{traverse_by_model, views};

verus! {

/// The visitor that collects a reference to each value and always continues.
pub open spec fn collect_step<'a, T>() -> spec_fn(Seq<&'a T>, BinaryNode<T>) -> (
    Seq<&'a T>,
    TreeControl,
) {
    |v: Seq<&'a T>, n: BinaryNode<T>| (v.push(&n.value), TreeControl::Continue)
}

/// The values of the tree below `root`, in pre-order: each node before its
/// left subtree, and that before its right subtree.
pub fn preorder_values<'a, T>(root: &'a BinaryNode<T>) -> (r: Vec<&'a T>)
    ensures
        r@.map_values(|x: &'a T| *x) == root.values(),
{
    let ghost step = collect_step::<'a, T>();
    let condition = |n: &&'a BinaryNode<T>| -> (r: bool)
        ensures
            r,
        { true };
    let branch_fn = |n: &&'a BinaryNode<T>| -> (r: Vec<&'a BinaryNode<T>>)
        ensures
            views(r@) == n.child_nodes(),
        { n.children() };
    let visit_fn = |acc: Vec<&'a T>, n: &&'a BinaryNode<T>| -> (r: (Vec<&'a T>, TreeControl))
        ensures
            r.0@ == acc@.push(&n.value),
            r.1 == TreeControl::Continue,
        {
            let mut acc = acc;
            acc.push(&n.value);
            (acc, TreeControl::Continue)
        };
    let ghost h = root.height();
    proof {
        lemma_binary_bounded(every_node(), *root);
    }
    let empty: Vec<&'a T> = Vec::new();
    assert(empty@ == Seq::<&'a T>::empty());
    let r = traverse_by_model(
        root,
        empty,
        condition,
        branch_fn,
        visit_fn,
        Ghost(every_node()),
        Ghost(binary_kids()),
        Ghost(step),
        Ghost(h),
    );
    proof {
        let out = traversal(every_node(), binary_kids(), step, *root, Seq::empty(), h);
        continuing_traversal_visits_preorder(
            every_node(),
            binary_kids(),
            step,
            *root,
            Seq::empty(),
            h,
        );
        lemma_walk_replays(every_node(), binary_kids(), step, *root, Seq::empty(), h);
        lemma_replay_collects(step, |n: BinaryNode<T>| &n.value, Seq::empty(), out.visited);
        lemma_binary_preorder_values(*root, h);
        let pre = preorder(every_node(), binary_kids(), *root, h);
        assert(r@ =~= pre.map_values(|n: BinaryNode<T>| &n.value));
        assert(r@.map_values(|x: &'a T| *x) =~= pre.map_values(value_of()));
    }
    r
}

/// Where `x` occurs in `xs`, it has a first occurrence.
pub proof fn lemma_first_occurrence(xs: Seq<i32>, x: i32, j: int)
    requires
        0 <= j < xs.len(),
        xs[j] == x,
    ensures
        exists|p: int| 0 <= p <= j && first_index(xs, x, p),
    decreases j,
{
    if exists|i: int| 0 <= i < j && xs[i] == x {
        let i = choose|i: int| 0 <= i < j && xs[i] == x;
        lemma_first_occurrence(xs, x, i);
    } else {
        assert(first_index(xs, x, j));
    }
}

/// The visitor that records each value and breaks at `target`.
pub open spec fn search_step(target: i32) -> spec_fn(Seq<i32>, BinaryNode<i32>) -> (
    Seq<i32>,
    TreeControl,
) {
    |v: Seq<i32>, n: BinaryNode<i32>|
        (
            v.push(n.value),
            if n.value == target {
                TreeControl::Break
            } else {
                TreeControl::Continue
            },
        )
}

/// `p` is the first position of `x` in `xs`.
pub open spec fn first_index(xs: Seq<i32>, x: i32, p: int) -> bool {
    0 <= p < xs.len() && xs[p] == x && forall|i: int| 0 <= i < p ==> xs[i] != x
}

/// The search from `root` records the values in pre-order up to and including
/// the first `target`, or all of them where there is none.
pub proof fn lemma_search(root: BinaryNode<i32>, target: i32)
    ensures
        ({
            let found = traversal(
                every_node(),
                binary_kids(),
                search_step(target),
                root,
                Seq::empty(),
                root.height(),
            ).state;
            let vals = root.values();
            &&& forall|p: int| first_index(vals, target, p) ==> found == vals.take(p + 1)
            &&& !vals.contains(target) ==> found == vals
        }),
{
    let h = root.height();
    let step = search_step(target);
    let halt = |n: BinaryNode<i32>| n.value == target;
    let vals = root.values();
    let out = traversal(every_node(), binary_kids(), step, root, Seq::empty(), h);
    let full = tree_preorder(every_node(), binary_kids(), root, h);
    lemma_binary_bounded(every_node(), root);
    breaking_traversal_stops_at_first_halt(
        every_node(),
        binary_kids(),
        step,
        halt,
        root,
        Seq::empty(),
        h,
    );
    lemma_walk_replays(every_node(), binary_kids(), step, root, Seq::empty(), h);
    lemma_replay_collects(step, value_of(), Seq::empty(), out.visited);
    lemma_binary_preorder_values(root, h);
    assert(full.map_values(value_of()) == vals);
    assert(out.state =~= out.visited.map_values(value_of()));
    assert forall|p: int| first_index(vals, target, p) implies out.state == vals.take(p + 1) by {
        assert(first_where(full, halt, p)) by {
            assert forall|i: int| 0 <= i < p implies !halt(full[i]) by {
                assert(vals[i] == full[i].value);
            }
            assert(vals[p] == full[p].value);
        }
        assert(full.take(p + 1).map_values(value_of()) =~= vals.take(p + 1));
    }
    if !vals.contains(target) {
        assert forall|i: int| 0 <= i < full.len() implies !halt(#[trigger] full[i]) by {
            assert(vals[i] == full[i].value);
        }
    }
}

/// Searches the tree below `root` for `target` in pre-order, stopping at the
/// first node that holds it. Returns the values checked, in order, and
/// whether `target` was found.
pub fn find_value<'a>(root: &'a BinaryNode<i32>, target: i32) -> (r: (Vec<i32>, bool))
    ensures
        r.1 == root.values().contains(target),
        forall|p: int| first_index(root.values(), target, p) ==> r.0@ == root.values().take(p + 1),
        !root.values().contains(target) ==> r.0@ == root.values(),
{
    let condition = |n: &&'a BinaryNode<i32>| -> (r: bool)
        ensures
            r,
        { true };
    let branch_fn = |n: &&'a BinaryNode<i32>| -> (r: Vec<&'a BinaryNode<i32>>)
        ensures
            views(r@) == n.child_nodes(),
        { n.children() };
    let visit_fn = |acc: Vec<i32>, n: &&'a BinaryNode<i32>| -> (r: (Vec<i32>, TreeControl))
        ensures
            r.0@ == acc@.push(n.value),
            r.1 == (if n.value == target {
                TreeControl::Break
            } else {
                TreeControl::Continue
            }),
        {
            let mut acc = acc;
            acc.push(n.value);
            if n.value == target {
                (acc, TreeControl::Break)
            } else {
                (acc, TreeControl::Continue)
            }
        };
    proof {
        lemma_binary_bounded(every_node(), *root);
        lemma_search(*root, target);
    }
    let empty: Vec<i32> = Vec::new();
    assert(empty@ == Seq::<i32>::empty());
    let checked = traverse_by_model(
        root,
        empty,
        condition,
        branch_fn,
        visit_fn,
        Ghost(every_node()),
        Ghost(binary_kids()),
        Ghost(search_step(target)),
        Ghost(root.height()),
    );
    let found = checked.len() > 0 && checked[checked.len() - 1] == target;
    proof {
        let vals = root.values();
        if vals.contains(target) {
            let j = choose|j: int| 0 <= j < vals.len() && vals[j] == target;
            lemma_first_occurrence(vals, target, j);
            let p = choose|p: int| 0 <= p <= j && first_index(vals, target, p);
            assert(checked@ == vals.take(p + 1));
        }
    }
    (checked, found)
}

/// The values that a walk pruning at negative values visits below `n`: a
/// negative node stands alone, the others are followed by what their left,
/// then right, subtrees give.
pub open spec fn kept_values(n: BinaryNode<i32>) -> Seq<i32>
    decreases n,
{
    if n.value < 0 {
        seq![n.value]
    } else {
        let l = match n.left {
            Some(b) => kept_values(*b),
            None => Seq::empty(),
        };
        let r = match n.right {
            Some(b) => kept_values(*b),
            None => Seq::empty(),
        };
        seq![n.value] + l + r
    }
}

/// The visitor that records each value and prunes at negative ones.
pub open spec fn prune_step() -> spec_fn(Seq<i32>, BinaryNode<i32>) -> (
    Seq<i32>,
    TreeControl,
) {
    |v: Seq<i32>, n: BinaryNode<i32>|
        (
            v.push(n.value),
            if n.value < 0 {
                TreeControl::Prune
            } else {
                TreeControl::Continue
            },
        )
}

/// The walk that prunes at negative values appends `kept_values` to its state.
pub proof fn lemma_pruning_walk(n: BinaryNode<i32>, s: Seq<i32>, h: nat)
    requires
        n.height() <= h,
    ensures
        walk(every_node(), binary_kids(), prune_step(), n, s, h).state == s + kept_values(n),
        !walk(every_node(), binary_kids(), prune_step(), n, s, h).stopped,
    decreases n,
{
    let g = (h - 1) as nat;
    let s1 = s.push(n.value);
    if n.value < 0 {
        assert(s1 =~= s + seq![n.value]);
    } else {
        lemma_binary_walk_children(every_node(), prune_step(), n, s1, g);
        let a = slot_walk(every_node(), prune_step(), n.left, s1, g);
        let kl = match n.left {
            Some(b) => kept_values(*b),
            None => Seq::empty(),
        };
        let kr = match n.right {
            Some(b) => kept_values(*b),
            None => Seq::empty(),
        };
        match n.left {
            Some(b) => lemma_pruning_walk(*b, s1, g),
            None => {},
        }
        assert(a.state == s1 + kl && !a.stopped) by {
            if n.left is None {
                assert(s1 + kl =~= s1);
            }
        }
        let b = slot_walk(every_node(), prune_step(), n.right, a.state, g);
        match n.right {
            Some(c) => lemma_pruning_walk(*c, a.state, g),
            None => {},
        }
        assert(b.state == a.state + kr && !b.stopped) by {
            if n.right is None {
                assert(a.state + kr =~= a.state);
            }
        }
        assert(s1 + kl + kr =~= s + kept_values(n));
    }
}

/// Walks the tree below `root` in pre-order, not descending below negative
/// values; returns the values visited.
pub fn prune_negative<'a>(root: &'a BinaryNode<i32>) -> (r: Vec<i32>)
    ensures
        r@ == kept_values(*root),
{
    let condition = |n: &&'a BinaryNode<i32>| -> (r: bool)
        ensures
            r,
        { true };
    let branch_fn = |n: &&'a BinaryNode<i32>| -> (r: Vec<&'a BinaryNode<i32>>)
        ensures
            views(r@) == n.child_nodes(),
        { n.children() };
    let visit_fn = |acc: Vec<i32>, n: &&'a BinaryNode<i32>| -> (r: (Vec<i32>, TreeControl))
        ensures
            r.0@ == acc@.push(n.value),
            r.1 == (if n.value < 0 {
                TreeControl::Prune
            } else {
                TreeControl::Continue
            }),
        {
            let mut acc = acc;
            acc.push(n.value);
            if n.value < 0 {
                (acc, TreeControl::Prune)
            } else {
                (acc, TreeControl::Continue)
            }
        };
    proof {
        lemma_binary_bounded(every_node(), *root);
        lemma_pruning_walk(*root, Seq::empty(), root.height());
        assert(Seq::<i32>::empty() + kept_values(*root) =~= kept_values(*root));
    }
    let empty: Vec<i32> = Vec::new();
    assert(empty@ == Seq::<i32>::empty());
    traverse_by_model(
        root,
        empty,
        condition,
        branch_fn,
        visit_fn,
        Ghost(every_node()),
        Ghost(binary_kids()),
        Ghost(prune_step()),
        Ghost(root.height()),
    )
}

/// A leaf holding `value`, boxed for a child slot.
fn leaf(value: i32) -> (r: Option<Box<BinaryNode<i32>>>)
    ensures
        r matches Some(b) && b.value == value && b.left is None && b.right is None,
{
    Some(Box::new(BinaryNode::new(value)))
}

/// An inner node holding `value`, boxed for a child slot.
fn inner(value: i32, left: Option<Box<BinaryNode<i32>>>, right: Option<Box<BinaryNode<i32>>>) -> (r:
    Option<Box<BinaryNode<i32>>>)
    ensures
        r matches Some(b) && b.value == value && b.left == left && b.right == right,
{
    Some(Box::new(BinaryNode::with_children(value, left, right)))
}

/// The child slot holds a node with value `v` and no children.
pub open spec fn is_leaf_slot(slot: Option<Box<BinaryNode<i32>>>, v: i32) -> bool {
    slot matches Some(b) && b.value == v && b.left is None && b.right is None
}

/// A small tree with some negative values:
///
/// ```text
///            1
///        2       3
///      4   5   -7  6
///    -8 9
/// ```
pub fn create_sample_tree() -> (r: BinaryNode<i32>)
    ensures
        r.value == 1,
        r.left matches Some(n2) && n2.value == 2 && is_leaf_slot(n2.right, 5) && (
        n2.left matches Some(n4) && n4.value == 4 && is_leaf_slot(n4.left, -8i32) && is_leaf_slot(
            n4.right,
            9,
        )),
        r.right matches Some(n3) && n3.value == 3 && is_leaf_slot(n3.left, -7i32) && is_leaf_slot(
            n3.right,
            6,
        ),
        r.values() == seq![1i32, 2, 4, -8i32, 9, 5, 3, -7i32, 6],
        kept_values(r) == r.values(),
        leveled(r, 0) == seq![
            (0usize, 1i32),
            (1usize, 2i32),
            (2usize, 4i32),
            (3usize, -8i32),
            (3usize, 9i32),
            (2usize, 5i32),
            (1usize, 3i32),
            (2usize, -7i32),
            (2usize, 6i32),
        ],
{
    let r = BinaryNode::with_children(
        1,
        inner(2, inner(4, leaf(-8), leaf(9)), leaf(5)),
        inner(3, leaf(-7), leaf(6)),
    );
    proof {
        reveal_with_fuel(BinaryNode::values, 5);
        reveal_with_fuel(kept_values, 5);
        reveal_with_fuel(leveled, 5);
        assert(r.values() =~= seq![1i32, 2, 4, -8i32, 9, 5, 3, -7i32, 6]);
        assert(kept_values(r) =~= r.values());
        assert(leveled(r, 0) =~= seq![
            (0usize, 1i32),
            (1usize, 2i32),
            (2usize, 4i32),
            (3usize, -8i32),
            (3usize, 9i32),
            (2usize, 5i32),
            (1usize, 3i32),
            (2usize, -7i32),
            (2usize, 6i32),
        ]);
    }
    r
}

} // verus!
