//! Tracking the level of each node of a binary tree during a walk.

use vstd::prelude::*;
use crate::binary::BinaryNode;
use crate::control::TreeControl;
use crate::model::{bounded, walk, walk_list};
use crate::traverse::{traverse_by_model, views};

verus! {

/// The node in a child slot, paired with a level, as a list of zero or one
/// pair.
pub open spec fn slot_pairs(slot: Option<Box<BinaryNode<i32>>>, level: usize) -> Seq<
    (BinaryNode<i32>, usize),
> {
    match slot {
        Some(b) => seq![(*b, level)],
        None => Seq::empty(),
    }
}

/// A node at some level leads to its children, left before right, one level
/// deeper (the level saturating). Both children are at the same level, so
/// they are already in order of level.
pub open spec fn leveled_kids() -> spec_fn((BinaryNode<i32>, usize)) -> Seq<
    (BinaryNode<i32>, usize),
> {
    |p: (BinaryNode<i32>, usize)|
        slot_pairs(p.0.left, p.1.saturating_add(1)) + slot_pairs(p.0.right, p.1.saturating_add(1))
}

/// Every pair is eligible.
pub open spec fn every_pair() -> spec_fn((BinaryNode<i32>, usize)) -> bool {
    |p: (BinaryNode<i32>, usize)| true
}

/// The visitor that records the level and value of each node.
pub open spec fn record_level() -> spec_fn(Seq<(usize, i32)>, (BinaryNode<i32>, usize)) -> (
    Seq<(usize, i32)>,
    TreeControl,
) {
    |v: Seq<(usize, i32)>, p: (BinaryNode<i32>, usize)|
        (v.push((p.1, p.0.value)), TreeControl::Continue)
}

/// The level and value of each node below `n`, in pre-order, where `n` is at
/// `level`.
pub open spec fn leveled(n: BinaryNode<i32>, level: usize) -> Seq<(usize, i32)>
    decreases n,
{
    let next = level.saturating_add(1);
    let l = match n.left {
        Some(b) => leveled(*b, next),
        None => Seq::empty(),
    };
    let r = match n.right {
        Some(b) => leveled(*b, next),
        None => Seq::empty(),
    };
    seq![(level, n.value)] + l + r
}

/// The walk from a node at a level is bounded by the node's height, and
/// appends `leveled` to the state.
pub proof fn lemma_leveled_walk(n: BinaryNode<i32>, level: usize, s: Seq<(usize, i32)>, h: nat)
    requires
        n.height() <= h,
    ensures
        bounded(every_pair(), leveled_kids(), (n, level), h),
        walk(every_pair(), leveled_kids(), record_level(), (n, level), s, h).state == s + leveled(
            n,
            level,
        ),
        !walk(every_pair(), leveled_kids(), record_level(), (n, level), s, h).stopped,
    decreases n,
{
    let e = every_pair();
    let k = leveled_kids();
    let st = record_level();
    let g = (h - 1) as nat;
    let next = level.saturating_add(1);
    let s1 = s.push((level, n.value));
    let cs = k((n, level));
    let rs = slot_pairs(n.right, next);
    let none = Seq::<(BinaryNode<i32>, usize)>::empty();
    let sa = match n.left {
        Some(b) => walk(e, k, st, (*b, next), s1, g).state,
        None => s1,
    };
    let la = match n.left {
        Some(b) => leveled(*b, next),
        None => Seq::empty(),
    };
    let lb = match n.right {
        Some(b) => leveled(*b, next),
        None => Seq::empty(),
    };
    match n.left {
        Some(b) => {
            lemma_leveled_walk(*b, next, s1, g);
        },
        None => {
            assert(s1 + la =~= s1);
        },
    }
    let sb = match n.right {
        Some(b) => walk(e, k, st, (*b, next), sa, g).state,
        None => sa,
    };
    match n.right {
        Some(b) => {
            lemma_leveled_walk(*b, next, sa, g);
        },
        None => {
            assert(sa + lb =~= sa);
        },
    }
    let last = walk_list(e, k, st, none, sb, g);
    assert(last.state == sb && !last.stopped);
    let right = walk_list(e, k, st, rs, sa, g);
    assert(right.state == sb && !right.stopped) by {
        match n.right {
            Some(b) => {
                assert(rs.drop_first() =~= none);
            },
            None => {},
        }
    }
    match n.left {
        Some(b) => {
            assert(cs.drop_first() =~= rs);
        },
        None => {
            assert(cs =~= rs);
        },
    }
    assert(s1 + la + lb =~= s + leveled(n, level));
    assert forall|i: int| 0 <= i < cs.len() && e(#[trigger] cs[i]) implies bounded(
        e,
        k,
        cs[i],
        g,
    ) by {
        match n.left {
            Some(b) => {
                if i == 0 {
                    assert(cs[i] == (*b, next));
                } else {
                    assert(cs[i] == rs[0]);
                }
            },
            None => {
                assert(cs[i] == rs[i]);
            },
        }
    }
}

/// The level and value of each node below `root`, in pre-order; the root is
/// at level zero, its children at level one, and so on.
pub fn levels<'a>(root: &'a BinaryNode<i32>) -> (r: Vec<(usize, i32)>)
    ensures
        r@ == leveled(*root, 0),
{
    let condition = |p: &(&'a BinaryNode<i32>, usize)| -> (r: bool)
        ensures
            r,
        { true };
    let branch_fn = |p: &(&'a BinaryNode<i32>, usize)| -> (r: Vec<(&'a BinaryNode<i32>, usize)>)
        ensures
            views(r@) == leveled_kids()(p@),
        {
            let (node, level) = *p;
            let next = level.saturating_add(1);
            let mut children: Vec<(&'a BinaryNode<i32>, usize)> = Vec::new();
            if let Some(left) = &node.left {
                children.push((&**left, next));
            }
            if let Some(right) = &node.right {
                children.push((&**right, next));
            }
            assert(views(children@) =~= leveled_kids()(p@));
            children
        };
    let visit_fn = |acc: Vec<(usize, i32)>, p: &(&'a BinaryNode<i32>, usize)| -> (r: (
        Vec<(usize, i32)>,
        TreeControl,
    ))
        ensures
            r.0@ == acc@.push((p.1, p.0.value)),
            r.1 == TreeControl::Continue,
        {
            let mut acc = acc;
            acc.push((p.1, p.0.value));
            (acc, TreeControl::Continue)
        };
    let ghost h = root.height();
    let empty: Vec<(usize, i32)> = Vec::new();
    assert(empty@ == Seq::<(usize, i32)>::empty());
    proof {
        lemma_leveled_walk(*root, 0, Seq::empty(), h);
        assert(Seq::<(usize, i32)>::empty() + leveled(*root, 0) =~= leveled(*root, 0));
    }
    traverse_by_model(
        (root, 0usize),
        empty,
        condition,
        branch_fn,
        visit_fn,
        Ghost(every_pair()),
        Ghost(leveled_kids()),
        Ghost(record_level()),
        Ghost(h),
    )
}

} // verus!
