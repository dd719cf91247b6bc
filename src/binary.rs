//! A binary tree node, and its children read as a list for the walk.

use vstd::prelude::*;
use crate::control::TreeControl;
use crate::model::{Outcome, bounded, idle, lemma_bounded_more, walk, walk_list};
use crate::laws::{preorder, preorder_list};
use crate::traverse::views;

verus! {

/// A node of a binary tree: a value and up to two children.
pub struct BinaryNode<T> {
    pub value: T,
    pub left: Option<Box<BinaryNode<T>>>,
    pub right: Option<Box<BinaryNode<T>>>,
}

/// A node is seen as itself.
impl<T> View for BinaryNode<T> {
    type V = BinaryNode<T>;

    #[verifier::inline]
    open spec fn view(&self) -> BinaryNode<T> {
        *self
    }
}

/// The node in a child slot, as a list of zero or one node.
pub open spec fn slot_nodes<T>(slot: Option<Box<BinaryNode<T>>>) -> Seq<BinaryNode<T>> {
    match slot {
        Some(b) => seq![*b],
        None => Seq::empty(),
    }
}

impl<T> BinaryNode<T> {
    /// The children of this node, left before right.
    pub open spec fn child_nodes(&self) -> Seq<BinaryNode<T>> {
        slot_nodes(self.left) + slot_nodes(self.right)
    }

    /// The values below this node, in pre-order.
    pub open spec fn values(&self) -> Seq<T>
        decreases self,
    {
        let l = match &self.left {
            Some(b) => b.values(),
            None => Seq::empty(),
        };
        let r = match &self.right {
            Some(b) => b.values(),
            None => Seq::empty(),
        };
        seq![self.value] + l + r
    }

    /// The number of nodes on the longest path down from this node.
    pub open spec fn height(&self) -> nat
        decreases self,
    {
        let l = match &self.left {
            Some(b) => b.height(),
            None => 0,
        };
        let r = match &self.right {
            Some(b) => b.height(),
            None => 0,
        };
        1 + if l >= r { l } else { r }
    }

    /// A node with `value` and no children.
    pub fn new(value: T) -> (r: Self)
        ensures
            r.value == value,
            r.left is None,
            r.right is None,
    {
        BinaryNode { value, left: None, right: None }
    }

    /// A node with `value` and the given children.
    pub fn with_children(
        value: T,
        left: Option<Box<BinaryNode<T>>>,
        right: Option<Box<BinaryNode<T>>>,
    ) -> (r: Self)
        ensures
            r.value == value,
            r.left == left,
            r.right == right,
    {
        BinaryNode { value, left, right }
    }

    /// The children of this node, left before right.
    pub fn children(&self) -> (r: Vec<&BinaryNode<T>>)
        ensures
            views(r@) == self.child_nodes(),
    {
        let mut r: Vec<&BinaryNode<T>> = Vec::new();
        if let Some(left) = &self.left {
            r.push(&**left);
        }
        if let Some(right) = &self.right {
            r.push(&**right);
        }
        assert(views(r@) =~= self.child_nodes());
        r
    }
}

/// The children of a node, as the walk reads them.
pub open spec fn binary_kids<T>() -> spec_fn(BinaryNode<T>) -> Seq<BinaryNode<T>> {
    |n: BinaryNode<T>| n.child_nodes()
}

/// Every node is eligible.
pub open spec fn every_node<T>() -> spec_fn(BinaryNode<T>) -> bool {
    |n: BinaryNode<T>| true
}

/// The value of a node.
pub open spec fn value_of<T>() -> spec_fn(BinaryNode<T>) -> T {
    |n: BinaryNode<T>| n.value
}

/// A binary tree is bounded by its height, whichever nodes are eligible.
pub proof fn lemma_binary_bounded<T>(eligible: spec_fn(BinaryNode<T>) -> bool, n: BinaryNode<T>)
    ensures
        bounded(eligible, binary_kids(), n, n.height()),
    decreases n,
{
    let kids = n.child_nodes();
    assert forall|i: int|
        0 <= i < kids.len() && eligible(#[trigger] kids[i]) implies bounded(
        eligible,
        binary_kids(),
        kids[i],
        (n.height() - 1) as nat,
    ) by {
        let c = kids[i];
        match n.left {
            Some(b) => {
                if i == 0 {
                    assert(c == *b);
                }
            },
            None => {},
        }
        lemma_binary_bounded(eligible, c);
        lemma_bounded_more(eligible, binary_kids(), c, c.height(), (n.height() - 1) as nat);
    }
}

/// The pre-order of a slot's subtree.
pub open spec fn slot_preorder<T>(slot: Option<Box<BinaryNode<T>>>, h: nat) -> Seq<BinaryNode<T>> {
    match slot {
        Some(b) => preorder(every_node(), binary_kids(), *b, h),
        None => Seq::empty(),
    }
}

/// With every node eligible, the pre-order of a binary tree lists its values
/// in the order of `values`.
pub proof fn lemma_binary_preorder_values<T>(n: BinaryNode<T>, h: nat)
    requires
        n.height() <= h,
    ensures
        preorder(every_node(), binary_kids(), n, h).map_values(value_of()) == n.values(),
    decreases n,
{
    let g = (h - 1) as nat;
    let cs = n.child_nodes();
    let lp = slot_preorder(n.left, g);
    let rp = slot_preorder(n.right, g);
    let none = Seq::<BinaryNode<T>>::empty();
    assert(preorder_list(every_node(), binary_kids(), cs, g) == lp + rp) by {
        let tail_r = slot_nodes(n.right);
        assert(preorder_list(every_node(), binary_kids(), tail_r, g) == rp) by {
            assert(preorder_list(every_node(), binary_kids(), none, g) == none);
            match n.right {
                Some(b) => {
                    assert(tail_r[0] == *b);
                    assert(tail_r.drop_first() =~= none);
                    assert(rp + none =~= rp);
                },
                None => {},
            }
        }
        if n.left is Some {
            assert(cs.drop_first() =~= tail_r);
        } else {
            assert(cs =~= tail_r);
            assert(none + rp =~= rp);
        }
    }
    let lv = match n.left {
        Some(b) => b.values(),
        None => Seq::empty(),
    };
    let rv = match n.right {
        Some(b) => b.values(),
        None => Seq::empty(),
    };
    match n.left {
        Some(b) => lemma_binary_preorder_values(*b, g),
        None => {},
    }
    match n.right {
        Some(b) => lemma_binary_preorder_values(*b, g),
        None => {},
    }
    assert(lp.map_values(value_of()) =~= lv);
    assert(rp.map_values(value_of()) =~= rv);
    assert((seq![n] + lp + rp).map_values(value_of()) =~= seq![n.value] + lv + rv);
    assert(seq![n] + (lp + rp) =~= seq![n] + lp + rp);
}

/// The walk of the subtree in a child slot, if it holds an eligible node.
pub open spec fn slot_walk<S, T>(
    eligible: spec_fn(BinaryNode<T>) -> bool,
    step: spec_fn(S, BinaryNode<T>) -> (S, TreeControl),
    slot: Option<Box<BinaryNode<T>>>,
    s: S,
    g: nat,
) -> Outcome<S, BinaryNode<T>> {
    match slot {
        Some(b) => if eligible(*b) {
            walk(eligible, binary_kids(), step, *b, s, g)
        } else {
            idle(s)
        },
        None => idle(s),
    }
}

/// Walking the children of a binary node walks the left subtree, then, unless
/// that stopped, the right one.
pub proof fn lemma_binary_walk_children<S, T>(
    eligible: spec_fn(BinaryNode<T>) -> bool,
    step: spec_fn(S, BinaryNode<T>) -> (S, TreeControl),
    n: BinaryNode<T>,
    s: S,
    g: nat,
)
    ensures
        walk_list(eligible, binary_kids(), step, n.child_nodes(), s, g) == ({
            let a = slot_walk(eligible, step, n.left, s, g);
            if a.stopped {
                a
            } else {
                let b = slot_walk(eligible, step, n.right, a.state, g);
                Outcome { state: b.state, visited: a.visited + b.visited, stopped: b.stopped }
            }
        }),
{
    let none = Seq::<BinaryNode<T>>::empty();
    let cs = n.child_nodes();
    let rs = slot_nodes(n.right);
    assert(walk_list(eligible, binary_kids(), step, none, s, g) == idle::<S, BinaryNode<T>>(s));
    let a = slot_walk(eligible, step, n.left, s, g);
    let b = slot_walk(eligible, step, n.right, a.state, g);
    assert(walk_list(eligible, binary_kids(), step, none, b.state, g) == idle::<S, BinaryNode<T>>(
        b.state,
    ));
    assert(walk_list(eligible, binary_kids(), step, rs, a.state, g) == b) by {
        match n.right {
            Some(r) => {
                assert(rs[0] == *r);
                assert(rs.drop_first() =~= none);
                assert(b.visited + none =~= b.visited);
            },
            None => {},
        }
    }
    match n.left {
        Some(l) => {
            assert(cs[0] == *l);
            assert(cs.drop_first() =~= rs);
            if !eligible(*l) {
                assert(a.visited + b.visited =~= b.visited);
            }
        },
        None => {
            assert(cs =~= rs);
            assert(a.visited + b.visited =~= b.visited);
        },
    }
}

} // verus!
