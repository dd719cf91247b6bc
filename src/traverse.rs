//! The traversal engine, and how its three caller-supplied functions are read
//! as the functions of the model.

use vstd::prelude::*;
use crate::control::TreeControl;
use crate::model::{bounded, finite_below, traversal, walk, walk_list, lemma_walk_fuel};

verus! {

/// `condition` may be called on any node, and answers as `eligible` says of
/// the node's view.
pub open spec fn decides<T: View, C: Fn(&T) -> bool>(
    condition: C,
    eligible: spec_fn(T::V) -> bool,
) -> bool {
    &&& forall|n: &T| #[trigger] call_requires(condition, (n,))
    &&& forall|n: &T, r: bool| #[trigger] call_ensures(condition, (n,), r) ==> r == eligible(n@)
}

/// The views of the nodes in `v`, in order.
pub open spec fn views<T: View>(v: Seq<T>) -> Seq<T::V> {
    v.map_values(|x: T| x@)
}

/// `branch_fn` may be called on any node, and lists children whose views are
/// those that `kids` gives for the node's view, in that order.
pub open spec fn lists<T: View, B: Fn(&T) -> Vec<T>>(
    branch_fn: B,
    kids: spec_fn(T::V) -> Seq<T::V>,
) -> bool {
    &&& forall|n: &T| #[trigger] call_requires(branch_fn, (n,))
    &&& forall|n: &T, v: Vec<T>|
        #[trigger] call_ensures(branch_fn, (n,), v) ==> views(v@) == kids(n@)
}

/// `visit_fn` may be called on any state and node, and answers as `step`
/// says of their views.
pub open spec fn steps<S: View, T: View, F: Fn(S, &T) -> (S, TreeControl)>(
    visit_fn: F,
    step: spec_fn(S::V, T::V) -> (S::V, TreeControl),
) -> bool {
    &&& forall|s: S, n: &T| #[trigger] call_requires(visit_fn, (s, n))
    &&& forall|s: S, n: &T, r: (S, TreeControl)|
        #[trigger] call_ensures(visit_fn, (s, n), r) ==> (r.0@, r.1) == step(s@, n@)
}

/// The views of the nodes on which `condition` can answer `true`.
pub open spec fn eligible_of<T: View, C: Fn(&T) -> bool>(condition: C) -> spec_fn(T::V) -> bool {
    |x: T::V| exists|n: T| n@ == x && #[trigger] call_ensures(condition, (&n,), true)
}

/// The views of the children that `branch_fn` can list for a node of a given
/// view (none where it cannot return).
pub open spec fn kids_of<T: View, B: Fn(&T) -> Vec<T>>(branch_fn: B) -> spec_fn(T::V) -> Seq<T::V> {
    |x: T::V|
        if exists|w: (T, Vec<T>)| w.0@ == x && #[trigger] call_ensures(branch_fn, (&w.0,), w.1) {
            let w = choose|w: (T, Vec<T>)|
                w.0@ == x && #[trigger] call_ensures(branch_fn, (&w.0,), w.1);
            views(w.1@)
        } else {
            Seq::empty()
        }
}

/// The view of the next state, and the signal, that `visit_fn` can give for
/// a state and a node of given views.
pub open spec fn step_of<S: View, T: View, F: Fn(S, &T) -> (S, TreeControl)>(
    visit_fn: F,
) -> spec_fn(S::V, T::V) -> (S::V, TreeControl) {
    |v: S::V, x: T::V|
        {
            let w = choose|w: (S, T, (S, TreeControl))|
                w.0@ == v && w.1@ == x && #[trigger] call_ensures(visit_fn, (w.0, &w.1), w.2);
            (w.2.0@, w.2.1)
        }
}

/// Visits `node` and, unless told otherwise, its eligible descendants; returns
/// the final state and whether the walk was stopped.
fn visit_subtree<S, T, C, B, F>(
    node: &T,
    state: S,
    condition: &C,
    branch_fn: &B,
    visit_fn: &F,
    Ghost(eligible): Ghost<spec_fn(T::V) -> bool>,
    Ghost(kids): Ghost<spec_fn(T::V) -> Seq<T::V>>,
    Ghost(step): Ghost<spec_fn(S::V, T::V) -> (S::V, TreeControl)>,
    Ghost(h): Ghost<nat>,
) -> (r: (S, bool)) where
    S: View,
    T: View,
    C: Fn(&T) -> bool,
    B: Fn(&T) -> Vec<T>,
    F: Fn(S, &T) -> (S, TreeControl),

    requires
        decides(*condition, eligible),
        lists(*branch_fn, kids),
        steps(*visit_fn, step),
        bounded(eligible, kids, node@, h),
    ensures
        r.0@ == walk(eligible, kids, step, node@, state@, h).state,
        r.1 == walk(eligible, kids, step, node@, state@, h).stopped,
    decreases h,
{
    let ghost s0 = state@;
    let (next, signal) = visit_fn(state, node);
    match signal {
        TreeControl::Break => return (next, true),
        TreeControl::Prune => return (next, false),
        TreeControl::Continue => {},
    }
    let children = branch_fn(node);
    let ghost cs = views(children@);
    let ghost g = (h - 1) as nat;
    let mut current = next;
    let mut stopped = false;
    let mut i: usize = 0;
    assert(cs.skip(0) =~= cs);
    let ghost whole = walk(eligible, kids, step, node@, s0, h);
    while i < children.len() && !stopped
        invariant
            decides(*condition, eligible),
            lists(*branch_fn, kids),
            steps(*visit_fn, step),
            g == h - 1,
            cs == views(children@),
            cs == kids(node@),
            bounded(eligible, kids, node@, h),
            0 <= i <= cs.len(),
            stopped ==> whole.state == current@ && whole.stopped,
            !stopped ==> whole.state == walk_list(
                eligible,
                kids,
                step,
                cs.skip(i as int),
                current@,
                g,
            ).state && whole.stopped == walk_list(
                eligible,
                kids,
                step,
                cs.skip(i as int),
                current@,
                g,
            ).stopped,
        decreases cs.len() - i,
    {
        let ghost tail = cs.skip(i as int);
        assert(tail[0] == cs[i as int]);
        assert(cs[i as int] == children@[i as int]@);
        assert(tail.drop_first() =~= cs.skip(i + 1));
        if condition(&children[i]) {
            let (after, stop) = visit_subtree(
                &children[i],
                current,
                condition,
                branch_fn,
                visit_fn,
                Ghost(eligible),
                Ghost(kids),
                Ghost(step),
                Ghost(g),
            );
            current = after;
            stopped = stop;
        }
        i += 1;
    }
    if !stopped {
        assert(cs.skip(i as int).len() == 0);
    }
    (current, stopped)
}

/// Walks the tree below `initial` depth first, in pre-order, where
/// `condition`, `branch_fn` and `visit_fn` behave as `eligible`, `kids` and
/// `step` say and `h` bounds the tree; returns the state after the last
/// visit.
pub fn traverse_by_model<S, T, C, B, F>(
    initial: T,
    state: S,
    condition: C,
    branch_fn: B,
    visit_fn: F,
    Ghost(eligible): Ghost<spec_fn(T::V) -> bool>,
    Ghost(kids): Ghost<spec_fn(T::V) -> Seq<T::V>>,
    Ghost(step): Ghost<spec_fn(S::V, T::V) -> (S::V, TreeControl)>,
    Ghost(h): Ghost<nat>,
) -> (r: S) where
    S: View,
    T: View,
    C: Fn(&T) -> bool,
    B: Fn(&T) -> Vec<T>,
    F: Fn(S, &T) -> (S, TreeControl),

    requires
        decides(condition, eligible),
        lists(branch_fn, kids),
        steps(visit_fn, step),
        eligible(initial@) ==> bounded(eligible, kids, initial@, h),
    ensures
        r@ == traversal(eligible, kids, step, initial@, state@, h).state,
        !eligible(initial@) ==> r == state,
{
    if condition(&initial) {
        let (last, _) = visit_subtree(
            &initial,
            state,
            &condition,
            &branch_fn,
            &visit_fn,
            Ghost(eligible),
            Ghost(kids),
            Ghost(step),
            Ghost(h),
        );
        last
    } else {
        state
    }
}

/// Walks the tree below `initial` depth first, in pre-order.
///
/// The root is visited only if `condition` accepts it. Each visited node is
/// handed to `visit_fn` with the current state; it returns the next state and
/// a signal. On `Continue` the children that `branch_fn` lists are taken in
/// order, and each that `condition` accepts is walked to completion before the
/// next; on `Prune` the children are skipped; on `Break` nothing more is
/// visited. Returns the state after the last visit.
///
/// The contract reads the three functions through `eligible_of`, `kids_of`
/// and `step_of`, which say what a closure can return; verified code knows
/// their values only at inputs on which it has called the closure itself.
/// Verified callers that can say what their closures compute should call
/// `traverse_by_model`, whose contract is over those descriptions directly.
pub fn traverse_tree<S, T, C, B, F>(
    initial: T,
    state: S,
    condition: C,
    branch_fn: B,
    visit_fn: F,
) -> (r: S) where
    S: View,
    T: View,
    C: Fn(&T) -> bool,
    B: Fn(&T) -> Vec<T>,
    F: Fn(S, &T) -> (S, TreeControl),

    requires
        decides(condition, eligible_of(condition)),
        lists(branch_fn, kids_of(branch_fn)),
        steps(visit_fn, step_of(visit_fn)),
        eligible_of(condition)(initial@) ==> finite_below(
            eligible_of(condition),
            kids_of(branch_fn),
            initial@,
        ),
    ensures
        forall|h: nat|
            bounded(eligible_of(condition), kids_of(branch_fn), initial@, h) ==> r@ == traversal(
                eligible_of(condition),
                kids_of(branch_fn),
                step_of(visit_fn),
                initial@,
                state@,
                h,
            ).state,
        !eligible_of(condition)(initial@) ==> r == state,
{
    let ghost eligible = eligible_of(condition);
    let ghost kids = kids_of(branch_fn);
    let ghost step = step_of(visit_fn);
    let ghost s0 = state@;
    let ghost h0 = choose|h: nat| bounded(eligible, kids, initial@, h);
    let ghost root = initial@;
    let r = traverse_by_model(
        initial,
        state,
        condition,
        branch_fn,
        visit_fn,
        Ghost(eligible),
        Ghost(kids),
        Ghost(step),
        Ghost(h0),
    );
    proof {
        if eligible(root) {
            assert forall|h: nat| bounded(eligible, kids, root, h) implies r@ == traversal(
                eligible,
                kids,
                step,
                root,
                s0,
                h,
            ).state by {
                lemma_walk_fuel(eligible, kids, step, root, s0, h0, h);
            }
        }
    }
    r
}

} // verus!
