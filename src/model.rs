//! The mathematical model of a walk.
//!
//! A tree is given implicitly: `eligible` says which nodes may be visited and
//! `kids` lists the children of a node, in order. A visitor is a step function
//! from a state and a node to the next state and a control signal. Recursion
//! over the tree is bounded by a fuel `h`; `bounded` says that the fuel is
//! enough for every chain of eligible descendants.

use vstd::prelude::*;
use crate::control::TreeControl;

verus! {

/// The result of a walk: the state after the last visit, the nodes visited in
/// order, and whether a visit asked to stop.
pub struct Outcome<S, T> {
    pub state: S,
    pub visited: Seq<T>,
    pub stopped: bool,
}

/// An outcome in which nothing was visited.
pub open spec fn idle<S, T>(s: S) -> Outcome<S, T> {
    Outcome { state: s, visited: Seq::empty(), stopped: false }
}

/// Every chain of eligible descendants below `n` is shorter than `h`.
pub open spec fn bounded<T>(
    eligible: spec_fn(T) -> bool,
    kids: spec_fn(T) -> Seq<T>,
    n: T,
    h: nat,
) -> bool
    decreases h,
{
    h > 0 && forall|i: int|
        0 <= i < kids(n).len() && eligible(#[trigger] kids(n)[i]) ==> bounded(
            eligible,
            kids,
            kids(n)[i],
            (h - 1) as nat,
        )
}

/// The tree below `n` is finite: some fuel bounds it.
pub open spec fn finite_below<T>(
    eligible: spec_fn(T) -> bool,
    kids: spec_fn(T) -> Seq<T>,
    n: T,
) -> bool {
    exists|h: nat| bounded(eligible, kids, n, h)
}

/// Visit `n`, then, if the visitor says so, walk its eligible children.
pub open spec fn walk<S, T>(
    eligible: spec_fn(T) -> bool,
    kids: spec_fn(T) -> Seq<T>,
    step: spec_fn(S, T) -> (S, TreeControl),
    n: T,
    s: S,
    h: nat,
) -> Outcome<S, T>
    decreases h, 0nat,
{
    if h == 0 {
        idle(s)
    } else {
        let (s1, signal) = step(s, n);
        match signal {
            TreeControl::Continue => {
                let rest = walk_list(eligible, kids, step, kids(n), s1, (h - 1) as nat);
                Outcome {
                    state: rest.state,
                    visited: seq![n] + rest.visited,
                    stopped: rest.stopped,
                }
            },
            TreeControl::Prune => Outcome { state: s1, visited: seq![n], stopped: false },
            TreeControl::Break => Outcome { state: s1, visited: seq![n], stopped: true },
        }
    }
}

/// Walk the eligible nodes of `cs` in order, each to completion, until one
/// of the walks stops.
pub open spec fn walk_list<S, T>(
    eligible: spec_fn(T) -> bool,
    kids: spec_fn(T) -> Seq<T>,
    step: spec_fn(S, T) -> (S, TreeControl),
    cs: Seq<T>,
    s: S,
    h: nat,
) -> Outcome<S, T>
    decreases h, cs.len(),
{
    if cs.len() == 0 {
        idle(s)
    } else {
        let first = if eligible(cs[0]) {
            walk(eligible, kids, step, cs[0], s, h)
        } else {
            idle(s)
        };
        if first.stopped {
            first
        } else {
            let rest = walk_list(eligible, kids, step, cs.drop_first(), first.state, h);
            Outcome {
                state: rest.state,
                visited: first.visited + rest.visited,
                stopped: rest.stopped,
            }
        }
    }
}

/// A whole traversal: the root is checked once, then walked if eligible.
pub open spec fn traversal<S, T>(
    eligible: spec_fn(T) -> bool,
    kids: spec_fn(T) -> Seq<T>,
    step: spec_fn(S, T) -> (S, TreeControl),
    root: T,
    s: S,
    h: nat,
) -> Outcome<S, T> {
    if eligible(root) {
        walk(eligible, kids, step, root, s, h)
    } else {
        idle(s)
    }
}

/// More fuel than enough is enough.
pub proof fn lemma_bounded_more<T>(
    eligible: spec_fn(T) -> bool,
    kids: spec_fn(T) -> Seq<T>,
    n: T,
    h1: nat,
    h2: nat,
)
    requires
        bounded(eligible, kids, n, h1),
        h1 <= h2,
    ensures
        bounded(eligible, kids, n, h2),
    decreases h1,
{
    assert forall|i: int| 0 <= i < kids(n).len() && eligible(#[trigger] kids(n)[i]) implies bounded(
        eligible,
        kids,
        kids(n)[i],
        (h2 - 1) as nat,
    ) by {
        lemma_bounded_more(eligible, kids, kids(n)[i], (h1 - 1) as nat, (h2 - 1) as nat);
    }
}

/// Any fuel that bounds the tree gives the same walk.
pub proof fn lemma_walk_fuel<S, T>(
    eligible: spec_fn(T) -> bool,
    kids: spec_fn(T) -> Seq<T>,
    step: spec_fn(S, T) -> (S, TreeControl),
    n: T,
    s: S,
    h1: nat,
    h2: nat,
)
    requires
        bounded(eligible, kids, n, h1),
        bounded(eligible, kids, n, h2),
    ensures
        walk(eligible, kids, step, n, s, h1) == walk(eligible, kids, step, n, s, h2),
    decreases h1, 0nat,
{
    let (s1, signal) = step(s, n);
    if signal == TreeControl::Continue {
        lemma_walk_list_fuel(eligible, kids, step, kids(n), s1, (h1 - 1) as nat, (h2 - 1) as nat);
    }
}

/// Any fuel that bounds each eligible node of a list gives the same walk of
/// the list.
pub proof fn lemma_walk_list_fuel<S, T>(
    eligible: spec_fn(T) -> bool,
    kids: spec_fn(T) -> Seq<T>,
    step: spec_fn(S, T) -> (S, TreeControl),
    cs: Seq<T>,
    s: S,
    g1: nat,
    g2: nat,
)
    requires
        forall|i: int|
            0 <= i < cs.len() && eligible(#[trigger] cs[i]) ==> bounded(eligible, kids, cs[i], g1)
                && bounded(eligible, kids, cs[i], g2),
    ensures
        walk_list(eligible, kids, step, cs, s, g1) == walk_list(eligible, kids, step, cs, s, g2),
    decreases g1, cs.len(),
{
    if cs.len() > 0 {
        if eligible(cs[0]) {
            lemma_walk_fuel(eligible, kids, step, cs[0], s, g1, g2);
        }
        let first = if eligible(cs[0]) {
            walk(eligible, kids, step, cs[0], s, g1)
        } else {
            idle(s)
        };
        let rest = cs.drop_first();
        assert forall|i: int| 0 <= i < rest.len() && eligible(#[trigger] rest[i]) implies bounded(
            eligible,
            kids,
            rest[i],
            g1,
        ) && bounded(eligible, kids, rest[i], g2) by {
            assert(rest[i] == cs[i + 1]);
        }
        lemma_walk_list_fuel(eligible, kids, step, rest, first.state, g1, g2);
    }
}

} // verus!
