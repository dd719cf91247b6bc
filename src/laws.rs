//! Laws of the walk, proved over the model.

use vstd::prelude::*;
use vstd::seq_lib::lemma_flatten_concat;
use crate::control::TreeControl;
use crate::model::{bounded, idle, walk, walk_list, traversal, lemma_walk_fuel};

verus! {

/// Every eligible node below `n`, `n` first, in depth-first pre-order.
pub open spec fn preorder<T>(
    eligible: spec_fn(T) -> bool,
    kids: spec_fn(T) -> Seq<T>,
    n: T,
    h: nat,
) -> Seq<T>
    decreases h, 0nat,
{
    if h == 0 {
        Seq::empty()
    } else {
        seq![n] + preorder_list(eligible, kids, kids(n), (h - 1) as nat)
    }
}

/// The pre-orders of the eligible nodes of `cs`, one after the other.
pub open spec fn preorder_list<T>(
    eligible: spec_fn(T) -> bool,
    kids: spec_fn(T) -> Seq<T>,
    cs: Seq<T>,
    h: nat,
) -> Seq<T>
    decreases h, cs.len(),
{
    if cs.len() == 0 {
        Seq::empty()
    } else {
        let first = if eligible(cs[0]) {
            preorder(eligible, kids, cs[0], h)
        } else {
            Seq::empty()
        };
        first + preorder_list(eligible, kids, cs.drop_first(), h)
    }
}

/// What a traversal from `root` would visit if the visitor always continued.
pub open spec fn tree_preorder<T>(
    eligible: spec_fn(T) -> bool,
    kids: spec_fn(T) -> Seq<T>,
    root: T,
    h: nat,
) -> Seq<T> {
    if eligible(root) {
        preorder(eligible, kids, root, h)
    } else {
        Seq::empty()
    }
}

/// `p` is the first position in `xs` of a node where `halt` holds.
pub open spec fn first_where<T>(xs: Seq<T>, halt: spec_fn(T) -> bool, p: int) -> bool {
    &&& 0 <= p < xs.len()
    &&& halt(xs[p])
    &&& forall|i: int| 0 <= i < p ==> !halt(xs[i])
}

/// The visitor breaks at the nodes where `halt` holds and continues at the
/// others, whatever the state.
pub open spec fn breaks_where<S, T>(
    step: spec_fn(S, T) -> (S, TreeControl),
    halt: spec_fn(T) -> bool,
) -> bool {
    forall|s: S, x: T|
        (#[trigger] step(s, x)).1 == (if halt(x) {
            TreeControl::Break
        } else {
            TreeControl::Continue
        })
}

/// The visitor's signal depends on the node alone, and is `ctl` of it.
pub open spec fn signals_by_node<S, T>(
    step: spec_fn(S, T) -> (S, TreeControl),
    ctl: spec_fn(T) -> TreeControl,
) -> bool {
    forall|s: S, x: T| (#[trigger] step(s, x)).1 == ctl(x)
}

/// The visitor prunes at `target` and continues everywhere else, whatever
/// the state.
pub open spec fn prunes_only_at<S, T>(step: spec_fn(S, T) -> (S, TreeControl), target: T) -> bool {
    forall|s: S, x: T|
        (#[trigger] step(s, x)).1 == (if x == target {
            TreeControl::Prune
        } else {
            TreeControl::Continue
        })
}

/// `x` stands at position `p` of `xs`, and nowhere else.
pub open spec fn only_at<T>(xs: Seq<T>, x: T, p: int) -> bool {
    &&& 0 <= p < xs.len()
    &&& xs[p] == x
    &&& forall|i: int| 0 <= i < xs.len() && i != p ==> xs[i] != x
}

/// The state reached by handing the nodes `xs` to the visitor in order.
pub open spec fn replay<S, T>(step: spec_fn(S, T) -> (S, TreeControl), s: S, xs: Seq<T>) -> S
    decreases xs.len(),
{
    if xs.len() == 0 {
        s
    } else {
        replay(step, step(s, xs[0]).0, xs.drop_first())
    }
}

/// The visitor signals `Continue` at `x`, whatever the state.
pub open spec fn continues_at<S, T>(step: spec_fn(S, T) -> (S, TreeControl), x: T) -> bool {
    forall|s: S| (#[trigger] step(s, x)).1 == TreeControl::Continue
}

/// Replaying two sequences one after the other.
pub proof fn lemma_replay_concat<S, T>(
    step: spec_fn(S, T) -> (S, TreeControl),
    s: S,
    xs: Seq<T>,
    ys: Seq<T>,
)
    ensures
        replay(step, s, xs + ys) == replay(step, replay(step, s, xs), ys),
    decreases xs.len(),
{
    if xs.len() == 0 {
        assert(xs + ys =~= ys);
    } else {
        assert((xs + ys).drop_first() =~= xs.drop_first() + ys);
        lemma_replay_concat(step, step(s, xs[0]).0, xs.drop_first(), ys);
    }
}

/// A visitor that appends `f` of each node to its state collects `f` of the
/// nodes in the order they are handed to it.
pub proof fn lemma_replay_collects<T, U>(
    step: spec_fn(Seq<U>, T) -> (Seq<U>, TreeControl),
    f: spec_fn(T) -> U,
    s: Seq<U>,
    xs: Seq<T>,
)
    requires
        forall|v: Seq<U>, x: T| (#[trigger] step(v, x)).0 == v.push(f(x)),
    ensures
        replay(step, s, xs) == s + xs.map_values(f),
    decreases xs.len(),
{
    if xs.len() == 0 {
        assert(s + xs.map_values(f) =~= s);
    } else {
        lemma_replay_collects(step, f, s.push(f(xs[0])), xs.drop_first());
        assert(s.push(f(xs[0])) + xs.drop_first().map_values(f) =~= s + xs.map_values(f));
    }
}

/// The state after a walk is the visitor applied in turn to the visited
/// nodes, and nothing else.
pub proof fn lemma_walk_replays<S, T>(
    eligible: spec_fn(T) -> bool,
    kids: spec_fn(T) -> Seq<T>,
    step: spec_fn(S, T) -> (S, TreeControl),
    n: T,
    s: S,
    h: nat,
)
    ensures
        walk(eligible, kids, step, n, s, h).state == replay(
            step,
            s,
            walk(eligible, kids, step, n, s, h).visited,
        ),
    decreases h, 0nat,
{
    if h > 0 {
        let (s1, signal) = step(s, n);
        let w = walk(eligible, kids, step, n, s, h);
        assert(w.visited[0] == n);
        assert(replay(step, s, w.visited) == replay(step, s1, w.visited.drop_first()));
        if signal == TreeControl::Continue {
            lemma_walk_list_replays(eligible, kids, step, kids(n), s1, (h - 1) as nat);
            assert(w.visited.drop_first() =~= walk_list(
                eligible,
                kids,
                step,
                kids(n),
                s1,
                (h - 1) as nat,
            ).visited);
        } else {
            assert(w.visited.drop_first() =~= Seq::<T>::empty());
        }
    }
}

/// The state after walking a list is the visitor applied in turn to the
/// visited nodes.
pub proof fn lemma_walk_list_replays<S, T>(
    eligible: spec_fn(T) -> bool,
    kids: spec_fn(T) -> Seq<T>,
    step: spec_fn(S, T) -> (S, TreeControl),
    cs: Seq<T>,
    s: S,
    h: nat,
)
    ensures
        walk_list(eligible, kids, step, cs, s, h).state == replay(
            step,
            s,
            walk_list(eligible, kids, step, cs, s, h).visited,
        ),
    decreases h, cs.len(),
{
    if cs.len() > 0 {
        let first = if eligible(cs[0]) {
            walk(eligible, kids, step, cs[0], s, h)
        } else {
            idle(s)
        };
        if eligible(cs[0]) {
            lemma_walk_replays(eligible, kids, step, cs[0], s, h);
        }
        if !first.stopped {
            let rest = walk_list(eligible, kids, step, cs.drop_first(), first.state, h);
            lemma_walk_list_replays(eligible, kids, step, cs.drop_first(), first.state, h);
            lemma_replay_concat(step, s, first.visited, rest.visited);
        }
    }
}

/// Where the visitor continues at every node of the pre-order below `n`, the
/// walk from `n` visits exactly that pre-order and is not stopped.
pub proof fn lemma_walk_continuing<S, T>(
    eligible: spec_fn(T) -> bool,
    kids: spec_fn(T) -> Seq<T>,
    step: spec_fn(S, T) -> (S, TreeControl),
    n: T,
    s: S,
    h: nat,
)
    requires
        forall|x: T|
            #[trigger] preorder(eligible, kids, n, h).contains(x) ==> continues_at(step, x),
    ensures
        walk(eligible, kids, step, n, s, h).visited == preorder(eligible, kids, n, h),
        !walk(eligible, kids, step, n, s, h).stopped,
    decreases h, 0nat,
{
    if h > 0 {
        let g = (h - 1) as nat;
        let full = preorder(eligible, kids, n, h);
        let below = preorder_list(eligible, kids, kids(n), g);
        assert(full[0] == n);
        assert(full.contains(n));
        assert(step(s, n).1 == TreeControl::Continue);
        assert forall|x: T| #[trigger] below.contains(x) implies continues_at(step, x) by {
            let j = choose|j: int| 0 <= j < below.len() && below[j] == x;
            assert(full[j + 1] == x);
            assert(full.contains(x));
        }
        lemma_walk_list_continuing(eligible, kids, step, kids(n), step(s, n).0, g);
    }
}

/// Where the visitor continues at every node of the pre-orders below `cs`,
/// walking `cs` visits exactly those pre-orders and is not stopped.
pub proof fn lemma_walk_list_continuing<S, T>(
    eligible: spec_fn(T) -> bool,
    kids: spec_fn(T) -> Seq<T>,
    step: spec_fn(S, T) -> (S, TreeControl),
    cs: Seq<T>,
    s: S,
    h: nat,
)
    requires
        forall|x: T|
            #[trigger] preorder_list(eligible, kids, cs, h).contains(x) ==> continues_at(
                step,
                x,
            ),
    ensures
        walk_list(eligible, kids, step, cs, s, h).visited == preorder_list(eligible, kids, cs, h),
        !walk_list(eligible, kids, step, cs, s, h).stopped,
    decreases h, cs.len(),
{
    if cs.len() > 0 {
        let all = preorder_list(eligible, kids, cs, h);
        let head = if eligible(cs[0]) {
            preorder(eligible, kids, cs[0], h)
        } else {
            Seq::empty()
        };
        let tail = preorder_list(eligible, kids, cs.drop_first(), h);
        assert(all == head + tail);
        if eligible(cs[0]) {
            assert forall|x: T| #[trigger] head.contains(x) implies continues_at(step, x) by {
                let j = choose|j: int| 0 <= j < head.len() && head[j] == x;
                assert(all[j] == x);
                assert(all.contains(x));
            }
            lemma_walk_continuing(eligible, kids, step, cs[0], s, h);
        }
        let first = if eligible(cs[0]) {
            walk(eligible, kids, step, cs[0], s, h)
        } else {
            idle(s)
        };
        assert forall|x: T| #[trigger] tail.contains(x) implies continues_at(step, x) by {
            let j = choose|j: int| 0 <= j < tail.len() && tail[j] == x;
            assert(all[head.len() + j] == x);
            assert(all.contains(x));
        }
        lemma_walk_list_continuing(eligible, kids, step, cs.drop_first(), first.state, h);
    }
}

/// With a visitor that always continues, a traversal of a finite tree visits
/// every eligible node exactly once, in depth-first pre-order with children
/// in the order that `kids` lists them, and is never stopped.
pub proof fn continuing_traversal_visits_preorder<S, T>(
    eligible: spec_fn(T) -> bool,
    kids: spec_fn(T) -> Seq<T>,
    step: spec_fn(S, T) -> (S, TreeControl),
    root: T,
    s: S,
    h: nat,
)
    requires
        bounded(eligible, kids, root, h),
        forall|x: T| continues_at(step, x),
    ensures
        traversal(eligible, kids, step, root, s, h).visited == tree_preorder(
            eligible,
            kids,
            root,
            h,
        ),
        !traversal(eligible, kids, step, root, s, h).stopped,
{
    lemma_walk_continuing(eligible, kids, step, root, s, h);
}

/// A traversal whose root is not eligible visits nothing and leaves the state
/// as it was.
pub proof fn ineligible_root_visits_nothing<S, T>(
    eligible: spec_fn(T) -> bool,
    kids: spec_fn(T) -> Seq<T>,
    step: spec_fn(S, T) -> (S, TreeControl),
    root: T,
    s: S,
    h: nat,
)
    requires
        !eligible(root),
    ensures
        traversal(eligible, kids, step, root, s, h).visited.len() == 0,
        traversal(eligible, kids, step, root, s, h).state == s,
        !traversal(eligible, kids, step, root, s, h).stopped,
{
}

/// A node without children is visited once and contributes nothing further:
/// the walk from it visits it alone, and the state is the visitor's answer
/// for it.
pub proof fn leaf_is_visited_alone<S, T>(
    eligible: spec_fn(T) -> bool,
    kids: spec_fn(T) -> Seq<T>,
    step: spec_fn(S, T) -> (S, TreeControl),
    n: T,
    s: S,
    h: nat,
)
    requires
        bounded(eligible, kids, n, h),
        kids(n).len() == 0,
    ensures
        walk(eligible, kids, step, n, s, h).visited == seq![n],
        walk(eligible, kids, step, n, s, h).state == step(s, n).0,
        walk(eligible, kids, step, n, s, h).stopped == (step(s, n).1 == TreeControl::Break),
{
    let (s1, signal) = step(s, n);
    if signal == TreeControl::Continue {
        let rest = walk_list(eligible, kids, step, kids(n), s1, (h - 1) as nat);
        assert(seq![n] + rest.visited =~= seq![n]);
    }
}

/// With a visitor that breaks where `halt` holds, the walk from `n` visits
/// the pre-order below `n` up to and including the first such node, and
/// stops.
pub proof fn lemma_walk_breaking<S, T>(
    eligible: spec_fn(T) -> bool,
    kids: spec_fn(T) -> Seq<T>,
    step: spec_fn(S, T) -> (S, TreeControl),
    halt: spec_fn(T) -> bool,
    n: T,
    s: S,
    h: nat,
    p: int,
)
    requires
        breaks_where(step, halt),
        first_where(preorder(eligible, kids, n, h), halt, p),
    ensures
        walk(eligible, kids, step, n, s, h).visited == preorder(eligible, kids, n, h).take(p + 1),
        walk(eligible, kids, step, n, s, h).stopped,
    decreases h, 0nat,
{
    let full = preorder(eligible, kids, n, h);
    let g = (h - 1) as nat;
    assert(full[0] == n);
    let signal = step(s, n).1;
    if halt(n) {
        assert(p == 0);
        assert(full.take(1) =~= seq![n]);
    } else {
        let below = preorder_list(eligible, kids, kids(n), g);
        assert(full == seq![n] + below);
        assert(first_where(below, halt, p - 1)) by {
            assert forall|i: int| 0 <= i < p - 1 implies !halt(below[i]) by {
                assert(below[i] == full[i + 1]);
            }
            assert(below[p - 1] == full[p]);
        }
        lemma_walk_list_breaking(eligible, kids, step, halt, kids(n), step(s, n).0, g, p - 1);
        assert(full.take(p + 1) =~= seq![n] + below.take(p));
    }
}

/// With a visitor that breaks where `halt` holds, walking `cs` visits the
/// pre-orders below `cs` up to and including the first such node, and stops.
pub proof fn lemma_walk_list_breaking<S, T>(
    eligible: spec_fn(T) -> bool,
    kids: spec_fn(T) -> Seq<T>,
    step: spec_fn(S, T) -> (S, TreeControl),
    halt: spec_fn(T) -> bool,
    cs: Seq<T>,
    s: S,
    h: nat,
    p: int,
)
    requires
        breaks_where(step, halt),
        first_where(preorder_list(eligible, kids, cs, h), halt, p),
    ensures
        walk_list(eligible, kids, step, cs, s, h).visited == preorder_list(
            eligible,
            kids,
            cs,
            h,
        ).take(p + 1),
        walk_list(eligible, kids, step, cs, s, h).stopped,
    decreases h, cs.len(),
{
    let all = preorder_list(eligible, kids, cs, h);
    let head = if eligible(cs[0]) {
        preorder(eligible, kids, cs[0], h)
    } else {
        Seq::empty()
    };
    let tail = preorder_list(eligible, kids, cs.drop_first(), h);
    assert(all == head + tail);
    if p < head.len() {
        assert(first_where(head, halt, p)) by {
            assert forall|i: int| 0 <= i < p implies !halt(head[i]) by {
                assert(head[i] == all[i]);
            }
            assert(head[p] == all[p]);
        }
        lemma_walk_breaking(eligible, kids, step, halt, cs[0], s, h, p);
        assert(head.take(p + 1) =~= all.take(p + 1));
    } else {
        if eligible(cs[0]) {
            assert forall|x: T| #[trigger] head.contains(x) implies continues_at(step, x) by {
                let j = choose|j: int| 0 <= j < head.len() && head[j] == x;
                assert(all[j] == x);
            }
            lemma_walk_continuing(eligible, kids, step, cs[0], s, h);
        }
        let first = if eligible(cs[0]) {
            walk(eligible, kids, step, cs[0], s, h)
        } else {
            idle(s)
        };
        let q = p - head.len();
        assert(first_where(tail, halt, q)) by {
            assert forall|i: int| 0 <= i < q implies !halt(tail[i]) by {
                assert(tail[i] == all[head.len() + i]);
            }
            assert(tail[q] == all[p]);
        }
        lemma_walk_list_breaking(eligible, kids, step, halt, cs.drop_first(), first.state, h, q);
        assert(all.take(p + 1) =~= head + tail.take(q + 1));
    }
}

/// `Break` cuts the whole traversal short. With a visitor that breaks at the
/// nodes where `halt` holds (at a single node `N`: `halt(x)` is `x == N`),
/// the traversal visits the pre-order up to and including the first such
/// node, then stops: nothing after it in pre-order is visited. Where no node
/// of the pre-order halts, all of it is visited.
pub proof fn breaking_traversal_stops_at_first_halt<S, T>(
    eligible: spec_fn(T) -> bool,
    kids: spec_fn(T) -> Seq<T>,
    step: spec_fn(S, T) -> (S, TreeControl),
    halt: spec_fn(T) -> bool,
    root: T,
    s: S,
    h: nat,
)
    requires
        bounded(eligible, kids, root, h),
        breaks_where(step, halt),
    ensures
        forall|p: int|
            first_where(tree_preorder(eligible, kids, root, h), halt, p) ==> {
                &&& traversal(eligible, kids, step, root, s, h).visited == tree_preorder(
                    eligible,
                    kids,
                    root,
                    h,
                ).take(p + 1)
                &&& traversal(eligible, kids, step, root, s, h).stopped
            },
        (forall|i: int|
            0 <= i < tree_preorder(eligible, kids, root, h).len() ==> !halt(
                #[trigger] tree_preorder(eligible, kids, root, h)[i],
            )) ==> {
            &&& traversal(eligible, kids, step, root, s, h).visited == tree_preorder(
                eligible,
                kids,
                root,
                h,
            )
            &&& !traversal(eligible, kids, step, root, s, h).stopped
        },
{
    assert forall|p: int| first_where(tree_preorder(eligible, kids, root, h), halt, p) implies {
        &&& traversal(eligible, kids, step, root, s, h).visited == tree_preorder(
            eligible,
            kids,
            root,
            h,
        ).take(p + 1)
        &&& traversal(eligible, kids, step, root, s, h).stopped
    } by {
        lemma_walk_breaking(eligible, kids, step, halt, root, s, h, p);
    }
    let full = tree_preorder(eligible, kids, root, h);
    if eligible(root) && forall|i: int| 0 <= i < full.len() ==> !halt(#[trigger] full[i]) {
        assert forall|x: T| #[trigger] full.contains(x) implies continues_at(step, x) by {
            let j = choose|j: int| 0 <= j < full.len() && full[j] == x;
            assert(!halt(full[j]));
        }
        lemma_walk_continuing(eligible, kids, step, root, s, h);
    }
}

/// Where the signals depend on the node alone, what a walk visits, and
/// whether it stops, does not depend on the state it starts from.
pub proof fn lemma_walk_state_free<S, T>(
    eligible: spec_fn(T) -> bool,
    kids: spec_fn(T) -> Seq<T>,
    step: spec_fn(S, T) -> (S, TreeControl),
    ctl: spec_fn(T) -> TreeControl,
    n: T,
    s: S,
    t: S,
    h: nat,
)
    requires
        signals_by_node(step, ctl),
    ensures
        walk(eligible, kids, step, n, s, h).visited == walk(eligible, kids, step, n, t, h).visited,
        walk(eligible, kids, step, n, s, h).stopped == walk(eligible, kids, step, n, t, h).stopped,
    decreases h, 0nat,
{
    if h > 0 {
        assert(step(s, n).1 == step(t, n).1);
        lemma_walk_list_state_free(
            eligible,
            kids,
            step,
            ctl,
            kids(n),
            step(s, n).0,
            step(t, n).0,
            (h - 1) as nat,
        );
    }
}

/// Where the signals depend on the node alone, what a walk of a list visits,
/// and whether it stops, does not depend on the state it starts from.
pub proof fn lemma_walk_list_state_free<S, T>(
    eligible: spec_fn(T) -> bool,
    kids: spec_fn(T) -> Seq<T>,
    step: spec_fn(S, T) -> (S, TreeControl),
    ctl: spec_fn(T) -> TreeControl,
    cs: Seq<T>,
    s: S,
    t: S,
    h: nat,
)
    requires
        signals_by_node(step, ctl),
    ensures
        walk_list(eligible, kids, step, cs, s, h).visited == walk_list(
            eligible,
            kids,
            step,
            cs,
            t,
            h,
        ).visited,
        walk_list(eligible, kids, step, cs, s, h).stopped == walk_list(
            eligible,
            kids,
            step,
            cs,
            t,
            h,
        ).stopped,
    decreases h, cs.len(),
{
    if cs.len() > 0 {
        if eligible(cs[0]) {
            lemma_walk_state_free(eligible, kids, step, ctl, cs[0], s, t, h);
        }
        let first_s = if eligible(cs[0]) {
            walk(eligible, kids, step, cs[0], s, h)
        } else {
            idle(s)
        };
        let first_t = if eligible(cs[0]) {
            walk(eligible, kids, step, cs[0], t, h)
        } else {
            idle(t)
        };
        lemma_walk_list_state_free(
            eligible,
            kids,
            step,
            ctl,
            cs.drop_first(),
            first_s.state,
            first_t.state,
            h,
        );
    }
}

/// The walks of the eligible nodes of `cs`, from state `t`, one after the
/// other.
pub open spec fn subtree_walks<S, T>(
    eligible: spec_fn(T) -> bool,
    kids: spec_fn(T) -> Seq<T>,
    step: spec_fn(S, T) -> (S, TreeControl),
    cs: Seq<T>,
    t: S,
    h: nat,
) -> Seq<T> {
    cs.filter(eligible).map_values(|c: T| walk(eligible, kids, step, c, t, h).visited).flatten()
}

/// Walking a list visits the eligible nodes' subtrees one after the other,
/// each to completion, up to a stop.
pub proof fn lemma_walk_list_in_order<S, T>(
    eligible: spec_fn(T) -> bool,
    kids: spec_fn(T) -> Seq<T>,
    step: spec_fn(S, T) -> (S, TreeControl),
    ctl: spec_fn(T) -> TreeControl,
    cs: Seq<T>,
    s: S,
    t: S,
    h: nat,
)
    requires
        signals_by_node(step, ctl),
    ensures
        walk_list(eligible, kids, step, cs, s, h).visited.is_prefix_of(
            subtree_walks(eligible, kids, step, cs, t, h),
        ),
        !walk_list(eligible, kids, step, cs, s, h).stopped ==> walk_list(
            eligible,
            kids,
            step,
            cs,
            s,
            h,
        ).visited == subtree_walks(eligible, kids, step, cs, t, h),
    decreases cs.len(),
{
    let f = |c: T| walk(eligible, kids, step, c, t, h).visited;
    if cs.len() == 0 {
        reveal(Seq::filter);
        assert(subtree_walks(eligible, kids, step, cs, t, h) =~= Seq::<T>::empty());
    } else {
        let c0 = cs[0];
        let rest = cs.drop_first();
        assert(cs =~= seq![c0] + rest);
        rest.lemma_filter_prepend(c0, eligible);
        let pre: Seq<T> = if eligible(c0) {
            seq![c0]
        } else {
            Seq::empty()
        };
        assert(cs.filter(eligible) == pre + rest.filter(eligible));
        assert((pre + rest.filter(eligible)).map_values(f) =~= pre.map_values(f) + rest.filter(
            eligible,
        ).map_values(f));
        lemma_flatten_concat(pre.map_values(f), rest.filter(eligible).map_values(f));
        let head: Seq<T> = if eligible(c0) {
            f(c0)
        } else {
            Seq::empty()
        };
        if eligible(c0) {
            pre.map_values(f).lemma_flatten_one_element();
            assert(pre.map_values(f) =~= seq![f(c0)]);
        } else {
            assert(pre.map_values(f) =~= Seq::<Seq<T>>::empty());
        }
        assert(subtree_walks(eligible, kids, step, cs, t, h) == head + subtree_walks(
            eligible,
            kids,
            step,
            rest,
            t,
            h,
        ));
        if eligible(c0) {
            lemma_walk_state_free(eligible, kids, step, ctl, c0, s, t, h);
        }
        let first = if eligible(c0) {
            walk(eligible, kids, step, c0, s, h)
        } else {
            idle(s)
        };
        assert(first.visited == head);
        if !first.stopped {
            lemma_walk_list_in_order(eligible, kids, step, ctl, rest, first.state, t, h);
        }
    }
}

/// A node at which the visitor continues is visited first, then the whole
/// subtree of each eligible child in turn, in the order that `kids` lists
/// them, each completed before the next is started. A `Break` below cuts
/// this sequence short; without one, it is exactly what is visited.
pub proof fn children_walked_in_order<S, T>(
    eligible: spec_fn(T) -> bool,
    kids: spec_fn(T) -> Seq<T>,
    step: spec_fn(S, T) -> (S, TreeControl),
    ctl: spec_fn(T) -> TreeControl,
    n: T,
    s: S,
    h: nat,
)
    requires
        bounded(eligible, kids, n, h),
        signals_by_node(step, ctl),
        ctl(n) == TreeControl::Continue,
    ensures
        walk(eligible, kids, step, n, s, h).visited.is_prefix_of(
            seq![n] + subtree_walks(eligible, kids, step, kids(n), s, (h - 1) as nat),
        ),
        !walk(eligible, kids, step, n, s, h).stopped ==> walk(
            eligible,
            kids,
            step,
            n,
            s,
            h,
        ).visited == seq![n] + subtree_walks(eligible, kids, step, kids(n), s, (h - 1) as nat),
{
    let g = (h - 1) as nat;
    assert(step(s, n).1 == ctl(n));
    lemma_walk_list_in_order(eligible, kids, step, ctl, kids(n), step(s, n).0, s, g);
    let below = walk_list(eligible, kids, step, kids(n), step(s, n).0, g).visited;
    let all = subtree_walks(eligible, kids, step, kids(n), s, g);
    assert((seq![n] + all).subrange(0, below.len() + 1int) =~= seq![n] + all.subrange(
        0,
        below.len() as int,
    ));
}

/// The state after walking `c` from `t` if `c` is eligible; `t` otherwise.
pub open spec fn state_after<S, T>(
    eligible: spec_fn(T) -> bool,
    kids: spec_fn(T) -> Seq<T>,
    step: spec_fn(S, T) -> (S, TreeControl),
    c: T,
    t: S,
    h: nat,
) -> S {
    if eligible(c) {
        walk(eligible, kids, step, c, t, h).state
    } else {
        t
    }
}

/// The state in which the walk of a list reaches `cs[i]`: `t`, passed on
/// through the walks of the `i` nodes before it.
pub open spec fn states_before<S, T>(
    eligible: spec_fn(T) -> bool,
    kids: spec_fn(T) -> Seq<T>,
    step: spec_fn(S, T) -> (S, TreeControl),
    cs: Seq<T>,
    t: S,
    h: nat,
    i: nat,
) -> S
    decreases i,
{
    if i == 0 {
        t
    } else {
        state_after(
            eligible,
            kids,
            step,
            cs[i - 1],
            states_before(eligible, kids, step, cs, t, h, (i - 1) as nat),
            h,
        )
    }
}

/// For each node of `cs`, what its walk visits, started in the state that
/// the walks of the nodes before it left; nothing for a node that is not
/// eligible.
pub open spec fn sibling_blocks<S, T>(
    eligible: spec_fn(T) -> bool,
    kids: spec_fn(T) -> Seq<T>,
    step: spec_fn(S, T) -> (S, TreeControl),
    cs: Seq<T>,
    t: S,
    h: nat,
) -> Seq<Seq<T>> {
    Seq::new(
        cs.len(),
        |i: int|
            if eligible(cs[i]) {
                walk(
                    eligible,
                    kids,
                    step,
                    cs[i],
                    states_before(eligible, kids, step, cs, t, h, i as nat),
                    h,
                ).visited
            } else {
                Seq::empty()
            },
    )
}

/// Reaching `cs[i + 1]` from `t` is reaching the `i`-th node of the rest of
/// the list from the state that `cs[0]` leaves.
pub proof fn lemma_states_before_shift<S, T>(
    eligible: spec_fn(T) -> bool,
    kids: spec_fn(T) -> Seq<T>,
    step: spec_fn(S, T) -> (S, TreeControl),
    cs: Seq<T>,
    t: S,
    h: nat,
    i: nat,
)
    requires
        i < cs.len(),
    ensures
        states_before(eligible, kids, step, cs, t, h, i + 1) == states_before(
            eligible,
            kids,
            step,
            cs.drop_first(),
            state_after(eligible, kids, step, cs[0], t, h),
            h,
            i,
        ),
    decreases i,
{
    let rest = cs.drop_first();
    let a = state_after(eligible, kids, step, cs[0], t, h);
    if i == 0 {
        assert(states_before(eligible, kids, step, cs, t, h, 0) == t);
        assert(states_before(eligible, kids, step, rest, a, h, 0) == a);
    } else {
        lemma_states_before_shift(eligible, kids, step, cs, t, h, (i - 1) as nat);
        assert(cs[i as int] == rest[i - 1]);
        let before = states_before(eligible, kids, step, cs, t, h, i);
        assert(states_before(eligible, kids, step, cs, t, h, i + 1) == state_after(
            eligible,
            kids,
            step,
            cs[i as int],
            before,
            h,
        ));
        assert(states_before(eligible, kids, step, rest, a, h, i) == state_after(
            eligible,
            kids,
            step,
            rest[i - 1],
            states_before(eligible, kids, step, rest, a, h, (i - 1) as nat),
            h,
        ));
    }
}

/// A walk of a list that does not stop visits the blocks of its nodes one
/// after the other, and ends in the state that the last of them leaves.
pub proof fn lemma_walk_list_blocks<S, T>(
    eligible: spec_fn(T) -> bool,
    kids: spec_fn(T) -> Seq<T>,
    step: spec_fn(S, T) -> (S, TreeControl),
    cs: Seq<T>,
    t: S,
    h: nat,
)
    requires
        !walk_list(eligible, kids, step, cs, t, h).stopped,
    ensures
        walk_list(eligible, kids, step, cs, t, h).visited == sibling_blocks(
            eligible,
            kids,
            step,
            cs,
            t,
            h,
        ).flatten(),
        walk_list(eligible, kids, step, cs, t, h).state == states_before(
            eligible,
            kids,
            step,
            cs,
            t,
            h,
            cs.len(),
        ),
    decreases cs.len(),
{
    let blocks = sibling_blocks(eligible, kids, step, cs, t, h);
    if cs.len() == 0 {
        assert(blocks.flatten() =~= Seq::<T>::empty());
    } else {
        let rest = cs.drop_first();
        let a = state_after(eligible, kids, step, cs[0], t, h);
        lemma_walk_list_blocks(eligible, kids, step, rest, a, h);
        let rest_blocks = sibling_blocks(eligible, kids, step, rest, a, h);
        assert forall|i: int| 0 <= i < rest.len() implies #[trigger] blocks[i + 1]
            == rest_blocks[i] by {
            lemma_states_before_shift(eligible, kids, step, cs, t, h, i as nat);
            assert(cs[i + 1] == rest[i]);
        }
        assert(blocks.drop_first() =~= rest_blocks);
        lemma_states_before_shift(eligible, kids, step, cs, t, h, (cs.len() - 1) as nat);
    }
}

/// A node at which the visitor continues, and whose walk is not stopped, is
/// visited first; then comes one block for each child, in the order that
/// `kids` lists them: the whole walk of the child, started in the state that
/// the blocks before it left, and beginning with the child itself; or nothing
/// for a child that is not eligible. This holds for any visitor.
pub proof fn children_walked_in_turn<S, T>(
    eligible: spec_fn(T) -> bool,
    kids: spec_fn(T) -> Seq<T>,
    step: spec_fn(S, T) -> (S, TreeControl),
    n: T,
    s: S,
    h: nat,
)
    requires
        bounded(eligible, kids, n, h),
        step(s, n).1 == TreeControl::Continue,
        !walk(eligible, kids, step, n, s, h).stopped,
    ensures
        ({
            let blocks = sibling_blocks(
                eligible,
                kids,
                step,
                kids(n),
                step(s, n).0,
                (h - 1) as nat,
            );
            &&& walk(eligible, kids, step, n, s, h).visited == seq![n] + blocks.flatten()
            &&& forall|i: int|
                0 <= i < kids(n).len() && eligible(kids(n)[i]) ==> #[trigger] blocks[i].len() > 0
                    && blocks[i][0] == kids(n)[i]
            &&& forall|i: int|
                0 <= i < kids(n).len() && !eligible(kids(n)[i]) ==> #[trigger] blocks[i].len() == 0
        }),
{
    let g = (h - 1) as nat;
    let s1 = step(s, n).0;
    let cs = kids(n);
    lemma_walk_list_blocks(eligible, kids, step, cs, s1, g);
    let blocks = sibling_blocks(eligible, kids, step, cs, s1, g);
    assert forall|i: int| 0 <= i < cs.len() && eligible(cs[i]) implies #[trigger] blocks[i].len()
        > 0 && blocks[i][0] == cs[i] by {
        assert(bounded(eligible, kids, cs[i], g));
    }
}

/// The signal the visitor gives at the `i`-th of the nodes `xs` handed to it
/// in order from state `s`.
pub open spec fn signal_at<S, T>(
    step: spec_fn(S, T) -> (S, TreeControl),
    s: S,
    xs: Seq<T>,
    i: int,
) -> TreeControl {
    step(replay(step, s, xs.take(i)), xs[i]).1
}

/// The signals along `a + b` are those along `a`, then those along `b` from
/// the state that `a` leaves.
pub proof fn lemma_signal_at_concat<S, T>(
    step: spec_fn(S, T) -> (S, TreeControl),
    t: S,
    a: Seq<T>,
    b: Seq<T>,
    i: int,
)
    requires
        0 <= i < a.len() + b.len(),
    ensures
        signal_at(step, t, a + b, i) == (if i < a.len() {
            signal_at(step, t, a, i)
        } else {
            signal_at(step, replay(step, t, a), b, i - a.len())
        }),
{
    if i < a.len() {
        assert((a + b).take(i) =~= a.take(i));
    } else {
        assert((a + b).take(i) =~= a + b.take(i - a.len()));
        lemma_replay_concat(step, t, a, b.take(i - a.len()));
    }
}

/// A walk stops exactly when a visit answers `Break`: no visit before the
/// last answers it, and the walk is stopped if and only if the last one did.
pub proof fn lemma_walk_stops_at_break<S, T>(
    eligible: spec_fn(T) -> bool,
    kids: spec_fn(T) -> Seq<T>,
    step: spec_fn(S, T) -> (S, TreeControl),
    n: T,
    s: S,
    h: nat,
)
    ensures
        ({
            let w = walk(eligible, kids, step, n, s, h);
            &&& forall|i: int|
                0 <= i < w.visited.len() - 1 ==> signal_at(step, s, w.visited, i)
                    != TreeControl::Break
            &&& w.stopped <==> (w.visited.len() > 0 && signal_at(
                step,
                s,
                w.visited,
                w.visited.len() - 1,
            ) == TreeControl::Break)
        }),
    decreases h, 0nat,
{
    if h > 0 {
        let w = walk(eligible, kids, step, n, s, h);
        let (s1, signal) = step(s, n);
        assert(seq![n].take(0) =~= Seq::<T>::empty());
        assert(signal_at(step, s, seq![n], 0) == signal);
        if signal == TreeControl::Continue {
            let g = (h - 1) as nat;
            let below = walk_list(eligible, kids, step, kids(n), s1, g);
            lemma_walk_list_stops_at_break(eligible, kids, step, kids(n), s1, g);
            assert(seq![n].drop_first() =~= Seq::<T>::empty());
            assert(seq![n][0] == n);
            assert(replay(step, s1, Seq::<T>::empty()) == s1);
            assert(replay(step, s, seq![n]) == replay(step, s1, seq![n].drop_first()));
            assert(replay(step, s, seq![n]) == s1);
            assert forall|i: int| 0 <= i < w.visited.len() implies #[trigger] signal_at(
                step,
                s,
                w.visited,
                i,
            ) == (if i == 0 {
                signal
            } else {
                signal_at(step, s1, below.visited, i - 1)
            }) by {
                lemma_signal_at_concat(step, s, seq![n], below.visited, i);
            }
        }
    }
}

/// The list form of `lemma_walk_stops_at_break`.
pub proof fn lemma_walk_list_stops_at_break<S, T>(
    eligible: spec_fn(T) -> bool,
    kids: spec_fn(T) -> Seq<T>,
    step: spec_fn(S, T) -> (S, TreeControl),
    cs: Seq<T>,
    t: S,
    h: nat,
)
    ensures
        ({
            let w = walk_list(eligible, kids, step, cs, t, h);
            &&& forall|i: int|
                0 <= i < w.visited.len() - 1 ==> signal_at(step, t, w.visited, i)
                    != TreeControl::Break
            &&& w.stopped <==> (w.visited.len() > 0 && signal_at(
                step,
                t,
                w.visited,
                w.visited.len() - 1,
            ) == TreeControl::Break)
        }),
    decreases h, cs.len(),
{
    if cs.len() > 0 {
        let first = if eligible(cs[0]) {
            walk(eligible, kids, step, cs[0], t, h)
        } else {
            idle(t)
        };
        if eligible(cs[0]) {
            lemma_walk_stops_at_break(eligible, kids, step, cs[0], t, h);
            lemma_walk_replays(eligible, kids, step, cs[0], t, h);
        }
        if !first.stopped {
            let rest = walk_list(eligible, kids, step, cs.drop_first(), first.state, h);
            lemma_walk_list_stops_at_break(eligible, kids, step, cs.drop_first(), first.state, h);
            let v = first.visited + rest.visited;
            assert(first.state == replay(step, t, first.visited));
            assert forall|i: int| 0 <= i < v.len() implies #[trigger] signal_at(step, t, v, i) == (
            if i < first.visited.len() {
                signal_at(step, t, first.visited, i)
            } else {
                signal_at(step, first.state, rest.visited, i - first.visited.len())
            }) by {
                lemma_signal_at_concat(step, t, first.visited, rest.visited, i);
            }
            if rest.visited.len() == 0 {
                assert(v =~= first.visited);
            }
        }
    }
}

/// `Break` ends the whole traversal, for any visitor: the traversal is
/// stopped if and only if some visit answered `Break`; that visit is the
/// last one, and no visit before it answered `Break`. So nothing that would
/// come after the node that breaks, in the tree or outside it, is visited.
pub proof fn traversal_stops_at_first_break<S, T>(
    eligible: spec_fn(T) -> bool,
    kids: spec_fn(T) -> Seq<T>,
    step: spec_fn(S, T) -> (S, TreeControl),
    root: T,
    s: S,
    h: nat,
)
    ensures
        ({
            let w = traversal(eligible, kids, step, root, s, h);
            &&& forall|i: int|
                0 <= i < w.visited.len() - 1 ==> signal_at(step, s, w.visited, i)
                    != TreeControl::Break
            &&& w.stopped <==> (w.visited.len() > 0 && signal_at(
                step,
                s,
                w.visited,
                w.visited.len() - 1,
            ) == TreeControl::Break)
            &&& w.state == replay(step, s, w.visited)
        }),
{
    if eligible(root) {
        lemma_walk_stops_at_break(eligible, kids, step, root, s, h);
        lemma_walk_replays(eligible, kids, step, root, s, h);
    }
}

/// The children of each node, but none for `target`.
pub open spec fn cut_at<T>(kids: spec_fn(T) -> Seq<T>, target: T) -> spec_fn(T) -> Seq<T> {
    |x: T|
        if x == target {
            Seq::empty()
        } else {
            kids(x)
        }
}

/// Where the visitor prunes at `target` in any state, the walk from `n` is
/// the walk of the tree in which `target` has no children.
pub proof fn lemma_walk_prune_cuts<S, T>(
    eligible: spec_fn(T) -> bool,
    kids: spec_fn(T) -> Seq<T>,
    step: spec_fn(S, T) -> (S, TreeControl),
    target: T,
    n: T,
    s: S,
    h: nat,
)
    requires
        forall|t: S| (#[trigger] step(t, target)).1 == TreeControl::Prune,
    ensures
        walk(eligible, kids, step, n, s, h) == walk(eligible, cut_at(kids, target), step, n, s, h),
    decreases h, 0nat,
{
    if h > 0 && n != target {
        let (s1, signal) = step(s, n);
        if signal == TreeControl::Continue {
            lemma_walk_list_prune_cuts(eligible, kids, step, target, kids(n), s1, (h - 1) as nat);
        }
    }
}

/// The list form of `lemma_walk_prune_cuts`.
pub proof fn lemma_walk_list_prune_cuts<S, T>(
    eligible: spec_fn(T) -> bool,
    kids: spec_fn(T) -> Seq<T>,
    step: spec_fn(S, T) -> (S, TreeControl),
    target: T,
    cs: Seq<T>,
    s: S,
    h: nat,
)
    requires
        forall|t: S| (#[trigger] step(t, target)).1 == TreeControl::Prune,
    ensures
        walk_list(eligible, kids, step, cs, s, h) == walk_list(
            eligible,
            cut_at(kids, target),
            step,
            cs,
            s,
            h,
        ),
    decreases h, cs.len(),
{
    if cs.len() > 0 {
        if eligible(cs[0]) {
            lemma_walk_prune_cuts(eligible, kids, step, target, cs[0], s, h);
        }
        let first = if eligible(cs[0]) {
            walk(eligible, kids, step, cs[0], s, h)
        } else {
            idle(s)
        };
        lemma_walk_list_prune_cuts(eligible, kids, step, target, cs.drop_first(), first.state, h);
    }
}

/// `Prune` at `target` leaves out exactly the subtree below `target`, for
/// any visitor: where every visit of `target` answers `Prune`, the traversal
/// (what it visits, in which order, the state it ends in, and whether it
/// stops) is the traversal of the same tree with the children of `target`
/// taken away, and nothing else changed.
pub proof fn pruning_cuts_subtree<S, T>(
    eligible: spec_fn(T) -> bool,
    kids: spec_fn(T) -> Seq<T>,
    step: spec_fn(S, T) -> (S, TreeControl),
    target: T,
    root: T,
    s: S,
    h: nat,
)
    requires
        forall|t: S| (#[trigger] step(t, target)).1 == TreeControl::Prune,
    ensures
        traversal(eligible, kids, step, root, s, h) == traversal(
            eligible,
            cut_at(kids, target),
            step,
            root,
            s,
            h,
        ),
{
    lemma_walk_prune_cuts(eligible, kids, step, target, root, s, h);
}

/// Any fuel that bounds the tree gives the same pre-order.
pub proof fn lemma_preorder_fuel<T>(
    eligible: spec_fn(T) -> bool,
    kids: spec_fn(T) -> Seq<T>,
    n: T,
    h1: nat,
    h2: nat,
)
    requires
        bounded(eligible, kids, n, h1),
        bounded(eligible, kids, n, h2),
    ensures
        preorder(eligible, kids, n, h1) == preorder(eligible, kids, n, h2),
{
    let onward = |s: (), x: T| ((), TreeControl::Continue);
    lemma_walk_continuing(eligible, kids, onward, n, (), h1);
    lemma_walk_continuing(eligible, kids, onward, n, (), h2);
    lemma_walk_fuel(eligible, kids, onward, n, (), h1, h2);
}

/// With a visitor that prunes at `target` only, where `target` occurs once in
/// the pre-order below `n`: its subtree is a block of that pre-order, and the
/// walk visits the pre-order without the block's nodes after `target`.
pub proof fn lemma_walk_pruning<S, T>(
    eligible: spec_fn(T) -> bool,
    kids: spec_fn(T) -> Seq<T>,
    step: spec_fn(S, T) -> (S, TreeControl),
    target: T,
    n: T,
    s: S,
    h: nat,
    p: int,
    g: nat,
)
    requires
        prunes_only_at(step, target),
        bounded(eligible, kids, n, h),
        bounded(eligible, kids, target, g),
        only_at(preorder(eligible, kids, n, h), target, p),
    ensures
        ({
            let full = preorder(eligible, kids, n, h);
            let sub = preorder(eligible, kids, target, g);
            &&& p + sub.len() <= full.len()
            &&& full.subrange(p, p + sub.len()) == sub
            &&& walk(eligible, kids, step, n, s, h).visited == full.take(p + 1) + full.skip(
                p + sub.len(),
            )
            &&& !walk(eligible, kids, step, n, s, h).stopped
        }),
    decreases h, 0nat,
{
    let full = preorder(eligible, kids, n, h);
    let sub = preorder(eligible, kids, target, g);
    let k = (h - 1) as nat;
    assert(full[0] == n);
    if n == target {
        assert(p == 0);
        lemma_preorder_fuel(eligible, kids, n, h, g);
        assert(full.subrange(0, sub.len() as int) =~= sub);
        assert(full.take(1) + full.skip(sub.len() as int) =~= seq![n]);
    } else {
        let below = preorder_list(eligible, kids, kids(n), k);
        assert(full == seq![n] + below);
        assert(only_at(below, target, p - 1)) by {
            assert forall|i: int| 0 <= i < below.len() && i != p - 1 implies below[i] != target by {
                assert(below[i] == full[i + 1]);
            }
            assert(below[p - 1] == full[p]);
        }
        lemma_walk_list_pruning(eligible, kids, step, target, kids(n), step(s, n).0, k, p - 1, g);
        assert(full.subrange(p, p + sub.len()) =~= below.subrange(p - 1, p - 1 + sub.len()));
        assert(full.take(p + 1) =~= seq![n] + below.take(p));
        assert(full.skip(p + sub.len()) =~= below.skip(p - 1 + sub.len()));
    }
}

/// The list form of `lemma_walk_pruning`.
pub proof fn lemma_walk_list_pruning<S, T>(
    eligible: spec_fn(T) -> bool,
    kids: spec_fn(T) -> Seq<T>,
    step: spec_fn(S, T) -> (S, TreeControl),
    target: T,
    cs: Seq<T>,
    s: S,
    h: nat,
    p: int,
    g: nat,
)
    requires
        prunes_only_at(step, target),
        forall|i: int|
            0 <= i < cs.len() && eligible(#[trigger] cs[i]) ==> bounded(eligible, kids, cs[i], h),
        bounded(eligible, kids, target, g),
        only_at(preorder_list(eligible, kids, cs, h), target, p),
    ensures
        ({
            let all = preorder_list(eligible, kids, cs, h);
            let sub = preorder(eligible, kids, target, g);
            &&& p + sub.len() <= all.len()
            &&& all.subrange(p, p + sub.len()) == sub
            &&& walk_list(eligible, kids, step, cs, s, h).visited == all.take(p + 1) + all.skip(
                p + sub.len(),
            )
            &&& !walk_list(eligible, kids, step, cs, s, h).stopped
        }),
    decreases h, cs.len(),
{
    let all = preorder_list(eligible, kids, cs, h);
    let sub = preorder(eligible, kids, target, g);
    let head = if eligible(cs[0]) {
        preorder(eligible, kids, cs[0], h)
    } else {
        Seq::empty()
    };
    let rest = cs.drop_first();
    let tail = preorder_list(eligible, kids, rest, h);
    assert(all == head + tail);
    assert forall|i: int| 0 <= i < rest.len() && eligible(#[trigger] rest[i]) implies bounded(
        eligible,
        kids,
        rest[i],
        h,
    ) by {
        assert(rest[i] == cs[i + 1]);
    }
    if p < head.len() {
        assert(eligible(cs[0]));
        assert(only_at(head, target, p)) by {
            assert forall|i: int| 0 <= i < head.len() && i != p implies head[i] != target by {
                assert(head[i] == all[i]);
            }
            assert(head[p] == all[p]);
        }
        assert(bounded(eligible, kids, cs[0], h));
        lemma_walk_pruning(eligible, kids, step, target, cs[0], s, h, p, g);
        let first = walk(eligible, kids, step, cs[0], s, h);
        assert forall|x: T| #[trigger] tail.contains(x) implies continues_at(step, x) by {
            let j = choose|j: int| 0 <= j < tail.len() && tail[j] == x;
            assert(all[head.len() + j] == x);
        }
        lemma_walk_list_continuing(eligible, kids, step, rest, first.state, h);
        assert(all.subrange(p, p + sub.len()) =~= head.subrange(p, p + sub.len()));
        assert(all.take(p + 1) =~= head.take(p + 1));
        assert(all.skip(p + sub.len()) =~= head.skip(p + sub.len()) + tail);
    } else {
        if eligible(cs[0]) {
            assert forall|x: T| #[trigger] head.contains(x) implies continues_at(step, x) by {
                let j = choose|j: int| 0 <= j < head.len() && head[j] == x;
                assert(all[j] == x);
            }
            lemma_walk_continuing(eligible, kids, step, cs[0], s, h);
        }
        let first = if eligible(cs[0]) {
            walk(eligible, kids, step, cs[0], s, h)
        } else {
            idle(s)
        };
        let q = p - head.len();
        assert(only_at(tail, target, q)) by {
            assert forall|i: int| 0 <= i < tail.len() && i != q implies tail[i] != target by {
                assert(tail[i] == all[head.len() + i]);
            }
            assert(tail[q] == all[p]);
        }
        lemma_walk_list_pruning(eligible, kids, step, target, rest, first.state, h, q, g);
        assert(all.subrange(p, p + sub.len()) =~= tail.subrange(q, q + sub.len()));
        assert(all.take(p + 1) =~= head + tail.take(q + 1));
        assert(all.skip(p + sub.len()) =~= tail.skip(q + sub.len()));
    }
}

/// `Prune` at `target` leaves out exactly the subtree below it. Where
/// `target` occurs once in the pre-order, its subtree is a block of the
/// pre-order that starts at `target`; the traversal visits the whole
/// pre-order but for the nodes of that block after `target`, and is not
/// stopped. Where `target` does not occur, everything is visited.
pub proof fn pruning_traversal_skips_subtree<S, T>(
    eligible: spec_fn(T) -> bool,
    kids: spec_fn(T) -> Seq<T>,
    step: spec_fn(S, T) -> (S, TreeControl),
    target: T,
    root: T,
    s: S,
    h: nat,
)
    requires
        bounded(eligible, kids, root, h),
        prunes_only_at(step, target),
    ensures
        forall|p: int, g: nat|
            only_at(tree_preorder(eligible, kids, root, h), target, p) && bounded(
                eligible,
                kids,
                target,
                g,
            ) ==> {
                let full = tree_preorder(eligible, kids, root, h);
                let sub = preorder(eligible, kids, target, g);
                &&& p + sub.len() <= full.len()
                &&& full.subrange(p, p + sub.len()) == sub
                &&& traversal(eligible, kids, step, root, s, h).visited == full.take(p + 1)
                    + full.skip(p + sub.len())
                &&& !traversal(eligible, kids, step, root, s, h).stopped
            },
        !tree_preorder(eligible, kids, root, h).contains(target) ==> {
            &&& traversal(eligible, kids, step, root, s, h).visited == tree_preorder(
                eligible,
                kids,
                root,
                h,
            )
            &&& !traversal(eligible, kids, step, root, s, h).stopped
        },
{
    assert forall|p: int, g: nat|
        only_at(tree_preorder(eligible, kids, root, h), target, p) && bounded(
            eligible,
            kids,
            target,
            g,
        ) implies {
        let full = tree_preorder(eligible, kids, root, h);
        let sub = preorder(eligible, kids, target, g);
        &&& p + sub.len() <= full.len()
        &&& full.subrange(p, p + sub.len()) == sub
        &&& traversal(eligible, kids, step, root, s, h).visited == full.take(p + 1) + full.skip(
            p + sub.len(),
        )
        &&& !traversal(eligible, kids, step, root, s, h).stopped
    } by {
        lemma_walk_pruning(eligible, kids, step, target, root, s, h, p, g);
    }
    if eligible(root) && !preorder(eligible, kids, root, h).contains(target) {
        lemma_walk_continuing(eligible, kids, step, root, s, h);
    }
}

} // verus!
