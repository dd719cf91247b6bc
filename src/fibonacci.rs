//! The Fibonacci numbers below a limit, as a walk down a chain of pairs.

use vstd::prelude::*;
use crate::control::TreeControl;
use crate::model::{bounded, walk, walk_list};
use crate::traverse::{traverse_by_model, views};

verus! {

/// The Fibonacci numbers, starting 1, 1.
pub open spec fn fib(k: nat) -> nat
    decreases k,
{
    if k < 2 {
        1
    } else {
        fib((k - 2) as nat) + fib((k - 1) as nat)
    }
}

/// The Fibonacci numbers grow at least as fast as their index, and each is
/// at most twice the one before.
pub proof fn lemma_fib_growth(k: nat)
    ensures
        fib(k) >= k,
        fib(k) >= 1,
        fib(k + 1) <= 2 * fib(k),
        fib(k) <= fib(k + 1),
    decreases k,
{
    if k >= 2 {
        lemma_fib_growth((k - 1) as nat);
        lemma_fib_growth((k - 2) as nat);
    }
    if k >= 1 {
        assert(fib(k + 1) == fib((k - 1) as nat) + fib(k));
    }
}

/// `m` is the first index whose Fibonacci number reaches `limit`.
pub open spec fn first_reaching(limit: nat, m: nat) -> bool {
    fib(m) >= limit && forall|j: nat| j < m ==> #[trigger] fib(j) < limit
}

/// Some index is the first whose Fibonacci number reaches `limit`, and it is
/// no greater than `j` where `fib(j)` reaches it.
pub proof fn lemma_first_reaching(limit: nat, j: nat)
    requires
        fib(j) >= limit,
    ensures
        exists|m: nat| m <= j && first_reaching(limit, m),
    decreases j,
{
    if exists|i: nat| i < j && fib(i) >= limit {
        let i = choose|i: nat| i < j && fib(i) >= limit;
        lemma_first_reaching(limit, i);
    } else {
        assert(first_reaching(limit, j));
    }
}

/// A pair is visited while its first number is below `limit`.
pub open spec fn below(limit: u64) -> spec_fn((u64, u64)) -> bool {
    |p: (u64, u64)| p.0 < limit
}

/// A pair `(a, b)` leads to `(b, a + b)`, the sum saturating.
pub open spec fn next_pair() -> spec_fn((u64, u64)) -> Seq<(u64, u64)> {
    |p: (u64, u64)| seq![(p.1, p.0.saturating_add(p.1))]
}

/// The visitor that records the first number of each pair.
pub open spec fn record_first() -> spec_fn(Seq<u64>, (u64, u64)) -> (Seq<u64>, TreeControl) {
    |v: Seq<u64>, p: (u64, u64)| (v.push(p.0), TreeControl::Continue)
}

/// The Fibonacci numbers from index `k` up to, not including, index `m`.
pub open spec fn fib_range(k: nat, m: nat) -> Seq<u64> {
    Seq::new((m - k) as nat, |i: int| fib((k + i) as nat) as u64)
}

/// The walk from the pair at index `k` records the Fibonacci numbers from `k`
/// up to the first that reaches `limit`.
pub proof fn lemma_fib_walk(limit: u64, m: nat, k: nat, s: Seq<u64>, h: nat)
    requires
        limit <= u64::MAX / 3,
        first_reaching(limit as nat, m),
        k < m,
        h > m - k,
    ensures
        ({
            let p = (fib(k) as u64, fib(k + 1) as u64);
            &&& bounded(below(limit), next_pair(), p, (m - k) as nat)
            &&& walk(below(limit), next_pair(), record_first(), p, s, h).state == s + fib_range(
                k,
                m,
            )
        }),
    decreases m - k,
{
    let e = below(limit);
    let kn = next_pair();
    let st = record_first();
    lemma_fib_growth(k);
    lemma_fib_growth(k + 1);
    assert(fib(k) < limit);
    assert(fib(k + 2) == fib(k) + fib(k + 1));
    let p = (fib(k) as u64, fib(k + 1) as u64);
    let q = (fib(k + 1) as u64, fib(k + 2) as u64);
    assert(kn(p) == seq![q]);
    let g = (h - 1) as nat;
    let s1 = s.push(fib(k) as u64);
    let none = Seq::<(u64, u64)>::empty();
    assert(seq![q].drop_first() =~= none);
    assert(walk_list(e, kn, st, none, s1, g).state == s1);
    if k + 1 == m {
        assert(!e(q));
        assert(walk(e, kn, st, p, s, h).state == s1);
        assert(s1 =~= s + fib_range(k, m));
    } else {
        assert(fib(k + 1) < limit);
        lemma_fib_walk(limit, m, k + 1, s1, g);
        let s2 = walk(e, kn, st, q, s1, g).state;
        assert(walk_list(e, kn, st, none, s2, g).state == s2);
        assert(walk(e, kn, st, p, s, h).state == s2);
        assert(s1 + fib_range(k + 1, m) =~= s + fib_range(k, m));
    }
}

/// The Fibonacci numbers below `limit`, in order, starting 1, 1.
pub fn fibonacci_below(limit: u64) -> (r: Vec<u64>)
    requires
        limit <= u64::MAX / 3,
    ensures
        forall|i: int| 0 <= i < r.len() ==> r[i] == fib(i as nat) && fib(i as nat) < limit,
        fib(r.len() as nat) >= limit,
{
    let condition = |p: &(u64, u64)| -> (r: bool)
        ensures
            r == (p.0 < limit),
        { p.0 < limit };
    let branch_fn = |p: &(u64, u64)| -> (r: Vec<(u64, u64)>)
        ensures
            views(r@) == next_pair()(p@),
        {
            let mut r: Vec<(u64, u64)> = Vec::new();
            r.push((p.1, p.0.saturating_add(p.1)));
            assert(views(r@) =~= next_pair()(p@));
            r
        };
    let visit_fn = |acc: Vec<u64>, p: &(u64, u64)| -> (r: (Vec<u64>, TreeControl))
        ensures
            r.0@ == acc@.push(p.0),
            r.1 == TreeControl::Continue,
        {
            let mut acc = acc;
            acc.push(p.0);
            (acc, TreeControl::Continue)
        };
    proof {
        lemma_fib_growth(limit as nat);
        lemma_first_reaching(limit as nat, limit as nat);
    }
    let ghost m = choose|m: nat| m <= limit && first_reaching(limit as nat, m);
    let ghost h = m + 1;
    let empty: Vec<u64> = Vec::new();
    assert(empty@ == Seq::<u64>::empty());
    proof {
        if m > 0 {
            lemma_fib_walk(limit, m, 0, Seq::empty(), h);
            crate::model::lemma_bounded_more(below(limit), next_pair(), (1u64, 1u64), m, h);
            assert(Seq::<u64>::empty() + fib_range(0, m) =~= fib_range(0, m));
        }
    }
    let r = traverse_by_model(
        (1u64, 1u64),
        empty,
        condition,
        branch_fn,
        visit_fn,
        Ghost(below(limit)),
        Ghost(next_pair()),
        Ghost(record_first()),
        Ghost(h),
    );
    proof {
        if m == 0 {
            assert(fib(0) >= limit);
        } else {
            assert(r@ == fib_range(0, m));
        }
    }
    r
}

} // verus!
