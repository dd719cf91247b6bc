//! Generating words letter by letter, as a walk over the tree of prefixes.

use vstd::prelude::*;
use vstd::string::{StrSliceExecFns, StringExecFns};
use crate::control::TreeControl;
use crate::model::{bounded, walk, walk_list};
use crate::traverse::{traverse_by_model, views};

verus! {

/// The words found so far, in order.
pub struct WordList {
    pub words: Vec<String>,
}

impl View for WordList {
    type V = Seq<Seq<char>>;

    open spec fn view(&self) -> Seq<Seq<char>> {
        views(self.words@)
    }
}

/// The words that extend `prefix` by at most `left` letters from `a`, `b`,
/// `c`: `prefix` first, then those through `a`, through `b`, through `c`.
pub open spec fn words_below(prefix: Seq<char>, left: nat) -> Seq<Seq<char>>
    decreases left,
{
    if left == 0 {
        seq![prefix]
    } else {
        seq![prefix] + words_below(prefix.push('a'), (left - 1) as nat) + words_below(
            prefix.push('b'),
            (left - 1) as nat,
        ) + words_below(prefix.push('c'), (left - 1) as nat)
    }
}

/// A word of at most `max_len` letters may be visited.
pub open spec fn short_enough(max_len: usize) -> spec_fn(Seq<char>) -> bool {
    |w: Seq<char>| w.len() <= max_len
}

/// A word extends by one letter of `a`, `b`, `c`, in that order.
pub open spec fn extensions() -> spec_fn(Seq<char>) -> Seq<Seq<char>> {
    |w: Seq<char>| seq![w.push('a'), w.push('b'), w.push('c')]
}

/// The visitor that records each word and prunes at the longest ones.
pub open spec fn record_step(max_len: usize) -> spec_fn(Seq<Seq<char>>, Seq<char>) -> (
    Seq<Seq<char>>,
    TreeControl,
) {
    |v: Seq<Seq<char>>, w: Seq<char>|
        (
            v.push(w),
            if w.len() == max_len {
                TreeControl::Prune
            } else {
                TreeControl::Continue
            },
        )
}

/// The tree of words below `w` is bounded by the letters left to add.
pub proof fn lemma_words_bounded(max_len: usize, w: Seq<char>)
    requires
        w.len() <= max_len,
    ensures
        bounded(short_enough(max_len), extensions(), w, (max_len - w.len() + 1) as nat),
    decreases max_len - w.len(),
{
    let kids = extensions()(w);
    assert forall|i: int|
        0 <= i < kids.len() && short_enough(max_len)(#[trigger] kids[i]) implies bounded(
        short_enough(max_len),
        extensions(),
        kids[i],
        (max_len - w.len()) as nat,
    ) by {
        lemma_words_bounded(max_len, kids[i]);
    }
}

/// Walking from `w` appends `words_below(w, ..)` to the state, and does not
/// stop.
pub proof fn lemma_words_walk(max_len: usize, w: Seq<char>, s: Seq<Seq<char>>, h: nat)
    requires
        w.len() <= max_len,
        h > max_len - w.len(),
    ensures
        walk(short_enough(max_len), extensions(), record_step(max_len), w, s, h).state == s
            + words_below(w, (max_len - w.len()) as nat),
        !walk(short_enough(max_len), extensions(), record_step(max_len), w, s, h).stopped,
    decreases max_len - w.len(),
{
    let e = short_enough(max_len);
    let k = extensions();
    let st = record_step(max_len);
    let left = (max_len - w.len()) as nat;
    let s1 = s.push(w);
    if left == 0 {
        assert(s1 =~= s + seq![w]);
    } else {
        let g = (h - 1) as nat;
        let (wa, wb, wc) = (w.push('a'), w.push('b'), w.push('c'));
        let cs = k(w);
        lemma_words_walk(max_len, wa, s1, g);
        let sa = walk(e, k, st, wa, s1, g).state;
        lemma_words_walk(max_len, wb, sa, g);
        let sb = walk(e, k, st, wb, sa, g).state;
        lemma_words_walk(max_len, wc, sb, g);
        let sc = walk(e, k, st, wc, sb, g).state;
        assert(cs.drop_first() =~= seq![wb, wc]);
        assert(cs.drop_first().drop_first() =~= seq![wc]);
        assert(cs.drop_first().drop_first().drop_first() =~= Seq::<Seq<char>>::empty());
        assert(walk_list(e, k, st, Seq::<Seq<char>>::empty(), sc, g).state == sc);
        assert(walk_list(e, k, st, seq![wc], sb, g).state == sc);
        assert(walk_list(e, k, st, seq![wb, wc], sa, g).state == sc);
        assert(walk_list(e, k, st, cs, s1, g).state == sc);
        assert(!walk_list(e, k, st, cs, s1, g).stopped);
        let l1 = (left - 1) as nat;
        assert(s1 + words_below(wa, l1) + words_below(wb, l1) + words_below(wc, l1) =~= s
            + words_below(w, left));
    }
}

/// Every word of at most `max_len` letters from `a`, `b`, `c`, each before
/// its extensions, in alphabetical order otherwise.
pub fn generate_strings(max_len: usize) -> (r: Vec<String>)
    ensures
        views(r@) == words_below(Seq::empty(), max_len as nat),
{
    let condition = |w: &String| -> (r: bool)
        ensures
            r == (w@.len() <= max_len),
        { w.as_str().unicode_len() <= max_len };
    let branch_fn = |w: &String| -> (r: Vec<String>)
        ensures
            views(r@) == extensions()(w@),
        {
            proof {
                reveal_strlit("a");
                reveal_strlit("b");
                reveal_strlit("c");
            }
            let wa = w.clone().concat("a");
            assert(wa@ =~= w@.push('a'));
            let wb = w.clone().concat("b");
            assert(wb@ =~= w@.push('b'));
            let wc = w.clone().concat("c");
            assert(wc@ =~= w@.push('c'));
            let mut r: Vec<String> = Vec::new();
            r.push(wa);
            r.push(wb);
            r.push(wc);
            assert(views(r@) =~= extensions()(w@));
            r
        };
    let visit_fn = |acc: WordList, w: &String| -> (r: (WordList, TreeControl))
        ensures
            r.0@ == acc@.push(w@),
            r.1 == (if w@.len() == max_len {
                TreeControl::Prune
            } else {
                TreeControl::Continue
            }),
        {
            let mut acc = acc;
            let ghost before = acc@;
            acc.words.push(w.clone());
            assert(acc@ =~= before.push(w@));
            if w.as_str().unicode_len() == max_len {
                (acc, TreeControl::Prune)
            } else {
                (acc, TreeControl::Continue)
            }
        };
    let root = String::new();
    let start = WordList { words: Vec::new() };
    let ghost h = (max_len + 1) as nat;
    proof {
        assert(start@ =~= Seq::<Seq<char>>::empty());
        lemma_words_bounded(max_len, root@);
        lemma_words_walk(max_len, root@, start@, h);
        assert(Seq::<Seq<char>>::empty() + words_below(root@, max_len as nat) =~= words_below(
            root@,
            max_len as nat,
        ));
    }
    let found = traverse_by_model(
        root,
        start,
        condition,
        branch_fn,
        visit_fn,
        Ghost(short_enough(max_len)),
        Ghost(extensions()),
        Ghost(record_step(max_len)),
        Ghost(h),
    );
    found.words
}

} // verus!
