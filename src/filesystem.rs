//! A small file-system tree, walked directory by directory.

use vstd::prelude::*;
use crate::control::TreeControl;
use crate::laws::{
    continuing_traversal_visits_preorder, lemma_replay_collects, lemma_walk_replays, preorder,
};
use crate::model::{bounded, lemma_bounded_more, traversal};
use crate::traverse::{traverse_by_model, views};

verus! {

broadcast use vstd::std_specs::vec::group_vec_axioms;

/// A file or a directory, with the nodes it contains.
pub struct FileSystemNode {
    pub name: String,
    pub is_directory: bool,
    pub children: Vec<FileSystemNode>,
}

/// A node is seen as itself.
impl View for FileSystemNode {
    type V = FileSystemNode;

    #[verifier::inline]
    open spec fn view(&self) -> FileSystemNode {
        *self
    }
}

/// The nodes a directory contains, in order; a file contains none.
pub open spec fn fs_child_nodes(n: FileSystemNode) -> Seq<FileSystemNode> {
    if n.is_directory {
        n.children@
    } else {
        Seq::empty()
    }
}

/// The contents of a node, as the walk reads them.
pub open spec fn fs_kids() -> spec_fn(FileSystemNode) -> Seq<FileSystemNode> {
    |n: FileSystemNode| fs_child_nodes(n)
}

/// Every node is eligible.
pub open spec fn every_entry() -> spec_fn(FileSystemNode) -> bool {
    |n: FileSystemNode| true
}

impl FileSystemNode {
    /// The nodes this one contains, in order: a directory's children, or
    /// nothing for a file.
    pub fn entries(&self) -> (r: Vec<&FileSystemNode>)
        ensures
            views(r@) == fs_child_nodes(*self),
    {
        let mut r: Vec<&FileSystemNode> = Vec::new();
        if self.is_directory {
            let mut i: usize = 0;
            while i < self.children.len()
                invariant
                    i <= self.children.len(),
                    views(r@) == self.children@.take(i as int),
                decreases self.children.len() - i,
            {
                let ghost prev = r@;
                r.push(&self.children[i]);
                assert(views(r@) =~= views(prev).push(self.children@[i as int]));
                assert(self.children@.take(i + 1) =~= self.children@.take(i as int).push(
                    self.children@[i as int],
                ));
                i += 1;
            }
            assert(views(r@) =~= fs_child_nodes(*self));
        } else {
            assert(views(r@) =~= fs_child_nodes(*self));
        }
        r
    }
}

/// A file-system tree is finite: some fuel bounds it.
pub proof fn lemma_fs_bounded(n: FileSystemNode)
    ensures
        exists|h: nat| bounded(every_entry(), fs_kids(), n, h),
    decreases n, n.children.len() + 1,
{
    let len = n.children.len() as int;
    lemma_fs_children_bounded(n, len);
    let g = choose|g: nat| bounds_children(n, len, g);
    let kids = fs_child_nodes(n);
    assert forall|i: int|
        0 <= i < kids.len() && every_entry()(#[trigger] kids[i]) implies bounded(
        every_entry(),
        fs_kids(),
        kids[i],
        g,
    ) by {
        assert(kids[i] == n.children[i]);
    }
    assert(bounded(every_entry(), fs_kids(), n, g + 1));
}

/// The fuel `g` bounds each of the first `k` children of `n`.
pub open spec fn bounds_children(n: FileSystemNode, k: int, g: nat) -> bool {
    forall|i: int| 0 <= i < k ==> bounded(every_entry(), fs_kids(), #[trigger] n.children[i], g)
}

/// Some one fuel bounds each of the first `k` children of `n`.
pub proof fn lemma_fs_children_bounded(n: FileSystemNode, k: int)
    requires
        0 <= k <= n.children.len(),
    ensures
        exists|g: nat| bounds_children(n, k, g),
    decreases n, k,
{
    if k == 0 {
        assert(bounds_children(n, k, 0));
    } else {
        let k1 = k - 1;
        lemma_fs_children_bounded(n, k1);
        let g1 = choose|g: nat| bounds_children(n, k1, g);
        let last = n.children[k - 1];
        lemma_fs_bounded(last);
        let g2 = choose|h: nat| bounded(every_entry(), fs_kids(), last, h);
        let g = if g1 >= g2 {
            g1
        } else {
            g2
        };
        assert forall|i: int| 0 <= i < k implies bounded(
            every_entry(),
            fs_kids(),
            #[trigger] n.children[i],
            g,
        ) by {
            if i < k - 1 {
                lemma_bounded_more(every_entry(), fs_kids(), n.children[i], g1, g);
            } else {
                lemma_bounded_more(every_entry(), fs_kids(), last, g2, g);
            }
        }
        assert(bounds_children(n, k, g));
    }
}

/// `n` directly contains a node named `name`.
pub open spec fn has_child_named(n: FileSystemNode, name: Seq<char>) -> bool {
    exists|i: int| 0 <= i < n.children.len() && (#[trigger] n.children[i]).name@ == name
}

/// The number of nodes on the chain of first children from `n` that a search
/// for `name` passes: it ends at the first node that directly contains a node
/// named `name`, or that contains nothing.
pub open spec fn spine_depth(n: FileSystemNode, name: Seq<char>) -> nat
    decreases n,
{
    if has_child_named(n, name) || n.children.len() == 0 {
        1
    } else {
        1 + spine_depth(n.children[0], name)
    }
}

/// The depth reported for `node` below `root`: none for a node named as the
/// root, else the length of the chain of first children that the search for
/// its name passes.
pub open spec fn depth_of(node: FileSystemNode, root: FileSystemNode) -> nat {
    if node.name@ == root.name@ {
        0
    } else {
        spine_depth(root, node.name@)
    }
}

/// `x`, or the largest `usize` where `x` is larger.
pub open spec fn capped(x: nat) -> nat {
    if x > usize::MAX {
        usize::MAX as nat
    } else {
        x
    }
}

/// An estimate of the depth of `node` below `root`, found by name: zero for
/// the root's name; otherwise the search goes down the chain of first
/// children from `root`, one level at a time, and stops at the first node
/// that directly contains a node of that name, or that contains nothing.
/// Only nodes on that chain and their children are found at their true
/// depth. The count saturates at the largest `usize`.
pub fn get_depth(node: &FileSystemNode, root: &FileSystemNode) -> (r: usize)
    ensures
        r as nat == capped(depth_of(*node, *root)),
{
    if node.name == root.name {
        return 0;
    }
    let ghost name = node.name@;
    let ghost total = spine_depth(*root, name);
    let ghost mut passed: nat = 0;
    let mut current: Option<&FileSystemNode> = Some(root);
    let mut depth: usize = 0;
    loop
        invariant
            name == node.name@,
            name != root.name@,
            total == spine_depth(*root, name),
            depth as nat == capped(passed),
            match current {
                Some(n) => total == passed + spine_depth(*n, name),
                None => total == passed,
            },
        decreases match current {
            Some(n) => spine_depth(*n, name),
            None => 0,
        },
    {
        match current {
            None => {
                return depth;
            },
            Some(n) => {
                let mut i: usize = 0;
                while i < n.children.len()
                    invariant
                        name == node.name@,
                        name != root.name@,
                        total == spine_depth(*root, name),
                        i <= n.children.len(),
                        forall|j: int| 0 <= j < i ==> (#[trigger] n.children[j]).name@ != name,
                        total == passed + spine_depth(*n, name),
                        depth as nat == capped(passed),
                    decreases n.children.len() - i,
                {
                    if n.children[i].name == node.name {
                        assert(has_child_named(*n, name));
                        return depth.saturating_add(1);
                    }
                    i += 1;
                }
                assert(!has_child_named(*n, name));
                depth = depth.saturating_add(1);
                proof {
                    passed = passed + 1;
                }
                if n.children.len() > 0 {
                    current = Some(&n.children[0]);
                } else {
                    current = None;
                }
            },
        }
    }
}

/// A fuel that bounds the tree below `root`.
pub open spec fn fs_fuel(root: FileSystemNode) -> nat {
    choose|h: nat| bounded(every_entry(), fs_kids(), root, h)
}

/// Every node below `root`, `root` first, in pre-order.
pub open spec fn fs_nodes(root: FileSystemNode) -> Seq<FileSystemNode> {
    preorder(every_entry(), fs_kids(), root, fs_fuel(root))
}

/// The line of the listing for `n`: its depth as `get_depth` reports it,
/// whether it is a directory, and its name.
pub open spec fn entry_of(root: FileSystemNode, n: FileSystemNode) -> (usize, bool, String) {
    (capped(depth_of(n, root)) as usize, n.is_directory, n.name)
}

/// The visitor that appends the entry of each node and always continues.
pub open spec fn listing_step(root: FileSystemNode) -> spec_fn(
    Seq<(usize, bool, String)>,
    FileSystemNode,
) -> (Seq<(usize, bool, String)>, TreeControl) {
    |v: Seq<(usize, bool, String)>, n: FileSystemNode|
        (v.push(entry_of(root, n)), TreeControl::Continue)
}

/// Lists the tree below `root` in pre-order, descending into directories
/// only: for each node, its depth as `get_depth` reports it, whether it is a
/// directory, and its name.
pub fn filesystem_listing<'a>(root: &'a FileSystemNode) -> (r: Vec<(usize, bool, String)>)
    ensures
        r@ == fs_nodes(*root).map_values(|n: FileSystemNode| entry_of(*root, n)),
{
    let condition = |n: &&'a FileSystemNode| -> (r: bool)
        ensures
            r,
        { true };
    let branch_fn = |n: &&'a FileSystemNode| -> (r: Vec<&'a FileSystemNode>)
        ensures
            views(r@) == fs_child_nodes(**n),
        { n.entries() };
    let visit_fn = |acc: Vec<(usize, bool, String)>, n: &&'a FileSystemNode| -> (r: (
        Vec<(usize, bool, String)>,
        TreeControl,
    ))
        ensures
            r.0@ == acc@.push(entry_of(*root, **n)),
            r.1 == TreeControl::Continue,
        {
            let mut acc = acc;
            acc.push((get_depth(n, root), n.is_directory, n.name.clone()));
            (acc, TreeControl::Continue)
        };
    let ghost step = listing_step(*root);
    proof {
        lemma_fs_bounded(*root);
    }
    let ghost h = fs_fuel(*root);
    let empty: Vec<(usize, bool, String)> = Vec::new();
    assert(empty@ == Seq::<(usize, bool, String)>::empty());
    let r = traverse_by_model(
        root,
        empty,
        condition,
        branch_fn,
        visit_fn,
        Ghost(every_entry()),
        Ghost(fs_kids()),
        Ghost(step),
        Ghost(h),
    );
    proof {
        let out = traversal(every_entry(), fs_kids(), step, *root, Seq::empty(), h);
        continuing_traversal_visits_preorder(
            every_entry(),
            fs_kids(),
            step,
            *root,
            Seq::empty(),
            h,
        );
        lemma_walk_replays(every_entry(), fs_kids(), step, *root, Seq::empty(), h);
        let entry = |n: FileSystemNode| entry_of(*root, n);
        lemma_replay_collects(step, entry, Seq::empty(), out.visited);
        assert(r@ =~= fs_nodes(*root).map_values(|n: FileSystemNode| entry_of(*root, n)));
    }
    r
}

/// A file named `name`.
fn file(name: &str) -> (r: FileSystemNode)
    ensures
        r.name@ == name@,
        !r.is_directory,
        r.children.len() == 0,
{
    FileSystemNode { name: name.to_owned(), is_directory: false, children: Vec::new() }
}

/// A directory named `name` holding `children`.
fn directory(name: &str, children: Vec<FileSystemNode>) -> (r: FileSystemNode)
    ensures
        r.name@ == name@,
        r.is_directory,
        r.children == children,
{
    FileSystemNode { name: name.to_owned(), is_directory: true, children }
}

/// `n` is a file named `name`, with nothing inside.
pub open spec fn is_file(n: FileSystemNode, name: Seq<char>) -> bool {
    n.name@ == name && !n.is_directory && n.children.len() == 0
}

/// A small tree: a root directory holding a `documents` directory with two
/// files, a `pictures` directory with one, and a file of its own.
pub fn sample_filesystem() -> (r: FileSystemNode)
    ensures
        r.name@ == "root"@,
        r.is_directory,
        r.children.len() == 3,
        r.children[0].name@ == "documents"@,
        r.children[0].is_directory,
        r.children[0].children.len() == 2,
        is_file(r.children[0].children[0], "report.docx"@),
        is_file(r.children[0].children[1], "data.xlsx"@),
        r.children[1].name@ == "pictures"@,
        r.children[1].is_directory,
        r.children[1].children.len() == 1,
        is_file(r.children[1].children[0], "vacation.jpg"@),
        is_file(r.children[2], "config.cfg"@),
{
    let documents = directory("documents", vec![file("report.docx"), file("data.xlsx")]);
    let pictures = directory("pictures", vec![file("vacation.jpg")]);
    directory("root", vec![documents, pictures, file("config.cfg")])
}

} // verus!
