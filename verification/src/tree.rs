use vstd::prelude::*;

verus! {

/// What a node of the directory tree is: a regular file with its size in
/// bytes, or a directory holding the arena indices of its immediate children.
pub enum FsNodeKind {
    File { size: u64 },
    Dir { children: Vec<usize> },
}

/// One entry of the directory tree: its basename, its full path, and its kind.
pub struct FsNode {
    pub name: String,
    pub path: String,
    pub kind: FsNodeKind,
}

/// A directory tree held as an arena of nodes. Node 0 is the root directory;
/// a directory's `children` field lists the arena indices of its entries.
pub struct FsTree {
    pub nodes: Vec<FsNode>,
}

/// The child indices of node `i`, or the empty sequence for a file.
pub open spec fn kids(nodes: Seq<FsNode>, i: usize) -> Seq<usize> {
    match nodes[i as int].kind {
        FsNodeKind::Dir { children } => children@,
        FsNodeKind::File { .. } => Seq::empty(),
    }
}

/// Well-formedness of the arena: node 0 is a directory, every child index is
/// in bounds and strictly greater than its parent's index (so the arena is in
/// topological order and traversals terminate), and no index is the child of
/// two parents, nor listed twice under one (the arena is a tree).
pub open spec fn tree_wf(nodes: Seq<FsNode>) -> bool {
    &&& nodes.len() >= 1
    &&& nodes[0].kind is Dir
    &&& forall|i: usize, k: int|
        i < nodes.len() && 0 <= k < kids(nodes, i).len()
            ==> i < #[trigger] kids(nodes, i)[k] < nodes.len()
    &&& forall|i: usize, k: int, j: usize, l: int|
        i < nodes.len() && 0 <= k < kids(nodes, i).len() && j < nodes.len() && 0 <= l
            < kids(nodes, j).len() && #[trigger] kids(nodes, i)[k] == #[trigger] kids(
            nodes,
            j,
        )[l] ==> i == j && k == l
}

impl FsTree {
    pub open spec fn wf(self) -> bool {
        tree_wf(self.nodes@)
    }
}

/// The number of bytes under node `i`: a file's size is its recorded length,
/// a directory's size is the sum of the regular-file sizes under it.
pub open spec fn size_of(nodes: Seq<FsNode>, i: usize) -> nat
    decreases nodes.len() - i, kids(nodes, i).len() + 1,
        when tree_wf(nodes) && i < nodes.len()
{
    match nodes[i as int].kind {
        FsNodeKind::File { size } => size as nat,
        FsNodeKind::Dir { .. } => size_list(nodes, i, kids(nodes, i)),
    }
}

/// The byte count contributed by the children `cs` of node `p`.
pub open spec fn size_list(nodes: Seq<FsNode>, p: usize, cs: Seq<usize>) -> nat
    decreases nodes.len() - p, cs.len(),
        when tree_wf(nodes) && p < nodes.len() && (forall|k: int|
            0 <= k < cs.len() ==> p < #[trigger] cs[k] < nodes.len())
{
    if cs.len() == 0 {
        0
    } else {
        size_of(nodes, cs[0]) + size_list(nodes, p, cs.drop_first())
    }
}

/// The subtree rooted at node `i`: the node itself and everything below it.
pub open spec fn subtree_of(nodes: Seq<FsNode>, i: usize) -> Set<usize>
    decreases nodes.len() - i, kids(nodes, i).len() + 1,
        when tree_wf(nodes) && i < nodes.len()
{
    subtree_list(nodes, i, kids(nodes, i)).insert(i)
}

/// The subtrees contributed by the children `cs` of node `p`.
pub open spec fn subtree_list(nodes: Seq<FsNode>, p: usize, cs: Seq<usize>) -> Set<usize>
    decreases nodes.len() - p, cs.len(),
        when tree_wf(nodes) && p < nodes.len() && (forall|k: int|
            0 <= k < cs.len() ==> p < #[trigger] cs[k] < nodes.len())
{
    if cs.len() == 0 {
        Set::empty()
    } else {
        subtree_of(nodes, cs[0]).union(subtree_list(nodes, p, cs.drop_first()))
    }
}

/// In a well-formed tree a child's index lies strictly between its parent's
/// and the arena's length.
pub proof fn lemma_child_bounds(nodes: Seq<FsNode>, p: usize, x: usize)
    requires
        tree_wf(nodes),
        p < nodes.len(),
        kids(nodes, p).contains(x),
    ensures
        p < x < nodes.len(),
{
    let k = choose|k: int| 0 <= k < kids(nodes, p).len() && kids(nodes, p)[k] == x;
    assert(p < kids(nodes, p)[k] < nodes.len());
}

/// In a well-formed tree an entry is the child of at most one directory.
pub proof fn lemma_unique_parent(nodes: Seq<FsNode>, p1: usize, p2: usize, x: usize)
    requires
        tree_wf(nodes),
        p1 < nodes.len(),
        p2 < nodes.len(),
        kids(nodes, p1).contains(x),
        kids(nodes, p2).contains(x),
    ensures
        p1 == p2,
{
    let k1 = choose|k: int| 0 <= k < kids(nodes, p1).len() && kids(nodes, p1)[k] == x;
    let k2 = choose|k: int| 0 <= k < kids(nodes, p2).len() && kids(nodes, p2)[k] == x;
    assert(kids(nodes, p1)[k1] == kids(nodes, p2)[k2]);
}

/// Everything in the subtree of node `i` lies at or above index `i` and
/// inside the arena.
pub proof fn lemma_subtree_bounds(nodes: Seq<FsNode>, i: usize)
    requires
        tree_wf(nodes),
        i < nodes.len(),
    ensures
        forall|x: usize| #[trigger] subtree_of(nodes, i).contains(x) ==> i <= x < nodes.len(),
    decreases nodes.len() - i, kids(nodes, i).len() + 1,
{
    assert(forall|k: int|
        0 <= k < kids(nodes, i).len() ==> i < #[trigger] kids(nodes, i)[k] < nodes.len());
    lemma_subtree_list_bounds(nodes, i, kids(nodes, i));
    assert forall|x: usize| #[trigger] subtree_of(nodes, i).contains(x) implies i <= x
        < nodes.len() by {
        if x != i {
            assert(subtree_list(nodes, i, kids(nodes, i)).contains(x));
        }
    }
}

proof fn lemma_subtree_list_bounds(nodes: Seq<FsNode>, p: usize, cs: Seq<usize>)
    requires
        tree_wf(nodes),
        p < nodes.len(),
        forall|k: int| 0 <= k < cs.len() ==> p < #[trigger] cs[k] < nodes.len(),
    ensures
        forall|x: usize| #[trigger] subtree_list(nodes, p, cs).contains(x) ==> p < x < nodes.len(),
    decreases nodes.len() - p, cs.len(),
{
    if cs.len() == 0 {
        assert(subtree_list(nodes, p, cs) =~= Set::<usize>::empty());
    } else {
        lemma_subtree_bounds(nodes, cs[0]);
        lemma_subtree_list_bounds(nodes, p, cs.drop_first());
        assert forall|x: usize| #[trigger] subtree_list(nodes, p, cs).contains(x) implies p < x
            < nodes.len() by {
            if subtree_of(nodes, cs[0]).contains(x) {
                assert(p < cs[0]);
            } else {
                assert(subtree_list(nodes, p, cs.drop_first()).contains(x));
            }
        }
    }
}

/// Everything in the subtree of node `i` other than `i` itself is the child
/// of a member of that subtree.
pub proof fn lemma_subtree_parent(nodes: Seq<FsNode>, i: usize, x: usize)
    requires
        tree_wf(nodes),
        i < nodes.len(),
        subtree_of(nodes, i).contains(x),
        x != i,
    ensures
        exists|p: usize|
            p < nodes.len() && subtree_of(nodes, i).contains(p) && #[trigger] kids(
                nodes,
                p,
            ).contains(x),
    decreases nodes.len() - i, kids(nodes, i).len() + 1,
{
    assert(forall|k: int|
        0 <= k < kids(nodes, i).len() ==> i < #[trigger] kids(nodes, i)[k] < nodes.len());
    lemma_subtree_list_parent(nodes, i, kids(nodes, i), x);
    if kids(nodes, i).contains(x) {
        assert(i < nodes.len() && subtree_of(nodes, i).contains(i) && kids(nodes, i).contains(x));
    } else {
        let q = choose|q: usize|
            q < nodes.len() && subtree_list(nodes, i, kids(nodes, i)).contains(q) && #[trigger] kids(
                nodes,
                q,
            ).contains(x);
        assert(subtree_of(nodes, i).contains(q));
    }
}

proof fn lemma_subtree_list_parent(nodes: Seq<FsNode>, p: usize, cs: Seq<usize>, x: usize)
    requires
        tree_wf(nodes),
        p < nodes.len(),
        forall|k: int| 0 <= k < cs.len() ==> p < #[trigger] cs[k] < nodes.len(),
        subtree_list(nodes, p, cs).contains(x),
    ensures
        cs.contains(x) || exists|q: usize|
            q < nodes.len() && subtree_list(nodes, p, cs).contains(q) && #[trigger] kids(
                nodes,
                q,
            ).contains(x),
    decreases nodes.len() - p, cs.len(),
{
    let c = cs[0];
    if subtree_of(nodes, c).contains(x) {
        if x == c {
            assert(cs[0] == x);
        } else {
            lemma_subtree_parent(nodes, c, x);
            let q = choose|q: usize|
                q < nodes.len() && subtree_of(nodes, c).contains(q) && #[trigger] kids(
                    nodes,
                    q,
                ).contains(x);
            assert(subtree_list(nodes, p, cs).contains(q));
        }
    } else {
        lemma_subtree_list_parent(nodes, p, cs.drop_first(), x);
        if cs.drop_first().contains(x) {
            let k = choose|k: int| 0 <= k < cs.drop_first().len() && cs.drop_first()[k] == x;
            assert(cs[k + 1] == x);
        } else {
            let q = choose|q: usize|
                q < nodes.len() && subtree_list(nodes, p, cs.drop_first()).contains(q)
                    && #[trigger] kids(nodes, q).contains(x);
            assert(subtree_list(nodes, p, cs).contains(q));
        }
    }
}

/// One step of the walk reads one directory: the immediate children of node
/// `i`, as the original engine obtained them from a single directory read.
pub fn get_dir_contents(t: &FsTree, i: usize) -> (r: Vec<usize>)
    requires
        i < t.nodes@.len(),
    ensures
        r@ == kids(t.nodes@, i),
{
    match &t.nodes[i].kind {
        FsNodeKind::Dir { children } => children.clone(),
        FsNodeKind::File { .. } => Vec::new(),
    }
}

} // verus!
