use vstd::prelude::*;

use crate::tree::{kids, tree_wf, FsNode, FsTree};

verus! {

/// What the walk does with one visited entry: surface it to the caller,
/// enqueue it for expansion, or drop it.
#[derive(Clone, Copy, Debug)]
pub enum PathFilterOption {
    Append,
    Scan,
    Ignore,
}

/// A per-entry decision rule fed to the traversal engine. `spec_decide` is
/// the rule itself; `decide` computes it.
pub trait PathDecider {
    spec fn spec_decide(&self, nodes: Seq<FsNode>, i: usize) -> PathFilterOption;

    fn decide(&self, t: &FsTree, i: usize) -> (r: PathFilterOption)
        requires
            t.wf(),
            i < t.nodes@.len(),
        ensures
            r == self.spec_decide(t.nodes@, i),
    ;
}

/// The set of entries that a walk expanding node `i` surfaces: over `i`'s
/// children, an `Append` child itself, and everything a `Scan` child's own
/// expansion surfaces.
pub open spec fn gather_from<D: PathDecider>(nodes: Seq<FsNode>, d: D, i: usize) -> Set<usize>
    decreases nodes.len() - i, kids(nodes, i).len() + 1,
        when tree_wf(nodes) && i < nodes.len()
{
    gather_list(nodes, d, i, kids(nodes, i))
}

/// The surfaced entries contributed by the children `cs` of node `p`.
pub open spec fn gather_list<D: PathDecider>(
    nodes: Seq<FsNode>,
    d: D,
    p: usize,
    cs: Seq<usize>,
) -> Set<usize>
    decreases nodes.len() - p, cs.len(),
        when tree_wf(nodes) && p < nodes.len() && (forall|k: int|
            0 <= k < cs.len() ==> p < #[trigger] cs[k] < nodes.len())
{
    if cs.len() == 0 {
        Set::empty()
    } else {
        let c = cs[0];
        let rest = gather_list(nodes, d, p, cs.drop_first());
        match d.spec_decide(nodes, c) {
            PathFilterOption::Append => rest.insert(c),
            PathFilterOption::Scan => rest.union(gather_from(nodes, d, c)),
            PathFilterOption::Ignore => rest,
        }
    }
}

/// The set of entries a walk expanding node `i` visits, that is evaluates the
/// decision rule on: every child of `i`, and the visits below `Scan` children.
pub open spec fn visit_from<D: PathDecider>(nodes: Seq<FsNode>, d: D, i: usize) -> Set<usize>
    decreases nodes.len() - i, kids(nodes, i).len() + 1,
        when tree_wf(nodes) && i < nodes.len()
{
    visit_list(nodes, d, i, kids(nodes, i))
}

/// The visited entries contributed by the children `cs` of node `p`.
pub open spec fn visit_list<D: PathDecider>(
    nodes: Seq<FsNode>,
    d: D,
    p: usize,
    cs: Seq<usize>,
) -> Set<usize>
    decreases nodes.len() - p, cs.len(),
        when tree_wf(nodes) && p < nodes.len() && (forall|k: int|
            0 <= k < cs.len() ==> p < #[trigger] cs[k] < nodes.len())
{
    if cs.len() == 0 {
        Set::empty()
    } else {
        let c = cs[0];
        let rest = visit_list(nodes, d, p, cs.drop_first());
        let below = if d.spec_decide(nodes, c) is Scan {
            visit_from(nodes, d, c)
        } else {
            Set::empty()
        };
        rest.insert(c).union(below)
    }
}

/// Law: what a walk surfaces is exactly what it visits, filtered by the
/// decision rule surfacing it. Every entry the walk reaches is examined, and
/// the surfaced ones are precisely those the rule appends.
pub proof fn lemma_gather_visits<D: PathDecider>(nodes: Seq<FsNode>, d: D, i: usize)
    requires
        tree_wf(nodes),
        i < nodes.len(),
    ensures
        gather_from(nodes, d, i) =~= visit_from(nodes, d, i).filter(
            |x: usize| d.spec_decide(nodes, x) is Append,
        ),
    decreases nodes.len() - i, kids(nodes, i).len() + 1,
{
    assert(forall|k: int|
        0 <= k < kids(nodes, i).len() ==> i < #[trigger] kids(nodes, i)[k] < nodes.len());
    lemma_gather_visits_list(nodes, d, i, kids(nodes, i));
}

proof fn lemma_gather_visits_list<D: PathDecider>(
    nodes: Seq<FsNode>,
    d: D,
    p: usize,
    cs: Seq<usize>,
)
    requires
        tree_wf(nodes),
        p < nodes.len(),
        forall|k: int| 0 <= k < cs.len() ==> p < #[trigger] cs[k] < nodes.len(),
    ensures
        gather_list(nodes, d, p, cs) =~= visit_list(nodes, d, p, cs).filter(
            |x: usize| d.spec_decide(nodes, x) is Append,
        ),
    decreases nodes.len() - p, cs.len(),
{
    let f = |x: usize| d.spec_decide(nodes, x) is Append;
    if cs.len() == 0 {
        assert(gather_list(nodes, d, p, cs) =~= visit_list(nodes, d, p, cs).filter(f));
    } else {
        let c = cs[0];
        lemma_gather_visits_list(nodes, d, p, cs.drop_first());
        if d.spec_decide(nodes, c) is Scan {
            lemma_gather_visits(nodes, d, c);
        }
        assert(gather_list(nodes, d, p, cs) =~= visit_list(nodes, d, p, cs).filter(f));
    }
}

/// Law: every entry a walk visits was offered as the child of a directory
/// the walk expanded: the root itself, or a visited entry that the decision
/// rule descended into. No entry is reached any other way.
pub proof fn lemma_visit_parent<D: PathDecider>(nodes: Seq<FsNode>, d: D, root: usize, x: usize)
    requires
        tree_wf(nodes),
        root < nodes.len(),
        visit_from(nodes, d, root).contains(x),
    ensures
        exists|p: usize|
            p < nodes.len() && #[trigger] kids(nodes, p).contains(x) && (p == root || (visit_from(
                nodes,
                d,
                root,
            ).contains(p) && d.spec_decide(nodes, p) is Scan)),
    decreases nodes.len() - root, kids(nodes, root).len() + 1,
{
    assert(forall|k: int|
        0 <= k < kids(nodes, root).len() ==> root < #[trigger] kids(nodes, root)[k] < nodes.len());
    lemma_visit_list_parent(nodes, d, root, kids(nodes, root), x);
    if !kids(nodes, root).contains(x) {
        let q = choose|q: usize|
            q < nodes.len() && #[trigger] kids(nodes, q).contains(x) && d.spec_decide(nodes, q)
                is Scan && visit_list(nodes, d, root, kids(nodes, root)).contains(q);
        assert(q < nodes.len() && kids(nodes, q).contains(x) && (q == root || (visit_from(
            nodes,
            d,
            root,
        ).contains(q) && d.spec_decide(nodes, q) is Scan)));
    } else {
        assert(root < nodes.len() && kids(nodes, root).contains(x) && (root == root));
    }
}

proof fn lemma_visit_list_parent<D: PathDecider>(
    nodes: Seq<FsNode>,
    d: D,
    p: usize,
    cs: Seq<usize>,
    x: usize,
)
    requires
        tree_wf(nodes),
        p < nodes.len(),
        forall|k: int| 0 <= k < cs.len() ==> p < #[trigger] cs[k] < nodes.len(),
        visit_list(nodes, d, p, cs).contains(x),
    ensures
        cs.contains(x) || exists|q: usize|
            q < nodes.len() && #[trigger] kids(nodes, q).contains(x) && d.spec_decide(nodes, q)
                is Scan && visit_list(nodes, d, p, cs).contains(q),
    decreases nodes.len() - p, cs.len(),
{
    let c = cs[0];
    let rest = visit_list(nodes, d, p, cs.drop_first());
    if x == c {
        assert(cs.contains(x)) by {
            assert(cs[0] == x);
        }
    } else if rest.contains(x) {
        lemma_visit_list_parent(nodes, d, p, cs.drop_first(), x);
        if cs.drop_first().contains(x) {
            let k = choose|k: int| 0 <= k < cs.drop_first().len() && cs.drop_first()[k] == x;
            assert(cs[k + 1] == x);
        } else {
            let q = choose|q: usize|
                q < nodes.len() && #[trigger] kids(nodes, q).contains(x) && d.spec_decide(nodes, q)
                    is Scan && visit_list(nodes, d, p, cs.drop_first()).contains(q);
            assert(visit_list(nodes, d, p, cs).contains(q));
        }
    } else {
        assert(d.spec_decide(nodes, c) is Scan && visit_from(nodes, d, c).contains(x));
        lemma_visit_parent(nodes, d, c, x);
        let q0 = choose|q0: usize|
            q0 < nodes.len() && #[trigger] kids(nodes, q0).contains(x) && (q0 == c || (visit_from(
                nodes,
                d,
                c,
            ).contains(q0) && d.spec_decide(nodes, q0) is Scan));
        if q0 == c {
            assert(visit_list(nodes, d, p, cs).contains(c)) by {
                assert(cs[0] == c);
            }
        } else {
            assert(visit_list(nodes, d, p, cs).contains(q0));
        }
    }
}

proof fn lemma_visit_list_member<D: PathDecider>(
    nodes: Seq<FsNode>,
    d: D,
    p: usize,
    cs: Seq<usize>,
    c: usize,
)
    requires
        tree_wf(nodes),
        p < nodes.len(),
        forall|k: int| 0 <= k < cs.len() ==> p < #[trigger] cs[k] < nodes.len(),
        cs.contains(c),
    ensures
        visit_list(nodes, d, p, cs).contains(c),
    decreases cs.len(),
{
    if cs[0] != c {
        let k = choose|k: int| 0 <= k < cs.len() && cs[k] == c;
        assert(cs.drop_first()[k - 1] == c);
        lemma_visit_list_member(nodes, d, p, cs.drop_first(), c);
    }
}

/// Law: everything a descended entry's own walk visits, the outer walk
/// visits too.
pub proof fn lemma_visit_scan_subset<D: PathDecider>(
    nodes: Seq<FsNode>,
    d: D,
    root: usize,
    x: usize,
)
    requires
        tree_wf(nodes),
        root < nodes.len(),
        visit_from(nodes, d, root).contains(x),
        d.spec_decide(nodes, x) is Scan,
    ensures
        visit_from(nodes, d, x).subset_of(visit_from(nodes, d, root)),
    decreases nodes.len() - root, kids(nodes, root).len() + 1,
{
    assert(forall|k: int|
        0 <= k < kids(nodes, root).len() ==> root < #[trigger] kids(nodes, root)[k] < nodes.len());
    lemma_visit_list_scan_subset(nodes, d, root, kids(nodes, root), x);
}

proof fn lemma_visit_list_scan_subset<D: PathDecider>(
    nodes: Seq<FsNode>,
    d: D,
    p: usize,
    cs: Seq<usize>,
    x: usize,
)
    requires
        tree_wf(nodes),
        p < nodes.len(),
        forall|k: int| 0 <= k < cs.len() ==> p < #[trigger] cs[k] < nodes.len(),
        visit_list(nodes, d, p, cs).contains(x),
        d.spec_decide(nodes, x) is Scan,
    ensures
        visit_from(nodes, d, x).subset_of(visit_list(nodes, d, p, cs)),
    decreases nodes.len() - p, cs.len(),
{
    let c = cs[0];
    let rest = visit_list(nodes, d, p, cs.drop_first());
    if x == c {
    } else if rest.contains(x) {
        lemma_visit_list_scan_subset(nodes, d, p, cs.drop_first(), x);
    } else {
        assert(d.spec_decide(nodes, c) is Scan && visit_from(nodes, d, c).contains(x));
        lemma_visit_scan_subset(nodes, d, c, x);
    }
}

/// Law: the walk reaches every offered entry: each child of the root, and
/// each child of a visited entry that the decision rule descends into, is
/// itself visited.
pub proof fn lemma_visit_step<D: PathDecider>(
    nodes: Seq<FsNode>,
    d: D,
    root: usize,
    p: usize,
    c: usize,
)
    requires
        tree_wf(nodes),
        root < nodes.len(),
        p == root || (visit_from(nodes, d, root).contains(p) && d.spec_decide(nodes, p) is Scan),
        kids(nodes, p).contains(c),
    ensures
        visit_from(nodes, d, root).contains(c),
{
    if p == root {
        assert(forall|k: int|
            0 <= k < kids(nodes, root).len() ==> root < #[trigger] kids(nodes, root)[k]
                < nodes.len());
        lemma_visit_list_member(nodes, d, root, kids(nodes, root), c);
    } else {
        lemma_visit_bounds(nodes, d, root, p);
        lemma_visit_scan_subset(nodes, d, root, p);
        assert(forall|k: int|
            0 <= k < kids(nodes, p).len() ==> p < #[trigger] kids(nodes, p)[k] < nodes.len());
        lemma_visit_list_member(nodes, d, p, kids(nodes, p), c);
        assert(visit_from(nodes, d, p).contains(c));
    }
}

/// A visited entry lies inside the arena, strictly below some parent.
pub proof fn lemma_visit_bounds<D: PathDecider>(nodes: Seq<FsNode>, d: D, root: usize, x: usize)
    requires
        tree_wf(nodes),
        root < nodes.len(),
        visit_from(nodes, d, root).contains(x),
    ensures
        1 <= x < nodes.len(),
{
    lemma_visit_parent(nodes, d, root, x);
    let p = choose|p: usize|
        p < nodes.len() && #[trigger] kids(nodes, p).contains(x) && (p == root || (visit_from(
            nodes,
            d,
            root,
        ).contains(p) && d.spec_decide(nodes, p) is Scan));
    crate::tree::lemma_child_bounds(nodes, p, x);
}

/// What the pending queue `q` of a walk still owes: the union of the
/// expansions of its entries.
pub open spec fn qgather<D: PathDecider>(nodes: Seq<FsNode>, d: D, q: Seq<usize>) -> Set<usize>
    decreases q.len(),
{
    if q.len() == 0 {
        Set::empty()
    } else {
        gather_from(nodes, d, q[0]).union(qgather(nodes, d, q.drop_first()))
    }
}

/// The number of entries in the subtree rooted at node `i`, counting `i`:
/// the walk's termination measure.
pub open spec fn msize(nodes: Seq<FsNode>, i: usize) -> nat
    decreases nodes.len() - i, kids(nodes, i).len() + 1,
        when tree_wf(nodes) && i < nodes.len()
{
    1 + msize_list(nodes, i, kids(nodes, i))
}

/// The subtree entry count contributed by the children `cs` of node `p`.
pub open spec fn msize_list(nodes: Seq<FsNode>, p: usize, cs: Seq<usize>) -> nat
    decreases nodes.len() - p, cs.len(),
        when tree_wf(nodes) && p < nodes.len() && (forall|k: int|
            0 <= k < cs.len() ==> p < #[trigger] cs[k] < nodes.len())
{
    if cs.len() == 0 {
        0
    } else {
        msize(nodes, cs[0]) + msize_list(nodes, p, cs.drop_first())
    }
}

/// The remaining work of a pending queue: the entry counts of the subtrees
/// its members root.
pub open spec fn qweight(nodes: Seq<FsNode>, q: Seq<usize>) -> nat
    decreases q.len(),
{
    if q.len() == 0 {
        0
    } else {
        msize(nodes, q[0]) + qweight(nodes, q.drop_first())
    }
}

pub proof fn lemma_qweight_push(nodes: Seq<FsNode>, q: Seq<usize>, x: usize)
    ensures
        qweight(nodes, q.push(x)) == qweight(nodes, q) + msize(nodes, x),
    decreases q.len(),
{
    if q.len() == 0 {
        assert(q.push(x).drop_first() =~= Seq::<usize>::empty());
        assert(q.push(x)[0] == x);
        assert(qweight(nodes, q.push(x)) == msize(nodes, x) + qweight(
            nodes,
            q.push(x).drop_first(),
        ));
        assert(qweight(nodes, Seq::<usize>::empty()) == 0);
        assert(qweight(nodes, q) == 0);
    } else {
        assert(q.push(x).drop_first() =~= q.drop_first().push(x));
        lemma_qweight_push(nodes, q.drop_first(), x);
        assert(q.push(x)[0] == q[0]);
        assert(qweight(nodes, q.push(x)) == msize(nodes, q[0]) + qweight(
            nodes,
            q.push(x).drop_first(),
        ));
        assert(qweight(nodes, q) == msize(nodes, q[0]) + qweight(nodes, q.drop_first()));
    }
}

proof fn lemma_qgather_push<D: PathDecider>(nodes: Seq<FsNode>, d: D, q: Seq<usize>, x: usize)
    ensures
        qgather(nodes, d, q.push(x)) =~= qgather(nodes, d, q).union(gather_from(nodes, d, x)),
    decreases q.len(),
{
    if q.len() == 0 {
        assert(q.push(x).drop_first() =~= Seq::<usize>::empty());
        assert(q.push(x)[0] == x);
        assert(qgather(nodes, d, q.push(x)) == gather_from(nodes, d, x).union(
            qgather(nodes, d, q.push(x).drop_first()),
        ));
        assert(qgather(nodes, d, Seq::<usize>::empty()) == Set::<usize>::empty());
        assert(qgather(nodes, d, q) == Set::<usize>::empty());
    } else {
        assert(q.push(x).drop_first() =~= q.drop_first().push(x));
        lemma_qgather_push(nodes, d, q.drop_first(), x);
        assert(q.push(x)[0] == q[0]);
        assert(qgather(nodes, d, q.push(x)) == gather_from(nodes, d, q[0]).union(
            qgather(nodes, d, q.push(x).drop_first()),
        ));
        assert(qgather(nodes, d, q) == gather_from(nodes, d, q[0]).union(
            qgather(nodes, d, q.drop_first()),
        ));
    }
}

/// Whether entry `n` has already been offered to the walk: some expanded
/// directory lists it as a child.
pub open spec fn offered(nodes: Seq<FsNode>, done: Set<usize>, n: usize) -> bool {
    exists|p: usize| done.contains(p) && #[trigger] kids(nodes, p).contains(n)
}

proof fn lemma_offered_mono(nodes: Seq<FsNode>, s1: Set<usize>, s2: Set<usize>, n: usize)
    requires
        offered(nodes, s1, n),
        s1.subset_of(s2),
    ensures
        offered(nodes, s2, n),
{
    let p = choose|p: usize| s1.contains(p) && #[trigger] kids(nodes, p).contains(n);
    assert(s2.contains(p) && kids(nodes, p).contains(n));
}

/// The breadth-first traversal engine. A queue of directories pending
/// expansion is seeded with the root; each round removes the front directory,
/// reads its immediate children once, and applies the decision rule to each:
/// `Append` surfaces the child in the result, `Scan` queues it for a later
/// round, `Ignore` drops it. Returns exactly the entries that the decision
/// rule surfaces, and each of them exactly once: no entry is offered to the
/// rule, nor surfaced, twice.
pub fn filter_paths<D: PathDecider>(t: &FsTree, root: usize, d: &D) -> (r: Vec<usize>)
    requires
        t.wf(),
        root < t.nodes@.len(),
    ensures
        r@.to_set() == gather_from(t.nodes@, *d, root),
        forall|k: int, l: int| 0 <= k < l < r@.len() ==> r@[k] != r@[l],
{
    let ghost nodes = t.nodes@;
    let mut found: Vec<usize> = Vec::new();
    let mut dirs: Vec<usize> = Vec::new();
    let ghost mut done = Set::<usize>::empty();
    dirs.push(root);
    proof {
        assert(dirs@.drop_first() =~= Seq::<usize>::empty());
        assert(dirs@[0] == root);
        assert(qgather(nodes, *d, dirs@) == gather_from(nodes, *d, root).union(
            qgather(nodes, *d, dirs@.drop_first()),
        ));
        assert(qgather(nodes, *d, Seq::<usize>::empty()) == Set::<usize>::empty());
        assert(found@.to_set().union(qgather(nodes, *d, dirs@)) =~= gather_from(nodes, *d, root));
    }
    while dirs.len() > 0
        invariant
            t.wf(),
            nodes == t.nodes@,
            forall|k: int| 0 <= k < dirs@.len() ==> root <= #[trigger] dirs@[k] < nodes.len(),
            found@.to_set().union(qgather(nodes, *d, dirs@)) == gather_from(nodes, *d, root),
            forall|k: int, l: int| 0 <= k < l < found@.len() ==> found@[k] != found@[l],
            forall|k: int, l: int| 0 <= k < l < dirs@.len() ==> dirs@[k] != dirs@[l],
            forall|k: int| 0 <= k < dirs@.len() ==> !done.contains(#[trigger] dirs@[k]),
            forall|n: usize| #[trigger] done.contains(n) ==> root <= n < nodes.len(),
            forall|k: int| 0 <= k < found@.len() ==> offered(nodes, done, #[trigger] found@[k]),
            forall|k: int|
                0 <= k < dirs@.len() ==> dirs@[k] == root || offered(
                    nodes,
                    done,
                    #[trigger] dirs@[k],
                ),
            forall|n: usize| #[trigger] done.contains(n) ==> n == root || offered(nodes, done, n),
        decreases qweight(nodes, dirs@),
    {
        let ghost q0 = dirs@;
        let dir = dirs.remove(0);
        proof {
            assert(dirs@ =~= q0.drop_first());
            assert(qgather(nodes, *d, q0) == gather_from(nodes, *d, dir).union(
                qgather(nodes, *d, dirs@),
            ));
            assert(qweight(nodes, q0) == msize(nodes, dir) + qweight(nodes, dirs@));
            assert(q0[0] == dir);
        }
        let ghost qw0 = qweight(nodes, dirs@);
        let children = crate::tree::get_dir_contents(t, dir);
        let ghost cs = kids(nodes, dir);
        let mut j: usize = 0;
        proof {
            assert(cs.skip(0) =~= cs);
            assert(cs.take(0) =~= Seq::<usize>::empty());
        }
        while j < children.len()
            invariant
                t.wf(),
                nodes == t.nodes@,
                root <= dir < nodes.len(),
                children@ == cs,
                cs == kids(nodes, dir),
                j <= children@.len(),
                forall|k: int| 0 <= k < dirs@.len() ==> root <= #[trigger] dirs@[k] < nodes.len(),
                found@.to_set().union(qgather(nodes, *d, dirs@)).union(
                    gather_list(nodes, *d, dir, cs.skip(j as int)),
                ) == gather_from(nodes, *d, root),
                qweight(nodes, dirs@) + msize_list(nodes, dir, cs.skip(j as int)) <= qw0
                    + msize_list(nodes, dir, cs),
                forall|k: int, l: int| 0 <= k < l < found@.len() ==> found@[k] != found@[l],
                forall|k: int, l: int| 0 <= k < l < dirs@.len() ==> dirs@[k] != dirs@[l],
                forall|k: int| 0 <= k < dirs@.len() ==> !done.contains(#[trigger] dirs@[k]),
                forall|k: int| 0 <= k < dirs@.len() ==> dir != #[trigger] dirs@[k],
                !done.contains(dir),
                dir == root || offered(nodes, done, dir),
                forall|n: usize| #[trigger] done.contains(n) ==> root <= n < nodes.len(),
                forall|k: int|
                    0 <= k < found@.len() ==> offered(nodes, done, #[trigger] found@[k])
                        || cs.take(j as int).contains(found@[k]),
                forall|k: int|
                    0 <= k < dirs@.len() ==> dirs@[k] == root || offered(
                        nodes,
                        done,
                        #[trigger] dirs@[k],
                    ) || cs.take(j as int).contains(dirs@[k]),
                forall|n: usize| #[trigger] done.contains(n) ==> n == root || offered(
                    nodes,
                    done,
                    n,
                ),
            decreases children@.len() - j,
        {
            let c = children[j];
            let ghost suffix = cs.skip(j as int);
            proof {
                assert(forall|k: int|
                    0 <= k < suffix.len() ==> dir < #[trigger] suffix[k] < nodes.len());
                assert(suffix[0] == c);
                assert(suffix.drop_first() =~= cs.skip(j as int + 1));
                assert(msize_list(nodes, dir, suffix) == msize(nodes, c) + msize_list(
                    nodes,
                    dir,
                    cs.skip(j as int + 1),
                ));
                assert(kids(nodes, dir)[j as int] == c);
                assert(kids(nodes, dir).contains(c));
                assert(cs.take(j as int + 1)[j as int] == c);
                // an entry already tracked was offered earlier or is an
                // earlier child of this very directory; either way it is not c
                assert(!found@.contains(c) && !dirs@.contains(c) && !done.contains(c)) by {
                    if offered(nodes, done, c) {
                        let p = choose|p: usize|
                            done.contains(p) && #[trigger] kids(nodes, p).contains(c);
                        crate::tree::lemma_unique_parent(nodes, p, dir, c);
                        assert(false);
                    }
                    if cs.take(j as int).contains(c) {
                        let l = choose|l: int|
                            0 <= l < j && cs.take(j as int)[l] == c;
                        assert(kids(nodes, dir)[l] == kids(nodes, dir)[j as int]);
                        assert(false);
                    }
                    if found@.contains(c) {
                        let k = choose|k: int| 0 <= k < found@.len() && found@[k] == c;
                        assert(offered(nodes, done, found@[k]) || cs.take(j as int).contains(
                            found@[k],
                        ));
                        assert(false);
                    }
                    if dirs@.contains(c) {
                        let k = choose|k: int| 0 <= k < dirs@.len() && dirs@[k] == c;
                        assert(c != root);
                        assert(offered(nodes, done, dirs@[k]) || cs.take(j as int).contains(
                            dirs@[k],
                        ));
                        assert(false);
                    }
                    if done.contains(c) {
                        assert(c != root);
                        assert(offered(nodes, done, c));
                        assert(false);
                    }
                }
                assert(forall|k: int|
                    0 <= k < cs.take(j as int).len() ==> cs.take(j as int + 1)[k] == #[trigger] cs.take(
                        j as int,
                    )[k]);
                assert(forall|x: usize|
                    cs.take(j as int).contains(x) ==> #[trigger] cs.take(j as int + 1).contains(x));
            }
            match d.decide(t, c) {
                PathFilterOption::Append => {
                    let ghost f0 = found@;
                    found.push(c);
                    proof {
                        assert(found@.to_set() =~= f0.to_set().insert(c)) by {
                            assert forall|x: usize| found@.to_set().contains(x) implies f0.to_set()
                                .insert(c).contains(x) by {
                                let ix = choose|ix: int| 0 <= ix < found@.len() && found@[ix] == x;
                                if ix < f0.len() {
                                    assert(f0[ix] == x);
                                }
                            }
                            assert forall|x: usize| f0.to_set().insert(c).contains(x) implies found@
                                .to_set().contains(x) by {
                                if x == c {
                                    assert(found@[found@.len() - 1] == c);
                                } else {
                                    let ix = choose|ix: int| 0 <= ix < f0.len() && f0[ix] == x;
                                    assert(found@[ix] == x);
                                }
                            }
                        }
                        assert(found@.to_set().union(qgather(nodes, *d, dirs@)).union(
                            gather_list(nodes, *d, dir, cs.skip(j as int + 1)),
                        ) =~= gather_from(nodes, *d, root));
                        assert(forall|k: int| 0 <= k < f0.len() ==> found@[k] == #[trigger] f0[k]);
                        assert(found@[found@.len() - 1] == c);
                        assert(forall|k: int, l: int|
                            0 <= k < l < found@.len() ==> found@[k] != found@[l]) by {
                            assert(!f0.contains(c));
                        }
                    }
                },
                PathFilterOption::Scan => {
                    let ghost d0 = dirs@;
                    dirs.push(c);
                    proof {
                        lemma_qgather_push(nodes, *d, d0, c);
                        lemma_qweight_push(nodes, d0, c);
                        assert(found@.to_set().union(qgather(nodes, *d, dirs@)).union(
                            gather_list(nodes, *d, dir, cs.skip(j as int + 1)),
                        ) =~= gather_from(nodes, *d, root));
                        assert(forall|k: int| 0 <= k < d0.len() ==> dirs@[k] == #[trigger] d0[k]);
                        assert(dirs@[dirs@.len() - 1] == c);
                        assert(forall|k: int, l: int|
                            0 <= k < l < dirs@.len() ==> dirs@[k] != dirs@[l]) by {
                            assert(!d0.contains(c));
                        }
                    }
                },
                PathFilterOption::Ignore => {
                    proof {
                        assert(found@.to_set().union(qgather(nodes, *d, dirs@)).union(
                            gather_list(nodes, *d, dir, cs.skip(j as int + 1)),
                        ) =~= gather_from(nodes, *d, root));
                    }
                },
            }
            j = j + 1;
        }
        proof {
            assert(cs.skip(children@.len() as int) =~= Seq::<usize>::empty());
            assert(found@.to_set().union(qgather(nodes, *d, dirs@)) =~= gather_from(nodes, *d, root));
            assert(msize(nodes, dir) == 1 + msize_list(nodes, dir, cs));
            assert(qweight(nodes, dirs@) < qweight(nodes, q0));
            assert(cs.take(children@.len() as int) =~= cs);
            let ghost done0 = done;
            done = done.insert(dir);
            assert(done0.subset_of(done));
            assert forall|k: int| 0 <= k < found@.len() implies offered(
                nodes,
                done,
                #[trigger] found@[k],
            ) by {
                if offered(nodes, done0, found@[k]) {
                    lemma_offered_mono(nodes, done0, done, found@[k]);
                } else {
                    assert(cs.contains(found@[k]));
                    assert(done.contains(dir) && kids(nodes, dir).contains(found@[k]));
                }
            }
            assert forall|k: int| 0 <= k < dirs@.len() implies dirs@[k] == root || offered(
                nodes,
                done,
                #[trigger] dirs@[k],
            ) by {
                if dirs@[k] != root {
                    if offered(nodes, done0, dirs@[k]) {
                        lemma_offered_mono(nodes, done0, done, dirs@[k]);
                    } else if cs.contains(dirs@[k]) {
                        assert(done.contains(dir) && kids(nodes, dir).contains(dirs@[k]));
                    }
                }
            }
            assert forall|n: usize| #[trigger] done.contains(n) implies n == root || offered(
                nodes,
                done,
                n,
            ) by {
                if n == dir {
                    if dir != root {
                        lemma_offered_mono(nodes, done0, done, dir);
                    }
                } else {
                    if n != root {
                        lemma_offered_mono(nodes, done0, done, n);
                    }
                }
            }
        }
    }
    proof {
        assert(found@.to_set().union(qgather(nodes, *d, dirs@)) =~= found@.to_set());
    }
    found
}

} // verus!
