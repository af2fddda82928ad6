use vstd::prelude::*;

use crate::traverse::{filter_paths, gather_from, visit_from, PathDecider, PathFilterOption};
use crate::tree::{kids, size_list, size_of, subtree_of, tree_wf, FsNode, FsTree};

verus! {

/// Whether one of `names` reads as the characters `n`.
pub open spec fn name_in(names: Seq<String>, n: Seq<char>) -> bool {
    exists|k: int| 0 <= k < names.len() && names[k]@ == n
}

/// Whether `n` names one of `names`, by exact basename string equality.
pub fn contains_name(names: &Vec<String>, n: &String) -> (r: bool)
    ensures
        r == name_in(names@, n@),
{
    let mut j: usize = 0;
    while j < names.len()
        invariant
            j <= names@.len(),
            forall|k: int| 0 <= k < j ==> names@[k]@ != n@,
        decreases names@.len() - j,
    {
        if names[j] == *n {
            return true;
        }
        j = j + 1;
    }
    false
}

/// One deletion request: where to search, which basenames to delete, which
/// directory basenames never to descend into, and the behaviour flags.
pub struct Request {
    pub path: String,
    pub targets: Vec<String>,
    pub exclude: Vec<String>,
    pub recurse: bool,
    pub skip_confirmation: bool,
    pub get_size: bool,
}

impl Request {
    /// Builds a request from the already-parsed command-line values.
    pub fn new(
        path: String,
        targets: Vec<String>,
        exclude: Vec<String>,
        recurse: bool,
        skip_confirmation: bool,
        get_size: bool,
    ) -> (r: Request)
        ensures
            r.path == path,
            r.targets == targets,
            r.exclude == exclude,
            r.recurse == recurse,
            r.skip_confirmation == skip_confirmation,
            r.get_size == get_size,
    {
        Request { path, targets, exclude, recurse, skip_confirmation, get_size }
    }
}

impl PathDecider for Request {
    /// The deletion policy: an entry whose basename is a target is surfaced
    /// for deletion; otherwise a directory is descended into exactly when
    /// recursion is on and its basename is not excluded; everything else is
    /// dropped. A target match takes priority over descent.
    open spec fn spec_decide(&self, nodes: Seq<FsNode>, i: usize) -> PathFilterOption {
        if name_in(self.targets@, nodes[i as int].name@) {
            PathFilterOption::Append
        } else if nodes[i as int].kind is Dir && self.recurse && !name_in(
            self.exclude@,
            nodes[i as int].name@,
        ) {
            PathFilterOption::Scan
        } else {
            PathFilterOption::Ignore
        }
    }

    fn decide(&self, t: &FsTree, i: usize) -> (r: PathFilterOption) {
        let node = &t.nodes[i];
        if contains_name(&self.targets, &node.name) {
            PathFilterOption::Append
        } else {
            let is_dir = match &node.kind {
                crate::tree::FsNodeKind::Dir { .. } => true,
                crate::tree::FsNodeKind::File { .. } => false,
            };
            if is_dir && self.recurse && !contains_name(&self.exclude, &node.name) {
                PathFilterOption::Scan
            } else {
                PathFilterOption::Ignore
            }
        }
    }
}

/// The set of deletion candidates of a request: what the walk from the root
/// surfaces under the deletion policy.
pub open spec fn del_candidates(nodes: Seq<FsNode>, req: Request) -> Set<usize> {
    gather_from(nodes, req, 0)
}

/// Collects the deletion candidates: walks the tree from the root under the
/// deletion policy and returns the indices of the entries whose basename is a
/// target, each reachable candidate exactly once.
pub fn get_del_paths(t: &FsTree, req: &Request) -> (r: Vec<usize>)
    requires
        t.wf(),
    ensures
        r@.to_set() == del_candidates(t.nodes@, *req),
        forall|k: int, l: int| 0 <= k < l < r@.len() ==> r@[k] != r@[l],
{
    filter_paths(t, 0, req)
}

/// The decision rule that computes a directory's size: descend into every
/// directory and surface every file.
pub struct FileCollector {}

impl PathDecider for FileCollector {
    open spec fn spec_decide(&self, nodes: Seq<FsNode>, i: usize) -> PathFilterOption {
        if nodes[i as int].kind is Dir {
            PathFilterOption::Scan
        } else {
            PathFilterOption::Append
        }
    }

    fn decide(&self, t: &FsTree, i: usize) -> (r: PathFilterOption) {
        match &t.nodes[i].kind {
            crate::tree::FsNodeKind::Dir { .. } => PathFilterOption::Scan,
            crate::tree::FsNodeKind::File { .. } => PathFilterOption::Append,
        }
    }
}

/// Every regular file under node `i`: node `i` itself if it is a file, else
/// what the walk below `i` surfaces when it descends into every directory
/// and surfaces every file.
pub fn get_all_files(t: &FsTree, i: usize) -> (r: Vec<usize>)
    requires
        t.wf(),
        i < t.nodes@.len(),
    ensures
        t.nodes@[i as int].kind is File ==> r@ == seq![i],
        t.nodes@[i as int].kind is Dir ==> r@.to_set() == gather_from(
            t.nodes@,
            FileCollector {  },
            i,
        ),
        forall|k: int, l: int| 0 <= k < l < r@.len() ==> r@[k] != r@[l],
{
    let is_file = match &t.nodes[i].kind {
        crate::tree::FsNodeKind::File { .. } => true,
        crate::tree::FsNodeKind::Dir { .. } => false,
    };
    if is_file {
        let mut r: Vec<usize> = Vec::new();
        r.push(i);
        proof {
            assert(r@ =~= seq![i]);
        }
        r
    } else {
        let collector = FileCollector {  };
        filter_paths(t, i, &collector)
    }
}

/// Law: the deletion candidates are exactly the visited entries whose
/// basename is a target. The walk examines every entry reachable through
/// descended directories, and surfaces precisely the target matches among
/// them.
pub proof fn lemma_candidates_are_visited_targets(nodes: Seq<FsNode>, req: Request)
    requires
        tree_wf(nodes),
    ensures
        forall|x: usize|
            #[trigger] del_candidates(nodes, req).contains(x) <==> (visit_from(
                nodes,
                req,
                0,
            ).contains(x) && name_in(req.targets@, nodes[x as int].name@)),
{
    crate::traverse::lemma_gather_visits(nodes, req, 0);
}

/// Law: the walk visits every descendant reachable through descended
/// directories: each child of the search root is visited, and so is each
/// child of a visited directory whose basename is neither a target nor
/// excluded, while recursion is on.
pub proof fn lemma_visits_all_reachable(nodes: Seq<FsNode>, req: Request, p: usize, c: usize)
    requires
        tree_wf(nodes),
        p == 0 || (visit_from(nodes, req, 0).contains(p) && !name_in(
            req.targets@,
            nodes[p as int].name@,
        ) && nodes[p as int].kind is Dir && req.recurse && !name_in(
            req.exclude@,
            nodes[p as int].name@,
        )),
        kids(nodes, p).contains(c),
    ensures
        visit_from(nodes, req, 0).contains(c),
{
    crate::traverse::lemma_visit_step(nodes, req, 0, p, c);
}

/// Law: a directory whose basename is itself a target is surfaced as a
/// candidate and none of its children is ever visited: in one visit its
/// deletion and its descent exclude each other.
pub proof fn lemma_target_dir_not_descended(nodes: Seq<FsNode>, req: Request, i: usize, c: usize)
    requires
        tree_wf(nodes),
        visit_from(nodes, req, 0).contains(i),
        name_in(req.targets@, nodes[i as int].name@),
        kids(nodes, i).contains(c),
    ensures
        del_candidates(nodes, req).contains(i),
        !visit_from(nodes, req, 0).contains(c),
{
    crate::traverse::lemma_visit_bounds(nodes, req, 0, i);
    crate::traverse::lemma_gather_visits(nodes, req, 0);
    assert(del_candidates(nodes, req).contains(i));
    if visit_from(nodes, req, 0).contains(c) {
        crate::traverse::lemma_visit_parent(nodes, req, 0, c);
        let p = choose|p: usize|
            p < nodes.len() && #[trigger] kids(nodes, p).contains(c) && (p == 0 || (visit_from(
                nodes,
                req,
                0,
            ).contains(p) && req.spec_decide(nodes, p) is Scan));
        crate::tree::lemma_unique_parent(nodes, p, i, c);
        assert(req.spec_decide(nodes, i) is Append);
        assert(false);
    }
}

/// Law: excluding a directory basename removes the whole subtree of such a
/// directory from the traversal: nothing strictly below a visited excluded
/// directory is ever visited, even when a target lives inside it.
pub proof fn lemma_excluded_subtree_skipped(nodes: Seq<FsNode>, req: Request, i: usize, x: usize)
    requires
        tree_wf(nodes),
        visit_from(nodes, req, 0).contains(i),
        name_in(req.exclude@, nodes[i as int].name@),
        subtree_of(nodes, i).contains(x),
        x != i,
    ensures
        !visit_from(nodes, req, 0).contains(x),
    decreases x,
{
    crate::traverse::lemma_visit_bounds(nodes, req, 0, i);
    if visit_from(nodes, req, 0).contains(x) {
        crate::traverse::lemma_visit_parent(nodes, req, 0, x);
        let p = choose|p: usize|
            p < nodes.len() && #[trigger] kids(nodes, p).contains(x) && (p == 0 || (visit_from(
                nodes,
                req,
                0,
            ).contains(p) && req.spec_decide(nodes, p) is Scan));
        crate::tree::lemma_subtree_parent(nodes, i, x);
        let p2 = choose|p2: usize|
            p2 < nodes.len() && subtree_of(nodes, i).contains(p2) && #[trigger] kids(
                nodes,
                p2,
            ).contains(x);
        crate::tree::lemma_unique_parent(nodes, p, p2, x);
        crate::tree::lemma_subtree_bounds(nodes, i);
        if p == i {
            assert(!(req.spec_decide(nodes, i) is Scan));
            assert(false);
        } else {
            assert(i <= p);
            assert(p != 0);
            assert(visit_from(nodes, req, 0).contains(p) && req.spec_decide(nodes, p) is Scan);
            crate::tree::lemma_child_bounds(nodes, p, x);
            lemma_excluded_subtree_skipped(nodes, req, i, p);
            assert(false);
        }
    }
}

/// The bytes still owed by a size walk's pending queue: the sizes of the
/// subtrees its members root.
pub open spec fn qsize(nodes: Seq<FsNode>, q: Seq<usize>) -> nat
    decreases q.len(),
{
    if q.len() == 0 {
        0
    } else {
        size_of(nodes, q[0]) + qsize(nodes, q.drop_first())
    }
}

proof fn lemma_qsize_push(nodes: Seq<FsNode>, q: Seq<usize>, x: usize)
    ensures
        qsize(nodes, q.push(x)) == qsize(nodes, q) + size_of(nodes, x),
    decreases q.len(),
{
    if q.len() == 0 {
        assert(q.push(x).drop_first() =~= Seq::<usize>::empty());
        assert(q.push(x)[0] == x);
        assert(qsize(nodes, q.push(x)) == size_of(nodes, x) + qsize(
            nodes,
            q.push(x).drop_first(),
        ));
        assert(qsize(nodes, Seq::<usize>::empty()) == 0);
        assert(qsize(nodes, q) == 0);
    } else {
        assert(q.push(x).drop_first() =~= q.drop_first().push(x));
        lemma_qsize_push(nodes, q.drop_first(), x);
        assert(q.push(x)[0] == q[0]);
        assert(qsize(nodes, q.push(x)) == size_of(nodes, q[0]) + qsize(
            nodes,
            q.push(x).drop_first(),
        ));
        assert(qsize(nodes, q) == size_of(nodes, q[0]) + qsize(nodes, q.drop_first()));
    }
}

/// The size in bytes of node `i`: a file's recorded length, or the sum of the
/// regular-file sizes under a directory, accumulated by a second walk that
/// descends into every directory and adds up every file it meets.
pub fn get_size(t: &FsTree, i: usize) -> (r: u64)
    requires
        t.wf(),
        i < t.nodes@.len(),
        size_of(t.nodes@, i) <= u64::MAX,
    ensures
        r as nat == size_of(t.nodes@, i),
{
    let ghost nodes = t.nodes@;
    let is_file_size: Option<u64> = match &t.nodes[i].kind {
        crate::tree::FsNodeKind::File { size } => Some(*size),
        crate::tree::FsNodeKind::Dir { .. } => None,
    };
    match is_file_size {
        Some(size) => size,
        None => {
            let mut total: u64 = 0;
            let mut dirs: Vec<usize> = Vec::new();
            dirs.push(i);
            proof {
                assert(dirs@.drop_first() =~= Seq::<usize>::empty());
                assert(dirs@[0] == i);
                assert(qsize(nodes, dirs@) == size_of(nodes, i) + qsize(
                    nodes,
                    dirs@.drop_first(),
                ));
                assert(qsize(nodes, Seq::<usize>::empty()) == 0);
            }
            while dirs.len() > 0
                invariant
                    t.wf(),
                    nodes == t.nodes@,
                    i < nodes.len(),
                    size_of(nodes, i) <= u64::MAX,
                    forall|k: int| 0 <= k < dirs@.len() ==> #[trigger] dirs@[k] < nodes.len(),
                    forall|k: int|
                        0 <= k < dirs@.len() ==> nodes[#[trigger] dirs@[k] as int].kind is Dir,
                    total + qsize(nodes, dirs@) == size_of(nodes, i),
                decreases crate::traverse::qweight(nodes, dirs@),
            {
                let ghost q0 = dirs@;
                let dir = dirs.remove(0);
                proof {
                    assert(dirs@ =~= q0.drop_first());
                    assert(qsize(nodes, q0) == size_of(nodes, dir) + qsize(nodes, dirs@));
                    assert(crate::traverse::qweight(nodes, q0) == crate::traverse::msize(
                        nodes,
                        dir,
                    ) + crate::traverse::qweight(nodes, dirs@));
                    assert(size_of(nodes, dir) == size_list(nodes, dir, kids(nodes, dir)));
                }
                let ghost qw0 = crate::traverse::qweight(nodes, dirs@);
                let children = crate::tree::get_dir_contents(t, dir);
                let ghost cs = kids(nodes, dir);
                let mut j: usize = 0;
                proof {
                    assert(cs.skip(0) =~= cs);
                }
                while j < children.len()
                    invariant
                        t.wf(),
                        nodes == t.nodes@,
                        i < nodes.len(),
                        dir < nodes.len(),
                        size_of(nodes, i) <= u64::MAX,
                        children@ == cs,
                        cs == kids(nodes, dir),
                        j <= children@.len(),
                        forall|k: int| 0 <= k < dirs@.len() ==> #[trigger] dirs@[k] < nodes.len(),
                        forall|k: int|
                            0 <= k < dirs@.len() ==> nodes[#[trigger] dirs@[k] as int].kind is Dir,
                        total + qsize(nodes, dirs@) + size_list(nodes, dir, cs.skip(j as int))
                            == size_of(nodes, i),
                        crate::traverse::qweight(nodes, dirs@) + crate::traverse::msize_list(
                            nodes,
                            dir,
                            cs.skip(j as int),
                        ) <= qw0 + crate::traverse::msize_list(nodes, dir, cs),
                    decreases children@.len() - j,
                {
                    let c = children[j];
                    let ghost suffix = cs.skip(j as int);
                    proof {
                        assert(forall|k: int|
                            0 <= k < suffix.len() ==> dir < #[trigger] suffix[k] < nodes.len());
                        assert(suffix[0] == c);
                        assert(suffix.drop_first() =~= cs.skip(j as int + 1));
                        assert(size_list(nodes, dir, suffix) == size_of(nodes, c) + size_list(
                            nodes,
                            dir,
                            cs.skip(j as int + 1),
                        ));
                        assert(crate::traverse::msize_list(nodes, dir, suffix)
                            == crate::traverse::msize(nodes, c) + crate::traverse::msize_list(
                            nodes,
                            dir,
                            cs.skip(j as int + 1),
                        ));
                    }
                    match &t.nodes[c].kind {
                        crate::tree::FsNodeKind::File { size } => {
                            proof {
                                assert(size_of(nodes, c) == *size as nat);
                                assert(total + *size <= u64::MAX);
                            }
                            total = total + *size;
                        },
                        crate::tree::FsNodeKind::Dir { .. } => {
                            let ghost d0 = dirs@;
                            dirs.push(c);
                            proof {
                                lemma_qsize_push(nodes, d0, c);
                                crate::traverse::lemma_qweight_push(nodes, d0, c);
                            }
                        },
                    }
                    j = j + 1;
                }
                proof {
                    assert(cs.skip(children@.len() as int) =~= Seq::<usize>::empty());
                    assert(crate::traverse::msize(nodes, dir) == 1 + crate::traverse::msize_list(
                        nodes,
                        dir,
                        cs,
                    ));
                    assert(crate::traverse::qweight(nodes, dirs@) < crate::traverse::qweight(
                        nodes,
                        q0,
                    ));
                }
            }
            proof {
                assert(qsize(nodes, dirs@) == 0);
            }
            total
        },
    }
}

/// Which candidates get deleted: all of them when confirmation is skipped,
/// otherwise exactly those whose prompt was answered with a confirmation.
pub open spec fn plan(skip: bool, cands: Seq<usize>, answers: Seq<bool>) -> Seq<usize>
    decreases cands.len(),
{
    if cands.len() == 0 {
        Seq::empty()
    } else {
        let rest = plan(skip, cands.drop_first(), answers.drop_first());
        if skip || (answers.len() > 0 && answers[0]) {
            seq![cands[0]] + rest
        } else {
            rest
        }
    }
}

/// The total size in bytes of the subtrees rooted at the listed nodes.
pub open spec fn sum_sizes(nodes: Seq<FsNode>, s: Seq<usize>) -> nat
    decreases s.len(),
{
    if s.len() == 0 {
        0
    } else {
        size_of(nodes, s[0]) + sum_sizes(nodes, s.drop_first())
    }
}

proof fn lemma_sum_sizes_concat(nodes: Seq<FsNode>, a: Seq<usize>, b: Seq<usize>)
    ensures
        sum_sizes(nodes, a + b) == sum_sizes(nodes, a) + sum_sizes(nodes, b),
    decreases a.len(),
{
    if a.len() == 0 {
        assert(a + b =~= b);
    } else {
        assert((a + b).drop_first() =~= a.drop_first() + b);
        assert((a + b)[0] == a[0]);
        lemma_sum_sizes_concat(nodes, a.drop_first(), b);
        assert(sum_sizes(nodes, a + b) == size_of(nodes, a[0]) + sum_sizes(
            nodes,
            (a + b).drop_first(),
        ));
        assert(sum_sizes(nodes, a) == size_of(nodes, a[0]) + sum_sizes(nodes, a.drop_first()));
    }
}

/// With confirmation skipped, every candidate is deleted, whatever answers
/// were or were not read from input: the plan is the candidate list itself.
pub proof fn lemma_skip_confirmation_deletes_all(cands: Seq<usize>, answers: Seq<bool>)
    ensures
        plan(true, cands, answers) == cands,
    decreases cands.len(),
{
    if cands.len() == 0 {
        assert(plan(true, cands, answers) =~= cands);
    } else {
        lemma_skip_confirmation_deletes_all(cands.drop_first(), answers.drop_first());
        assert(seq![cands[0]] + cands.drop_first() =~= cands);
    }
}

/// Walks the candidate list in order and deletes each confirmed one: a
/// candidate is kept for deletion when confirmation is skipped or its prompt
/// was answered with a confirmation; the freed bytes are added up, before
/// removal, only when the size report was asked for. Returns the deleted
/// candidates in order and the total bytes freed.
pub fn handle_deletion(t: &FsTree, req: &Request, paths: &Vec<usize>, answers: &Vec<bool>) -> (r: (
    Vec<usize>,
    u64,
))
    requires
        t.wf(),
        forall|k: int| 0 <= k < paths@.len() ==> #[trigger] paths@[k] < t.nodes@.len(),
        answers@.len() == paths@.len(),
        req.get_size ==> sum_sizes(
            t.nodes@,
            plan(req.skip_confirmation, paths@, answers@),
        ) <= u64::MAX,
    ensures
        r.0@ == plan(req.skip_confirmation, paths@, answers@),
        req.get_size ==> r.1 as nat == sum_sizes(t.nodes@, r.0@),
        !req.get_size ==> r.1 == 0,
{
    let ghost nodes = t.nodes@;
    let ghost full = plan(req.skip_confirmation, paths@, answers@);
    let mut deleted: Vec<usize> = Vec::new();
    let mut total: u64 = 0;
    let mut k: usize = 0;
    proof {
        assert(paths@.skip(0) =~= paths@);
        assert(answers@.skip(0) =~= answers@);
        assert(deleted@ + full =~= full);
    }
    while k < paths.len()
        invariant
            t.wf(),
            nodes == t.nodes@,
            full == plan(req.skip_confirmation, paths@, answers@),
            forall|j: int| 0 <= j < paths@.len() ==> #[trigger] paths@[j] < nodes.len(),
            answers@.len() == paths@.len(),
            k <= paths@.len(),
            deleted@ + plan(req.skip_confirmation, paths@.skip(k as int), answers@.skip(k as int))
                == full,
            req.get_size ==> sum_sizes(nodes, full) <= u64::MAX,
            req.get_size ==> total as nat == sum_sizes(nodes, deleted@),
            !req.get_size ==> total == 0,
        decreases paths@.len() - k,
    {
        let c = paths[k];
        let ghost psuf = paths@.skip(k as int);
        let ghost asuf = answers@.skip(k as int);
        proof {
            assert(psuf[0] == c);
            assert(asuf[0] == answers@[k as int]);
            assert(psuf.drop_first() =~= paths@.skip(k as int + 1));
            assert(asuf.drop_first() =~= answers@.skip(k as int + 1));
        }
        let keep = req.skip_confirmation || answers[k];
        if keep {
            let ghost rest = plan(req.skip_confirmation, paths@.skip(k as int + 1), answers@.skip(k as int + 1));
            proof {
                assert(plan(req.skip_confirmation, psuf, asuf) == seq![c] + rest);
                lemma_sum_sizes_concat(nodes, deleted@, seq![c] + rest);
                assert((seq![c] + rest).drop_first() =~= rest);
                assert(sum_sizes(nodes, seq![c] + rest) == size_of(nodes, c) + sum_sizes(
                    nodes,
                    rest,
                ));
            }
            if req.get_size {
                let s = get_size(t, c);
                proof {
                    assert(total + s <= u64::MAX);
                }
                total = total + s;
            }
            let ghost d0 = deleted@;
            deleted.push(c);
            proof {
                assert(deleted@ =~= d0 + seq![c]);
                assert(deleted@ + rest =~= d0 + (seq![c] + rest));
                lemma_sum_sizes_concat(nodes, d0, seq![c]);
                assert(sum_sizes(nodes, seq![c]) == size_of(nodes, c) + sum_sizes(
                    nodes,
                    Seq::<usize>::empty(),
                )) by {
                    assert(seq![c].drop_first() =~= Seq::<usize>::empty());
                }
            }
        } else {
            proof {
                assert(plan(req.skip_confirmation, psuf, asuf) == plan(
                    req.skip_confirmation,
                    paths@.skip(k as int + 1),
                    answers@.skip(k as int + 1),
                ));
            }
        }
        k = k + 1;
    }
    proof {
        assert(paths@.skip(paths@.len() as int) =~= Seq::<usize>::empty());
        assert(answers@.skip(answers@.len() as int) =~= Seq::<bool>::empty());
        assert(deleted@ + Seq::<usize>::empty() =~= deleted@);
    }
    (deleted, total)
}

} // verus!
