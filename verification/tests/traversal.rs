use del_files::request::{get_all_files, get_del_paths, get_size, handle_deletion, Request};
use del_files::tree::{FsNode, FsNodeKind, FsTree};

fn file(name: &str, path: &str, size: u64) -> FsNode {
    FsNode { name: name.to_string(), path: path.to_string(), kind: FsNodeKind::File { size } }
}

fn dir(name: &str, path: &str, children: Vec<usize>) -> FsNode {
    FsNode { name: name.to_string(), path: path.to_string(), kind: FsNodeKind::Dir { children } }
}

fn names(v: Vec<&str>) -> Vec<String> {
    let mut out: Vec<String> = Vec::new();
    for s in v {
        out.push(s.to_string());
    }
    out
}

fn request(targets: Vec<&str>, exclude: Vec<&str>, recurse: bool) -> Request {
    Request::new("/r".to_string(), names(targets), names(exclude), recurse, false, false)
}

/// Root `/r` holds target file `a.txt`, directory `sub/` (not excluded)
/// holding target file `b.txt`, and directory `skip/` (excluded) holding
/// target file `c.txt`: the candidates are `/r/a.txt` and `/r/sub/b.txt`,
/// and `/r/skip/c.txt` is never reached.
#[test]
fn scenario_excluded_subtree() {
    let t = FsTree {
        nodes: vec![
            dir("r", "/r", vec![1, 2, 3]),
            file("a.txt", "/r/a.txt", 10),
            dir("sub", "/r/sub", vec![4]),
            dir("skip", "/r/skip", vec![5]),
            file("b.txt", "/r/sub/b.txt", 20),
            file("c.txt", "/r/skip/c.txt", 30),
        ],
    };
    let req = request(vec!["a.txt", "b.txt", "c.txt"], vec!["skip"], true);
    let cands = get_del_paths(&t, &req);
    assert_eq!(cands, vec![1, 4]);
    let mut paths: Vec<String> = Vec::new();
    for i in &cands {
        paths.push(t.nodes[*i].path.clone());
    }
    assert_eq!(paths, vec!["/r/a.txt".to_string(), "/r/sub/b.txt".to_string()]);
}

/// A directory whose basename is itself a target is surfaced as a candidate
/// and its children are not scanned for further candidates.
#[test]
fn target_directory_is_not_descended() {
    let t = FsTree {
        nodes: vec![
            dir("r", "/r", vec![1]),
            dir("build", "/r/build", vec![2]),
            file("build", "/r/build/build", 5),
        ],
    };
    let req = request(vec!["build"], vec![], true);
    let cands = get_del_paths(&t, &req);
    assert_eq!(cands, vec![1]);
}

/// An excluded directory keeps its whole subtree out of the walk even when
/// a target lives arbitrarily deep inside it.
#[test]
fn excluded_subtree_hides_nested_target() {
    let t = FsTree {
        nodes: vec![
            dir("r", "/r", vec![1]),
            dir("vendor", "/r/vendor", vec![2]),
            dir("deep", "/r/vendor/deep", vec![3]),
            file("wanted.txt", "/r/vendor/deep/wanted.txt", 1),
        ],
    };
    let req = request(vec!["wanted.txt"], vec!["vendor"], true);
    let cands = get_del_paths(&t, &req);
    assert_eq!(cands, Vec::<usize>::new());
}

/// Without the recurse flag only the root's immediate children are examined.
#[test]
fn no_recursion_without_flag() {
    let t = FsTree {
        nodes: vec![
            dir("r", "/r", vec![1, 2]),
            file("a.txt", "/r/a.txt", 1),
            dir("sub", "/r/sub", vec![3]),
            file("a.txt", "/r/sub/a.txt", 2),
        ],
    };
    let req = request(vec!["a.txt"], vec![], false);
    let cands = get_del_paths(&t, &req);
    assert_eq!(cands, vec![1]);
}

/// Matching is by exact basename equality: no substring or glob matching.
#[test]
fn exact_basename_match_only() {
    let t = FsTree {
        nodes: vec![
            dir("r", "/r", vec![1, 2]),
            file("a.txt", "/r/a.txt", 1),
            file("aa.txt", "/r/aa.txt", 1),
        ],
    };
    let req = request(vec!["a.txt"], vec![], true);
    let cands = get_del_paths(&t, &req);
    assert_eq!(cands, vec![1]);
}

/// The walk is breadth first: shallow candidates are surfaced before deep
/// ones, whatever the order of the directories in between.
#[test]
fn breadth_first_order() {
    let t = FsTree {
        nodes: vec![
            dir("r", "/r", vec![1, 2]),
            dir("sub", "/r/sub", vec![3, 4]),
            file("t", "/r/t", 1),
            dir("inner", "/r/sub/inner", vec![5]),
            file("t", "/r/sub/t", 1),
            file("t", "/r/sub/inner/t", 1),
        ],
    };
    let req = request(vec!["t"], vec![], true);
    let cands = get_del_paths(&t, &req);
    assert_eq!(cands, vec![2, 4, 5]);
}

/// `get_all_files` on a file is the file itself; on a directory it is every
/// regular file below it.
#[test]
fn all_files_under_node() {
    let t = FsTree {
        nodes: vec![
            dir("r", "/r", vec![1, 2]),
            file("a", "/r/a", 1),
            dir("sub", "/r/sub", vec![3]),
            file("b", "/r/sub/b", 2),
        ],
    };
    assert_eq!(get_all_files(&t, 1), vec![1]);
    assert_eq!(get_all_files(&t, 0), vec![1, 3]);
    assert_eq!(get_all_files(&t, 2), vec![3]);
}

/// A file's size is its recorded length; a directory's size is the sum of
/// the regular-file sizes under it.
#[test]
fn sizes_add_up() {
    let t = FsTree {
        nodes: vec![
            dir("r", "/r", vec![1, 2, 3]),
            file("a", "/r/a", 100),
            dir("sub", "/r/sub", vec![4, 5]),
            dir("empty", "/r/empty", vec![]),
            file("b", "/r/sub/b", 23),
            file("c", "/r/sub/c", 7),
        ],
    };
    assert_eq!(get_size(&t, 1), 100);
    assert_eq!(get_size(&t, 2), 30);
    assert_eq!(get_size(&t, 3), 0);
    assert_eq!(get_size(&t, 0), 130);
}

/// With `skip_confirmation` set every candidate is deleted and no answer is
/// consulted.
#[test]
fn skip_confirmation_deletes_everything() {
    let t = FsTree {
        nodes: vec![dir("r", "/r", vec![1, 2]), file("a", "/r/a", 4), file("b", "/r/b", 6)],
    };
    let req = Request::new(
        "/r".to_string(),
        names(vec!["a", "b"]),
        Vec::new(),
        false,
        true,
        true,
    );
    let cands = get_del_paths(&t, &req);
    assert_eq!(cands, vec![1, 2]);
    let answers = vec![false, false];
    let (deleted, freed) = handle_deletion(&t, &req, &cands, &answers);
    assert_eq!(deleted, vec![1, 2]);
    assert_eq!(freed, 10);
}

/// Without `skip_confirmation` exactly the confirmed candidates are deleted,
/// and only their bytes count as freed.
#[test]
fn only_confirmed_candidates_are_deleted() {
    let t = FsTree {
        nodes: vec![
            dir("r", "/r", vec![1, 2, 3]),
            file("a", "/r/a", 4),
            file("b", "/r/b", 6),
            file("c", "/r/c", 11),
        ],
    };
    let req = Request::new(
        "/r".to_string(),
        names(vec!["a", "b", "c"]),
        Vec::new(),
        false,
        false,
        true,
    );
    let cands = get_del_paths(&t, &req);
    let answers = vec![true, false, true];
    let (deleted, freed) = handle_deletion(&t, &req, &cands, &answers);
    assert_eq!(deleted, vec![1, 3]);
    assert_eq!(freed, 15);
}

/// Without the size flag nothing is measured: the freed total stays zero.
#[test]
fn no_size_report_without_flag() {
    let t = FsTree { nodes: vec![dir("r", "/r", vec![1]), file("a", "/r/a", 4)] };
    let req = Request::new("/r".to_string(), names(vec!["a"]), Vec::new(), false, true, false);
    let cands = get_del_paths(&t, &req);
    let answers = vec![false];
    let (deleted, freed) = handle_deletion(&t, &req, &cands, &answers);
    assert_eq!(deleted, vec![1]);
    assert_eq!(freed, 0);
}
