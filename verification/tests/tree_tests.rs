use stitch::paths::path_to_unix;
use stitch::text::StringSet;
use stitch::tree_scan::TreeScan;
use stitch::tree::{
    assemble_dir_node, collect_selected_paths, dir_contains_file, gather_paths_set, sort_by_name,
    split_dir_entries, DirEntryInfo, Node, ScanResult, ScanStats, SelectionMap,
};

fn set(items: &[&str]) -> StringSet {
    let mut s = StringSet::new();
    for i in items {
        s.insert(i.to_string());
    }
    s
}

/// An in-memory directory: its name and its entries.
enum Mem {
    File(&'static str),
    Dir(&'static str, Vec<Mem>),
}

fn mem_name(m: &Mem) -> &'static str {
    match m {
        Mem::File(n) => n,
        Mem::Dir(n, _) => n,
    }
}

fn mem_listing(path: &str, entries: &[Mem]) -> Vec<DirEntryInfo> {
    entries
        .iter()
        .map(|m| DirEntryInfo {
            name: mem_name(m).to_string(),
            path: format!("{path}/{}", mem_name(m)),
            is_dir: matches!(m, Mem::Dir(..)),
        })
        .collect()
}

/// The entries of the in-memory directory at `path`, below `root` whose entries are `top`.
fn mem_entries<'a>(root: &str, top: &'a [Mem], path: &str) -> &'a [Mem] {
    let mut cur = top;
    let rest = path.strip_prefix(root).unwrap();
    for part in rest.split('/').filter(|p| !p.is_empty()) {
        cur = cur
            .iter()
            .find_map(|m| match m {
                Mem::Dir(n, es) if *n == part => Some(es.as_slice()),
                _ => None,
            })
            .unwrap();
    }
    cur
}

/// Scans an in-memory directory with the library's scan, handing it each listing it asks
/// for, as the application does on disk.
fn scan_mem(path: &str, entries: &[Mem], inc: &StringSet, exc: &StringSet, xd: &StringSet, xf: &StringSet) -> ScanResult {
    let mut scan = TreeScan::new(path.to_string(), inc, exc, xd, xf);
    while let Some(next) = scan.next_dir() {
        scan.feed(mem_listing(&next, mem_entries(path, entries, &next)));
    }
    scan.into_result().unwrap()
}

/// Scans with the library's scan steps alone: filter the listing, sort files and
/// directories by name, recurse, assemble.
fn scan_mem_steps(path: &str, entries: &[Mem], inc: &StringSet, exc: &StringSet, xd: &StringSet, xf: &StringSet) -> ScanResult {
    let listing = mem_listing(path, entries);
    let (files, dirs, stats) = split_dir_entries(&listing, inc, exc, xd, xf);
    let files = sort_by_name(files);
    let dirs = sort_by_name(dirs);
    let mut subs = Vec::new();
    for (_name, p) in dirs {
        subs.push(scan_mem_steps(&p, mem_entries(path, entries, &p), inc, exc, xd, xf));
    }
    assemble_dir_node(path.to_string(), files, subs, inc.len() > 0, stats)
}

fn names(n: &Node) -> Vec<&str> {
    n.children.iter().map(|c| c.name.as_str()).collect()
}

fn leaf(name: &str, path: &str) -> Node {
    Node {
        name: name.into(),
        path: path.into(),
        is_dir: false,
        children: vec![],
        expanded: false,
        has_children: false,
    }
}

fn dir(name: &str, path: &str, children: Vec<Node>) -> Node {
    let has = !children.is_empty();
    Node { name: name.into(), path: path.into(), is_dir: true, children, expanded: true, has_children: has }
}

#[test]
fn test_dir_contains_file_logic() {
    let x = leaf("x.txt", "x.txt");
    let empty_dir = Node {
        name: "empty".into(),
        path: "empty".into(),
        is_dir: true,
        children: vec![],
        expanded: true,
        has_children: false,
    };
    let nested_dir = Node {
        name: "nested".into(),
        path: "nested".into(),
        is_dir: true,
        children: vec![leaf("x.txt", "x.txt")],
        expanded: true,
        has_children: true,
    };
    assert!(dir_contains_file(&x));
    assert!(!dir_contains_file(&empty_dir));
    assert!(dir_contains_file(&nested_dir));
}

#[test]
fn dir_contains_file_false_when_only_subdirs_and_no_files_anywhere() {
    let leaf_dir = Node { name: "c".into(), path: "c".into(), is_dir: true, children: vec![], expanded: true, has_children: false };
    let mid_dir = Node { name: "b".into(), path: "b".into(), is_dir: true, children: vec![leaf_dir], expanded: true, has_children: false };
    let top_dir = Node { name: "a".into(), path: "a".into(), is_dir: true, children: vec![mid_dir], expanded: true, has_children: false };
    assert!(!dir_contains_file(&top_dir));
}

#[test]
fn test_gather_paths_set() {
    // The tree a scan gives for root/{a.txt, sub/b.rs}.
    let tree = dir("root", "/r", vec![leaf("a.txt", "/r/a.txt"), dir("sub", "/r/sub", vec![leaf("b.rs", "/r/sub/b.rs")])]);
    let s = gather_paths_set(&tree);
    assert!(s.contains("/r"));
    assert_eq!(
        s.len(),
        1 + tree.children.len() + tree.children.iter().map(|n| n.children.len()).sum::<usize>()
    );
}

#[test]
fn test_collect_selected_paths_inheritance() {
    // root/{a.txt, b.rs, sub1/{c.txt, deep/d.rs}}, as a scan orders it.
    let tree = dir(
        "root",
        "/r",
        vec![
            leaf("a.txt", "/r/a.txt"),
            leaf("b.rs", "/r/b.rs"),
            dir("sub1", "/r/sub1", vec![leaf("c.txt", "/r/sub1/c.txt"), dir("deep", "/r/sub1/deep", vec![leaf("d.rs", "/r/sub1/deep/d.rs")])]),
        ],
    );
    let mut explicit = SelectionMap::new();
    explicit.insert("/r/sub1".into(), true);
    explicit.insert("/r/b.rs".into(), true);

    let mut files = Vec::new();
    let mut dirs = Vec::new();
    collect_selected_paths(&tree, &explicit, None, &mut files, &mut dirs);

    let files_unix: Vec<_> = files.iter().map(|p| path_to_unix(p)).collect();
    assert!(files_unix.iter().any(|s| s.ends_with("b.rs")));
    assert!(files_unix.iter().any(|s| s.ends_with("sub1/c.txt")));
    assert!(files_unix.iter().any(|s| s.ends_with("sub1/deep/d.rs")));
    assert!(!files_unix.iter().any(|s| s.ends_with("a.txt")));

    let dirs_unix: Vec<_> = dirs.iter().map(|p| path_to_unix(p)).collect();
    assert!(dirs_unix.iter().any(|s| s.ends_with("sub1")));
}

#[test]
fn child_true_overrides_ancestor_false() {
    let tree = dir("root", "/r", vec![dir("off", "/r/off", vec![leaf("keep.txt", "/r/off/keep.txt")])]);
    let mut explicit = SelectionMap::new();
    explicit.insert("/r/off".into(), false);
    explicit.insert("/r/off/keep.txt".into(), true);

    let mut files = Vec::new();
    let mut dirs = Vec::new();
    collect_selected_paths(&tree, &explicit, None, &mut files, &mut dirs);
    let files_unix: Vec<_> = files.iter().map(|p| path_to_unix(p)).collect();
    assert!(files_unix.iter().any(|s| s.ends_with("off/keep.txt")));
}

#[test]
fn selection_map_keeps_one_state_per_path() {
    let mut m = SelectionMap::new();
    m.insert("a".into(), true);
    m.insert("a".into(), false);
    m.insert("b".into(), true);
    assert_eq!(m.len(), 2);
    assert_eq!(m.get("a"), Some(false));
    m.remove("a");
    assert_eq!(m.get("a"), None);
    assert_eq!(m.keys(), vec!["b".to_string()]);
}

#[test]
fn scan_steps_include_exclude() {
    let layout = vec![
        Mem::File("a.txt"),
        Mem::File("b.rs"),
        Mem::File("c.lock"),
        Mem::Dir("node_modules", vec![Mem::File("x.js")]),
        Mem::Dir("sub", vec![Mem::Dir("deep", vec![Mem::File("d.rs")]), Mem::File("keep.md")]),
    ];
    let r = scan_mem("/r", &layout, &set(&[]), &set(&[".lock"]), &set(&["node_modules"]), &set(&[]));
    let n = names(&r.node);
    assert!(n.contains(&"a.txt") && n.contains(&"b.rs") && n.contains(&"sub"));
    assert!(!n.contains(&"c.lock") && !n.contains(&"node_modules"));
    let sub = r.node.children.iter().find(|c| c.name == "sub").unwrap();
    assert_eq!(names(sub), vec!["keep.md", "deep"]);
    assert!(r.stats.excluded_dirs_found.contains("node_modules"));
    assert_eq!(n, vec!["a.txt", "b.rs", "sub"]);
}

#[test]
fn scan_steps_include_mode_hides_dirs_without_matches() {
    let layout = vec![
        Mem::Dir("sub1", vec![Mem::File("one.txt")]),
        Mem::Dir("sub2", vec![Mem::File("two.md")]),
        Mem::Dir("sub3", vec![Mem::Dir("deeper", vec![Mem::File("hit.rs")])]),
    ];
    let r = scan_mem("/r", &layout, &set(&[".rs"]), &set(&[]), &set(&[]), &set(&[]));
    assert_eq!(names(&r.node), vec!["sub3"]);
    assert!(r.node.has_children);
    let r2 = scan_mem("/r", &layout[..2], &set(&[".rs"]), &set(&[]), &set(&[]), &set(&[]));
    assert!(r2.node.children.is_empty());
    assert!(!r2.node.has_children);
}

#[test]
fn scan_steps_exclude_files_by_basename_recursively() {
    let layout = vec![
        Mem::File("secret.env"),
        Mem::Dir("a", vec![Mem::File("secret.env"), Mem::File("ok.rs")]),
    ];
    let r = scan_mem("/r", &layout, &set(&[]), &set(&[]), &set(&[]), &set(&["secret.env"]));
    assert_eq!(names(&r.node), vec!["a"]);
    assert_eq!(names(&r.node.children[0]), vec!["ok.rs"]);
    assert!(r.stats.excluded_files_found.contains("secret.env"));
}

#[test]
fn scan_steps_order_files_then_dirs_by_name() {
    let layout = vec![
        Mem::Dir("zeta", vec![Mem::File("f")]),
        Mem::File("b.txt"),
        Mem::Dir("alpha", vec![Mem::File("g")]),
        Mem::File("a.txt"),
    ];
    let r = scan_mem("/r", &layout, &set(&[]), &set(&[]), &set(&[]), &set(&[]));
    assert_eq!(names(&r.node), vec!["a.txt", "b.txt", "alpha", "zeta"]);
    assert_eq!(r.node.name, "r");
    assert!(r.node.expanded && r.node.is_dir);
}

#[test]
fn sort_by_name_is_stable_and_ordered() {
    let v = vec![("b".to_string(), "1".to_string()), ("a".to_string(), "2".to_string()), ("b".to_string(), "3".to_string())];
    let s = sort_by_name(v);
    assert_eq!(
        s,
        vec![("a".to_string(), "2".to_string()), ("b".to_string(), "1".to_string()), ("b".to_string(), "3".to_string())]
    );
}

#[test]
fn assemble_merges_stats_of_subdirs() {
    let mut st = ScanStats::new();
    st.excluded_dirs_found.insert("target".into());
    let sub = ScanResult {
        node: dir("s", "/r/s", vec![leaf("x", "/r/s/x")]),
        stats: {
            let mut s2 = ScanStats::new();
            s2.excluded_files_found.insert("x.lock".into());
            s2
        },
    };
    let r = assemble_dir_node("/r".into(), vec![], vec![sub], false, st);
    assert!(r.stats.excluded_dirs_found.contains("target"));
    assert!(r.stats.excluded_files_found.contains("x.lock"));
    assert!(r.node.has_children);
}

/// Files first, then directories, each group in name order; recursively.
fn laid_out(n: &Node) -> bool {
    let cs = &n.children;
    let first_dir = cs.iter().position(|c| c.is_dir).unwrap_or(cs.len());
    let files_ok = cs[..first_dir].iter().all(|c| !c.is_dir && c.children.is_empty());
    let dirs_ok = cs[first_dir..].iter().all(|c| c.is_dir && laid_out(c));
    let sorted = |xs: &[Node]| xs.windows(2).all(|w| w[0].name <= w[1].name);
    files_ok && dirs_ok && sorted(&cs[..first_dir]) && sorted(&cs[first_dir..])
}

#[test]
fn scanned_tree_has_files_first_in_name_order() {
    let tree = vec![
        Mem::Dir("zeta", vec![Mem::File("b.rs"), Mem::Dir("inner", vec![Mem::File("x.rs")]), Mem::File("a.rs")]),
        Mem::File("z.txt"),
        Mem::Dir("alpha", vec![Mem::File("m.rs")]),
        Mem::File("b.md"),
        Mem::Dir("skip", vec![Mem::File("s.rs")]),
    ];
    let empty = set(&[]);
    let r = scan_mem("/p", &tree, &empty, &set(&[".md"]), &set(&["skip"]), &empty);
    assert!(laid_out(&r.node));
    let names: Vec<&str> = r.node.children.iter().map(|c| c.name.as_str()).collect();
    assert_eq!(names, vec!["z.txt", "alpha", "zeta"]);
}

/// A node and everything below it, one line per node, for comparing trees.
fn describe(n: &Node, out: &mut Vec<String>) {
    out.push(format!("{}|{}|{}|{}|{}", n.path, n.name, n.is_dir, n.expanded, n.has_children));
    for c in &n.children {
        describe(c, out);
    }
}

#[test]
fn whole_scan_matches_step_by_step_scan() {
    let tree = vec![
        Mem::Dir("zeta", vec![Mem::File("b.rs"), Mem::Dir("inner", vec![Mem::File("x.rs")]), Mem::File("a.rs")]),
        Mem::File("z.txt"),
        Mem::Dir("alpha", vec![Mem::File("m.rs"), Mem::Dir("empty", vec![])]),
        Mem::File("b.md"),
        Mem::Dir("skip", vec![Mem::File("s.rs")]),
        Mem::File("Cargo.lock"),
    ];
    for inc in [set(&[]), set(&[".rs"])] {
        let xd = set(&["skip"]);
        let xf = set(&["Cargo.lock"]);
        let whole = scan_mem("/p", &tree, &inc, &set(&[".md"]), &xd, &xf);
        let steps = scan_mem_steps("/p", &tree, &inc, &set(&[".md"]), &xd, &xf);
        let (mut a, mut b) = (Vec::new(), Vec::new());
        describe(&whole.node, &mut a);
        describe(&steps.node, &mut b);
        assert_eq!(a, b);
        assert!(laid_out(&whole.node));
        assert!(whole.stats.excluded_dirs_found.contains("skip"));
        assert!(whole.stats.excluded_files_found.contains("Cargo.lock"));
    }
}

#[test]
fn whole_scan_asks_for_listings_depth_first_in_name_order() {
    let tree = vec![
        Mem::Dir("b", vec![Mem::Dir("c", vec![])]),
        Mem::Dir("a", vec![]),
        Mem::Dir("x", vec![]),
    ];
    let empty = set(&[]);
    let xd = set(&["x"]);
    let mut scan = TreeScan::new("/r".to_string(), &empty, &empty, &xd, &empty);
    let mut asked = Vec::new();
    while let Some(next) = scan.next_dir() {
        asked.push(next.clone());
        scan.feed(mem_listing(&next, mem_entries("/r", &tree, &next)));
    }
    assert_eq!(asked, vec!["/r", "/r/a", "/r/b", "/r/b/c"]);
    let r = scan.into_result().unwrap();
    let names: Vec<&str> = r.node.children.iter().map(|c| c.name.as_str()).collect();
    assert_eq!(names, vec!["a", "b"]);
    assert!(r.stats.excluded_dirs_found.contains("x"));
    // "b" shows a child folder, which is enough for the root to count as having content.
    assert!(r.node.has_children);
    assert!(!r.node.children[0].has_children);
}

#[test]
fn whole_scan_of_unreadable_subdirectory_gives_empty_node() {
    let empty = set(&[]);
    let mut scan = TreeScan::new("/r".to_string(), &empty, &empty, &empty, &empty);
    let root_listing = vec![
        DirEntryInfo { name: "locked".into(), path: "/r/locked".into(), is_dir: true },
        DirEntryInfo { name: "f.txt".into(), path: "/r/f.txt".into(), is_dir: false },
    ];
    scan.feed(root_listing);
    assert_eq!(scan.next_dir().as_deref(), Some("/r/locked"));
    scan.feed(Vec::new());
    assert_eq!(scan.next_dir(), None);
    let r = scan.into_result().unwrap();
    assert_eq!(r.node.children.len(), 2);
    let locked = &r.node.children[1];
    assert_eq!(locked.name, "locked");
    assert!(locked.is_dir && locked.children.is_empty() && !locked.has_children);
    assert!(r.node.has_children);
}

/// Whether a file lies somewhere below `n`.
fn has_file_below(n: &Node) -> bool {
    n.children.iter().any(|c| !c.is_dir || has_file_below(c))
}

fn all_shown_dirs_hold_files(n: &Node) -> bool {
    n.children.iter().filter(|c| c.is_dir).all(|c| has_file_below(c) && all_shown_dirs_hold_files(c))
}

#[test]
fn include_mode_shows_only_dirs_with_matching_files_below() {
    let tree = vec![
        Mem::Dir("a", vec![Mem::Dir("b", vec![Mem::Dir("c", vec![Mem::File("deep.rs")])])]),
        Mem::Dir("d", vec![Mem::Dir("e", vec![Mem::Dir("f", vec![Mem::File("x.txt")])])]),
        Mem::Dir("g", vec![]),
        Mem::File("top.rs"),
    ];
    let empty = set(&[]);
    let r = scan_mem("/r", &tree, &set(&[".rs"]), &empty, &empty, &empty);
    assert!(all_shown_dirs_hold_files(&r.node));
    assert_eq!(names(&r.node), vec!["top.rs", "a"]);
    assert_eq!(names(&r.node.children[1].children[0].children[0]), vec!["deep.rs"]);
    let all = scan_mem("/r", &tree, &empty, &empty, &empty, &empty);
    assert_eq!(names(&all.node), vec!["top.rs", "a", "d", "g"]);
}

#[test]
fn whole_scan_lists_every_kept_file_and_folder() {
    let tree = vec![
        Mem::File("c.rs"),
        Mem::File("a.rs"),
        Mem::File("b.md"),
        Mem::File("skip.rs"),
        Mem::Dir("z", vec![]),
        Mem::Dir("y", vec![Mem::File("inner.rs")]),
        Mem::Dir("out", vec![Mem::File("o.rs")]),
    ];
    let empty = set(&[]);
    let r = scan_mem("/r", &tree, &empty, &set(&[".md"]), &set(&["out"]), &set(&["skip.rs"]));
    assert_eq!(names(&r.node), vec!["a.rs", "c.rs", "y", "z"]);
    let paths: Vec<&str> = r.node.children.iter().map(|c| c.path.as_str()).collect();
    assert_eq!(paths, vec!["/r/a.rs", "/r/c.rs", "/r/y", "/r/z"]);
    assert_eq!(names(&r.node.children[2]), vec!["inner.rs"]);
}
