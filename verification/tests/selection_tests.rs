use stitch::hierarchy::render_unicode_tree_from_paths;
use stitch::paths::{format_project_path_for_title, relative_paths_below, strip_prefix_key};
use stitch::selection::apply_selection_from_text;
use stitch::text::split_csv_set;
use stitch::tree::{flatten_tree, Node, SelectionMap};
use stitch::workspace::{profiles_equal, Profile, ProfileSelection, WorkspaceSettings};

fn file_node(name: &str, path: &str) -> Node {
    Node { name: name.into(), path: path.into(), is_dir: false, children: vec![], expanded: false, has_children: false }
}

fn dir_node(name: &str, path: &str, expanded: bool, children: Vec<Node>) -> Node {
    let has = !children.is_empty();
    Node { name: name.into(), path: path.into(), is_dir: true, children, expanded, has_children: has }
}

/// /p
/// ├── a.rs
/// └── src
///     ├── lib.rs
///     └── util
///         └── x.rs
fn sample_tree() -> Node {
    dir_node(
        "p",
        "/p",
        true,
        vec![
            file_node("a.rs", "/p/a.rs"),
            dir_node(
                "src",
                "/p/src",
                true,
                vec![
                    file_node("lib.rs", "/p/src/lib.rs"),
                    dir_node("util", "/p/src/util", false, vec![file_node("x.rs", "/p/src/util/x.rs")]),
                ],
            ),
        ],
    )
}

fn selection(profile_name: &str, sels: &[(&str, bool)]) -> Profile {
    Profile {
        name: profile_name.to_string(),
        settings: WorkspaceSettings::default(),
        explicit: sels.iter().map(|(p, s)| ProfileSelection { path: p.to_string(), state: *s }).collect(),
    }
}

#[test]
fn selection_from_text_marks_listed_files_only() {
    let tree = sample_tree();
    let text = "p\n├── a.rs\n└── src\n    └── util\n        └── x.rs\n";
    let sel = apply_selection_from_text(&tree, "/p", text).expect("a selection");
    assert_eq!(sel.len(), 2);
    assert_eq!(sel.get("/p/a.rs"), Some(true));
    assert_eq!(sel.get("/p/src/util/x.rs"), Some(true));
    assert_eq!(sel.get("/p/src/lib.rs"), None);
    // Directories are never marked, even when the listing names them.
    assert_eq!(sel.get("/p/src"), None);
}

#[test]
fn selection_from_text_none_for_empty_or_rootless_listing() {
    let tree = sample_tree();
    assert!(apply_selection_from_text(&tree, "/p", "").is_none());
    assert!(apply_selection_from_text(&tree, "/p", "p\n").is_none());
}

#[test]
fn selection_from_text_ignores_unknown_paths() {
    let tree = sample_tree();
    let sel = apply_selection_from_text(&tree, "/p", "p\n└── nothing.rs\n").expect("a selection");
    assert_eq!(sel.len(), 0);
}

#[test]
fn selection_from_rendered_listing_round_trips() {
    let tree = sample_tree();
    let keys = vec!["src/lib.rs".to_string(), "a.rs".to_string()];
    let listing = render_unicode_tree_from_paths(&keys, Some("p"));
    let sel = apply_selection_from_text(&tree, "/p", &listing).expect("a selection");
    assert_eq!(sel.len(), 2);
    assert_eq!(sel.get("/p/src/lib.rs"), Some(true));
    assert_eq!(sel.get("/p/a.rs"), Some(true));
}

#[test]
fn strip_prefix_key_joins_remaining_components() {
    assert_eq!(strip_prefix_key("/p", "/p/src/a.rs").as_deref(), Some("src/a.rs"));
    assert_eq!(strip_prefix_key("/p", "/p").as_deref(), Some(""));
    assert_eq!(strip_prefix_key("/p", "/q/a.rs"), None);
    assert_eq!(strip_prefix_key("/p/", "/p//x/./y"), Some("x/y".to_string()));
}

#[test]
fn relative_paths_below_keeps_order_and_drops_outsiders() {
    let ps = vec!["/p/b".to_string(), "/q/a".to_string(), "/p".to_string(), "/p/a/c".to_string()];
    assert_eq!(relative_paths_below("/p", &ps), vec!["b".to_string(), "a/c".to_string()]);
}

#[test]
fn title_path_uses_tilde_for_home() {
    assert_eq!(format_project_path_for_title("/home/u/proj", Some("/home/u")), "~/proj");
    assert_eq!(format_project_path_for_title("/home/u", Some("/home/u")), "~");
    assert_eq!(format_project_path_for_title("/srv/x", Some("/home/u")), "//srv/x");
    assert_eq!(format_project_path_for_title("rel/x", None), "rel/x");
    // A sibling whose name merely starts with the home folder's name is not below it.
    assert_eq!(format_project_path_for_title("/home/user2/p", Some("/home/u")), "//home/user2/p");
}

#[test]
fn csv_set_trims_and_drops_empty_entries() {
    let s = split_csv_set(" a, b ,,a , ");
    assert_eq!(s.len(), 2);
    assert!(s.contains("a"));
    assert!(s.contains("b"));
    assert!(split_csv_set(" , ").is_empty());
}

#[test]
fn profiles_equal_ignores_selection_order() {
    let a = selection("p", &[("src/a.rs", true), ("b", false)]);
    let b = selection("p", &[("b", false), ("src/a.rs", true)]);
    assert!(profiles_equal(&a, &b));
}

#[test]
fn profiles_equal_counts_repeated_selections() {
    let a = selection("p", &[("x", true), ("x", true), ("y", true)]);
    let b = selection("p", &[("x", true), ("y", true), ("y", true)]);
    assert!(!profiles_equal(&a, &b));
    let c = selection("p", &[("y", true), ("x", true), ("x", true)]);
    assert!(profiles_equal(&a, &c));
}

#[test]
fn profiles_equal_compares_name_settings_and_states() {
    let a = selection("p", &[("x", true)]);
    assert!(!profiles_equal(&a, &selection("q", &[("x", true)])));
    assert!(!profiles_equal(&a, &selection("p", &[("x", false)])));
    assert!(!profiles_equal(&a, &selection("p", &[])));
    let mut c = selection("p", &[("x", true)]);
    c.settings.dirs_only = true;
    assert!(!profiles_equal(&a, &c));
}

#[test]
fn flatten_tree_shows_expanded_levels_and_inherits_checks() {
    let tree = sample_tree();
    let mut explicit = SelectionMap::new();
    explicit.insert("/p/src".to_string(), true);
    explicit.insert("/p/src/lib.rs".to_string(), false);
    let rows = flatten_tree(&tree, &explicit, None, 0);
    let shown: Vec<(&str, usize, bool)> = rows.iter().map(|r| (r.path.as_str(), r.level, r.checked)).collect();
    assert_eq!(
        shown,
        vec![
            ("/p", 0, false),
            ("/p/a.rs", 1, false),
            ("/p/src", 1, true),
            ("/p/src/lib.rs", 2, false),
            ("/p/src/util", 2, true),
        ]
    );
    let util = &rows[4];
    assert!(util.is_dir && !util.expanded && util.has_children);
    let file = &rows[1];
    assert!(!file.is_dir && !file.expanded && !file.has_children);
}

#[test]
fn flatten_tree_starts_at_given_level_with_inherited_state() {
    let tree = dir_node("d", "/d", true, vec![file_node("f", "/d/f")]);
    let rows = flatten_tree(&tree, &SelectionMap::new(), Some(true), 3);
    assert_eq!(rows.len(), 2);
    assert_eq!((rows[0].level, rows[0].checked), (3, true));
    assert_eq!((rows[1].level, rows[1].checked), (4, true));
    assert_eq!(rows[1].name, "f");
}
