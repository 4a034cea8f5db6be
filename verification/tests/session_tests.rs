use stitch::output::{
    bpe_stats_label, bpe_stats_label_from, count_tokens, decimal_string, displayed_output, output_view,
    stats_label, MAX_TOKENIZE_BYTES, UI_OUTPUT_CHAR_LIMIT,
};
use stitch::selection::{clear_descendant_explicit_states, toggle_check_state};
use stitch::session::{
    capture_selections, explicit_states_from_profile, parse_filters, profile_choices,
    save_button_enabled, tree_has_rust_file,
};
use stitch::text::remove_regex_cleanable;
use stitch::text::StringSet;
use stitch::tree::{toggle_node_expanded, Node, SelectionMap};
use stitch::ui_state::{rescan_outcome, FsState, GenerationState, RescanOutcome};
use stitch::workspace::{Profile, ProfileMeta, ProfileScope, ProfileSelection, WorkspaceSettings};

fn leaf(name: &str, path: &str) -> Node {
    Node { name: name.into(), path: path.into(), is_dir: false, children: vec![], expanded: false, has_children: false }
}

fn folder(name: &str, path: &str, expanded: bool, children: Vec<Node>) -> Node {
    let has = !children.is_empty();
    Node { name: name.into(), path: path.into(), is_dir: true, children, expanded, has_children: has }
}

fn meta(name: &str) -> ProfileMeta {
    ProfileMeta { name: name.to_string(), scope: ProfileScope::Shared }
}

fn profile(name: &str, sels: &[(&str, bool)]) -> Profile {
    Profile {
        name: name.to_string(),
        settings: WorkspaceSettings::default(),
        explicit: sels.iter().map(|(p, s)| ProfileSelection { path: p.to_string(), state: *s }).collect(),
    }
}

#[test]
fn parse_filters_reads_every_field() {
    let f = parse_filters(".rs, -.lock", "target, .git", "Cargo.lock", "//, #", "  \"TODO.*\"  ");
    assert!(f.include_exts.contains(".rs"));
    assert!(f.exclude_exts.contains(".lock"));
    assert_eq!(f.exclude_dirs.len(), 3);
    assert!(f.exclude_dirs.contains(".stitchworkspace"));
    assert!(f.exclude_dirs.contains("target"));
    assert!(f.exclude_files.contains("Cargo.lock"));
    assert_eq!(f.remove_prefixes, vec!["//".to_string(), "#".to_string()]);
    assert_eq!(f.remove_regex_str.as_deref(), Some("TODO.*"));
    assert!(f.remove_regex.is_some());
}

#[test]
fn parse_filters_drops_blank_or_invalid_regex() {
    let f = parse_filters("", "", "", "", "  ''  ");
    assert_eq!(f.remove_regex_str, None);
    assert!(f.remove_regex.is_none());
    assert_eq!(f.exclude_dirs.len(), 1);
    let g = parse_filters("", "", "", "", "(unclosed");
    assert_eq!(g.remove_regex_str.as_deref(), Some("(unclosed"));
    assert!(g.remove_regex.is_none());
}

#[test]
fn regex_cleanable_rejects_lone_quote() {
    assert!(remove_regex_cleanable("abc"));
    assert!(remove_regex_cleanable("\"\""));
    assert!(!remove_regex_cleanable(" \" "));
    assert!(!remove_regex_cleanable("\"\"\"\""));
    assert!(remove_regex_cleanable("\"\"\"x\"\"\""));
}

#[test]
fn profile_choices_select_current_profile() {
    let ps = vec![meta("alpha"), meta("beta")];
    let (names, idx) = profile_choices(&ps, Some("beta"));
    assert_eq!(names, vec!["— Workspace —".to_string(), "alpha".to_string(), "beta".to_string()]);
    assert_eq!(idx, 2);
    assert_eq!(profile_choices(&ps, Some("gamma")).1, 0);
    assert_eq!(profile_choices(&ps, None).1, 0);
    assert_eq!(profile_choices(&vec![], Some("x")), (vec!["— Workspace —".to_string()], 0));
}

#[test]
fn save_button_tracks_unsaved_changes() {
    let base = WorkspaceSettings::default();
    let mut changed = WorkspaceSettings::default();
    changed.hierarchy_only = true;
    assert!(!save_button_enabled(-1, Some(&base), &changed, "", None, None));
    assert!(!save_button_enabled(0, Some(&base), &base, "", None, None));
    assert!(save_button_enabled(0, Some(&base), &changed, "", None, None));
    assert!(save_button_enabled(0, None, &base, "", None, None));
    let p = profile("p", &[("a", true)]);
    let q = profile("p", &[("a", false)]);
    assert!(!save_button_enabled(1, None, &base, "  ", Some(&p), Some(&q)));
    assert!(!save_button_enabled(1, None, &base, "p", Some(&p), None));
    assert!(!save_button_enabled(1, None, &base, "p", Some(&p), Some(&p)));
    assert!(save_button_enabled(1, None, &base, "p", Some(&p), Some(&q)));
    assert!(save_button_enabled(1, None, &base, "p", None, Some(&p)));
}

#[test]
fn capture_then_apply_restores_states() {
    let mut explicit = SelectionMap::new();
    explicit.insert("/p".to_string(), true);
    explicit.insert("/p/src/a.rs".to_string(), false);
    explicit.insert("/elsewhere/x".to_string(), true);
    let sels = capture_selections(&explicit, "/p");
    let mut pairs: Vec<(String, bool)> = sels.iter().map(|s| (s.path.clone(), s.state)).collect();
    pairs.sort();
    assert_eq!(pairs, vec![(String::new(), true), ("src/a.rs".to_string(), false)]);
    let back = explicit_states_from_profile("/p", &sels);
    assert_eq!(back.len(), 2);
    assert_eq!(back.get("/p"), Some(true));
    assert_eq!(back.get("/p/src/a.rs"), Some(false));
}

#[test]
fn apply_profile_joins_and_later_entries_win() {
    let sels = vec![
        ProfileSelection { path: "a".into(), state: true },
        ProfileSelection { path: "/abs/b".into(), state: true },
        ProfileSelection { path: "a".into(), state: false },
    ];
    let m = explicit_states_from_profile("/root/", &sels);
    assert_eq!(m.len(), 2);
    assert_eq!(m.get("/root/a"), Some(false));
    assert_eq!(m.get("/abs/b"), Some(true));
}

#[test]
fn rust_file_detection_looks_everywhere() {
    let no = folder("p", "/p", true, vec![leaf("a.txt", "/p/a.txt"), folder("rs", "/p/rs", false, vec![])]);
    assert!(!tree_has_rust_file(&no));
    let yes = folder("p", "/p", true, vec![folder("s", "/p/s", false, vec![leaf("m.rs", "/p/s/m.rs")])]);
    assert!(tree_has_rust_file(&yes));
    assert!(!tree_has_rust_file(&leaf("m.RS", "/p/m.RS")));
}

#[test]
fn toggle_expanded_flips_first_matching_directory() {
    let mut t = folder("p", "/p", true, vec![leaf("a", "/p/a"), folder("d", "/p/d", false, vec![])]);
    assert!(toggle_node_expanded(&mut t, "/p/d"));
    assert!(t.children[1].expanded);
    assert!(toggle_node_expanded(&mut t, "/p/d"));
    assert!(!t.children[1].expanded);
    assert!(!toggle_node_expanded(&mut t, "/p/a"));
    assert!(!t.children[0].expanded);
    assert!(!toggle_node_expanded(&mut t, "/nowhere"));
    assert!(toggle_node_expanded(&mut t, "/p"));
    assert!(!t.expanded);
}

#[test]
fn toggling_a_directory_clears_states_below_it() {
    let mut m = SelectionMap::new();
    m.insert("/p/src/a.rs".to_string(), false);
    m.insert("/p/srcx".to_string(), true);
    m.insert("/p/src".to_string(), false);
    toggle_check_state(&mut m, "/p/src", true, false);
    assert_eq!(m.len(), 2);
    assert_eq!(m.get("/p/src"), Some(true));
    assert_eq!(m.get("/p/srcx"), Some(true));
    assert_eq!(m.get("/p/src/a.rs"), None);
    toggle_check_state(&mut m, "/p/srcx", false, true);
    assert_eq!(m.get("/p/srcx"), Some(false));
}

#[test]
fn clearing_descendants_keeps_the_directory_itself() {
    let mut m = SelectionMap::new();
    m.insert("/p/d/".to_string(), true);
    m.insert("/p/d/x".to_string(), true);
    m.insert("/q".to_string(), false);
    clear_descendant_explicit_states(&mut m, "/p/d");
    assert_eq!(m.len(), 2);
    assert_eq!(m.get("/p/d/"), Some(true));
    assert_eq!(m.get("/q"), Some(false));
}

#[test]
fn decimal_strings() {
    assert_eq!(decimal_string(0), "0");
    assert_eq!(decimal_string(7), "7");
    assert_eq!(decimal_string(50000), "50000");
    assert_eq!(decimal_string(1234567890), "1234567890");
}

#[test]
fn short_output_is_shown_whole() {
    assert_eq!(displayed_output("hello\n"), "hello\n");
    let exact: String = "x".repeat(UI_OUTPUT_CHAR_LIMIT);
    assert_eq!(displayed_output(&exact), exact);
}

#[test]
fn long_output_is_cut_with_footer() {
    let long: String = "é".repeat(UI_OUTPUT_CHAR_LIMIT + 10);
    let shown = displayed_output(&long);
    let footer = format!(
        "\n… [truncated: showing {UI_OUTPUT_CHAR_LIMIT} of {} chars — use “Copy Output” to copy all]\n",
        UI_OUTPUT_CHAR_LIMIT + 10
    );
    assert!(shown.ends_with(&footer));
    assert_eq!(shown.chars().count(), UI_OUTPUT_CHAR_LIMIT);
    let keep = UI_OUTPUT_CHAR_LIMIT - footer.chars().count();
    assert_eq!(shown.chars().take(keep).collect::<String>(), "é".repeat(keep));
}

#[test]
fn tokens_are_whitespace_separated_words() {
    assert_eq!(count_tokens(""), 0);
    assert_eq!(count_tokens("  a  bb\tc\n"), 3);
    assert_eq!(count_tokens("one"), 1);
    assert_eq!(count_tokens("a\u{3000}b"), 2);
}

#[test]
fn stats_label_counts_chars_tokens_lines() {
    assert_eq!(stats_label("a b\nc\n"), "6 chars • 3 tokens • 2 LOC");
    assert_eq!(stats_label("No items selected.\n"), "0 chars • 0 tokens • 0 LOC");
    assert_eq!(stats_label(""), "0 chars • 0 tokens • 0 LOC");
}

fn strset(items: &[&str]) -> StringSet {
    let mut s = StringSet::new();
    for i in items {
        s.insert(i.to_string());
    }
    s
}

#[test]
fn generation_requests_during_a_run_coalesce() {
    let mut g = GenerationState::default();
    assert!(g.request());
    g.start_run();
    assert!(!g.request());
    assert!(!g.request());
    assert!(!g.request());
    assert!(g.finish_run());
    assert!(!g.in_progress && !g.queue_another);
    assert!(g.request());
    g.start_run();
    assert!(!g.finish_run());
}

#[test]
fn rescan_only_when_open_and_dirty() {
    let mut f = FsState::default();
    assert!(!f.take_rescan(true));
    f.mark_dirty();
    assert!(!f.take_rescan(false));
    assert!(f.dirty);
    assert!(f.take_rescan(true));
    assert!(!f.dirty);
}

#[test]
fn rescan_outcomes() {
    let a = strset(&["/p", "/p/a"]);
    let b = strset(&["/p/a", "/p"]);
    let c = strset(&["/p", "/p/b"]);
    assert_eq!(rescan_outcome(None, &a, false), RescanOutcome::TreeChanged);
    assert_eq!(rescan_outcome(Some(&a), &c, false), RescanOutcome::TreeChanged);
    assert_eq!(rescan_outcome(Some(&a), &b, false), RescanOutcome::Regenerate);
    assert_eq!(rescan_outcome(Some(&a), &b, true), RescanOutcome::Unchanged);
    assert_eq!(rescan_outcome(Some(&strset(&["/p"])), &a, false), RescanOutcome::TreeChanged);
}

#[test]
fn bpe_label_from_given_counts() {
    assert_eq!(bpe_stats_label_from("a b\n", Some(5)), "4 chars • 5 tokens • 1 LOC");
    assert_eq!(bpe_stats_label_from("a b\n", None), "4 chars • … tokens • 1 LOC");
    assert_eq!(bpe_stats_label_from("No folder selected.\n", Some(9)), "0 chars • 0 tokens • 0 LOC");
}

#[test]
fn bpe_label_skips_large_outputs() {
    let big = "é".repeat(MAX_TOKENIZE_BYTES / 2 + 1);
    let label = bpe_stats_label_from(&big, Some(1));
    assert_eq!(label, format!("{} chars • (token count skipped for large output) • 1 LOC", MAX_TOKENIZE_BYTES / 2 + 1));
}

#[test]
fn bpe_label_counts_tokens_with_the_tokenizer() {
    assert_eq!(bpe_stats_label("hello world"), "11 chars • 2 tokens • 1 LOC");
    assert_eq!(bpe_stats_label(""), "0 chars • 0 tokens • 0 LOC");
}

#[test]
fn output_view_collapses_then_shows_and_counts() {
    let (full, shown, stats) = output_view("a\n\n\n\nb c\n");
    assert_eq!(full, "a\n\nb c\n");
    assert_eq!(shown, full);
    assert_eq!(stats, "7 chars • 3 tokens • 3 LOC");
}
