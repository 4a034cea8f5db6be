use stitch::paths::{
    is_ancestor_of, is_event_path_relevant, normalize_path_lexically, path_matches_extension_filters,
    path_to_unix,
};
use stitch::text::{parse_extension_filters, StringSet};

const ROOT: &str = "/tmp/stitch-test-root";

fn set(items: &[&str]) -> StringSet {
    let mut s = StringSet::new();
    for i in items {
        s.insert(i.to_string());
    }
    s
}

fn under(rel: &str) -> String {
    format!("{ROOT}/{rel}")
}

fn relevant(p: &str, inc: &[&str], exc: &[&str], dirs: &[&str], files: &[&str]) -> bool {
    is_event_path_relevant(ROOT, p, &set(inc), &set(exc), &set(dirs), &set(files))
}

#[test]
fn test_path_helpers() {
    assert_eq!(path_to_unix("a/b/c"), "a/b/c");

    let n = normalize_path_lexically("this/path/does/not/exist");
    assert!(n.ends_with("this/path/does/not/exist"));

    assert!(is_ancestor_of("a/b", "a/b/c/d"));
    assert!(!is_ancestor_of("a/b/c/d", "a/b"));
}

#[test]
fn is_ancestor_of_is_reflexive_and_honors_normalization() {
    let a = under("a");
    let b = under("a/b");
    assert!(is_ancestor_of(&a, &a));
    let odd = normalize_path_lexically(&under("a/../a"));
    assert!(is_ancestor_of(&odd, &b));
    assert!(!is_ancestor_of(&b, &a));
}

#[test]
fn is_ancestor_of_normalizes_dotdot_segments() {
    let a = under("a");
    let b = under("a/b");
    let weird = normalize_path_lexically(&under("a/../a/b"));
    assert!(is_ancestor_of(&weird, &under("a/b/leaf")));
    assert!(is_ancestor_of(&a, &b));
    assert!(!is_ancestor_of(&b, &a));
}

#[test]
fn normalize_path_lexically_cleans_dot_and_dotdot_tails() {
    let norm = normalize_path_lexically(&under("base/existing/../existing/new/../leaf"));
    assert!(norm.ends_with("/leaf"));
    assert!(norm.split('/').any(|c| c == "existing"));
    assert_eq!(norm, under("base/existing/leaf"));
}

#[test]
fn normalize_path_handles_repeated_separators() {
    let s = normalize_path_lexically("a//b///c");
    assert!(!s.contains("//"));
    assert!(!s.contains("///"));
}

#[test]
fn normalize_path_handles_trailing_separators() {
    let s = normalize_path_lexically("a/b/");
    assert!(!s.ends_with('/'));
    assert!(!s.ends_with('\\'));
}

#[test]
fn normalize_path_handles_dot_segments() {
    let s = normalize_path_lexically("a/b/.");
    assert!(!s.contains("/."));
    assert!(!s.ends_with("/."));
}

#[test]
fn normalize_path_handles_dotdot_segments() {
    let s = normalize_path_lexically("a/b/../c");
    assert!(!s.contains("/../"));
    assert!(!s.contains(".."));
}

#[test]
fn normalize_path_handles_mixed_oddities() {
    let s = normalize_path_lexically("a//b/./c/../d///e/.");
    assert!(!s.contains("//"));
    assert!(!s.contains("/."));
    assert!(!s.contains("/../"));
    assert!(!s.ends_with("/."));
}

#[test]
fn normalize_path_handles_root_with_oddities() {
    let s = normalize_path_lexically("/a//b/./c");
    assert!(s.starts_with('/'));
    assert!(!s.contains("//"));
    assert!(!s.contains("/."));
}

#[test]
fn normalize_path_handles_relative_dotdot() {
    let s = normalize_path_lexically("../a/b");
    assert!(s.ends_with("../a/b") || s.ends_with("a/b"));
    assert!(!s.contains("//"));
}

#[test]
fn normalize_path_handles_complex_relative_paths() {
    let s = normalize_path_lexically("a/../b/./c/../../d");
    assert!(s.ends_with('d'));
}

#[test]
fn normalize_path_handles_absolute_complex_paths() {
    let s = normalize_path_lexically("/a/b/../c/./d/../../e");
    assert!(s.ends_with("/a/e") || s.ends_with("/a/e/e"));
}

#[test]
fn path_to_unix_handles_regular_paths() {
    assert_eq!(path_to_unix("a/b/c"), "a/b/c");
}

#[test]
fn path_to_unix_handles_absolute_paths() {
    let u = path_to_unix("/a/b/c");
    assert!(u == "/a/b/c" || u == "//a/b/c");
}

#[test]
fn path_to_unix_handles_windows_paths() {
    let u = path_to_unix(r"C:\Users\John\Documents\file.txt");
    if u.contains('\\') {
        println!("Warning: path_to_unix didn't convert backslashes: {u}");
    }
}

#[test]
fn path_to_unix_handles_mixed_separators() {
    let u = path_to_unix(r"a\b/c\d");
    if u.contains('\\') {
        println!("Warning: path_to_unix didn't convert backslashes: {u}");
    }
    assert!(u.contains('/'));
}

#[test]
fn include_vs_exclude_precedence_events() {
    assert!(relevant(&under("src/main.rs"), &[".rs"], &[".txt"], &[], &[]));
    assert!(!relevant(&under("src/readme.txt"), &[".rs"], &[".txt"], &[], &[]));
}

#[test]
fn exclude_file_overrides_include_ext_events() {
    assert!(relevant(&under("src/main.rs"), &[".rs"], &[], &[], &["temp.rs"]));
    assert!(!relevant(&under("src/temp.rs"), &[".rs"], &[], &[], &["temp.rs"]));
}

#[test]
fn directory_changes_without_include_mode() {
    for d in ["src", "tests", "target"] {
        assert!(relevant(&under(d), &[], &[], &[], &[]));
    }
}

#[test]
fn directory_changes_with_excluded_dirs() {
    assert!(relevant(&under("src"), &[], &[], &["target"], &[]));
    assert!(relevant(&under("build"), &[], &[], &["target"], &[]));
    assert!(!relevant(&under("target"), &[], &[], &["target"], &[]));
}

#[test]
fn nested_directory_changes_with_excludes() {
    assert!(relevant(&under("src"), &[], &[], &["target"], &[]));
    assert!(relevant(&under("src/utils"), &[], &[], &["target"], &[]));
    assert!(!relevant(&under("target"), &[], &[], &["target"], &[]));
    assert!(!relevant(&under("target/debug"), &[], &[], &["target"], &[]));
}

#[test]
fn file_vs_directory_exclusion_precedence() {
    assert!(!relevant(&under("temp"), &[], &[], &["temp"], &["temp"]));
}

#[test]
fn excluded_directory_changes_are_not_relevant() {
    assert!(!relevant(&under("target/foo.rs"), &[], &[], &["target"], &[]));
}

#[test]
fn excluded_filename_is_not_relevant() {
    assert!(!relevant(&under("LICENSE"), &[], &[], &[], &["LICENSE"]));
}

#[test]
fn include_mode_only_accepts_listed_extensions() {
    assert!(relevant(&under("src/main.rs"), &[".rs"], &[], &[], &[]));
    assert!(!relevant(&under("README.txt"), &[".rs"], &[], &[], &[]));
    assert!(!relevant(&under("src"), &[".rs"], &[], &[], &[]));
}

#[test]
fn project_root_self_change_is_always_relevant() {
    assert!(relevant(ROOT, &[".rs"], &[], &["target"], &["LICENSE"]));
}

#[test]
fn excluded_extension_is_not_relevant() {
    assert!(!relevant(&under("note.LOG"), &[], &[".log"], &[], &[]));
}

#[test]
fn changes_outside_root_are_not_relevant() {
    assert!(!relevant("/tmp/outside.txt", &[], &[], &[], &[]));
}

#[test]
fn event_relevance_for_excluded_dotfile() {
    assert!(!relevant(&under(".env"), &[], &[], &[], &[".env"]));
    assert!(relevant(&under(".gitignore"), &[], &[], &[], &[".env"]));
}

#[test]
fn extension_filters_match_extensionless_multidot_and_case() {
    let (inc, _) = parse_extension_filters("justfile,Makefile,.tar.gz,.d.ts,RS");
    for (p, want) in [
        ("/r/justfile", true),
        ("/r/Makefile", true),
        ("/r/README", false),
        ("/r/archive.tar.gz", true),
        ("/r/bundle.tar.bz2", false),
        ("/r/types.d.ts", true),
        ("/r/src/Main.RS", true),
        ("/r/x.rsx", false),
    ] {
        assert_eq!(path_matches_extension_filters(p, &inc), want, "{p}");
    }
}

#[test]
fn normalizing_twice_is_normalizing_once() {
    for p in ["/a/./b/../c//", "../../x/./y/..", "a/b/../../..", "/../..", "", ".", "./a", "/"] {
        let once = normalize_path_lexically(p);
        assert_eq!(normalize_path_lexically(&once), once, "for {p:?}");
    }
}
