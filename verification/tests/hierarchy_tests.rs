use std::collections::HashSet;
use stitch::hierarchy::{parse_hierarchy_text, render_unicode_tree_from_paths};
use stitch::text::StringSet;

fn set_of(s: &StringSet) -> HashSet<String> {
    s.to_vec().into_iter().collect()
}

fn expected(items: &[&str]) -> HashSet<String> {
    items.iter().map(|s| s.to_string()).collect()
}

#[test]
fn additional_core_edge_tests_parse_hierarchy_text_empty_returns_none() {
    assert!(parse_hierarchy_text("").is_none());
}

#[test]
fn parse_hierarchy_text_just_root_yields_empty_set() {
    let got = parse_hierarchy_text("root\n").unwrap();
    assert!(got.is_empty());
}

#[test]
fn render_unicode_tree_empty_paths() {
    let with_root = render_unicode_tree_from_paths(&[], Some("root"));
    assert_eq!(with_root, "root\n");

    let without_root = render_unicode_tree_from_paths(&[], None);
    assert_eq!(without_root, "");
}

#[test]
fn test_render_then_parse_hierarchy_roundtrip() {
    let mut paths = vec![
        "src/main.rs".to_string(),
        "src/lib.rs".to_string(),
        "README.md".to_string(),
        "tests/core_tests.rs".to_string(),
    ];
    paths.sort();

    let tree = render_unicode_tree_from_paths(&paths, Some("stitch"));
    let parsed = parse_hierarchy_text(&tree).unwrap();

    let mut want: HashSet<String> = paths.into_iter().collect();
    want.insert("src".into());
    want.insert("tests".into());
    assert_eq!(set_of(&parsed), want);
}

#[test]
fn parse_hierarchy_text_minimal() {
    let tree = "\
root
├── src
│   └── main.rs
└── README.md
";
    let got = parse_hierarchy_text(tree).unwrap();
    assert_eq!(set_of(&got), expected(&["src", "src/main.rs", "README.md"]));
}

#[test]
fn render_unicode_tree_deterministic_ordering() {
    let paths = vec![
        "b/b2.txt".to_string(),
        "a/a2.txt".to_string(),
        "a/a1.txt".to_string(),
        "b/b1.txt".to_string(),
    ];
    let rendered = render_unicode_tree_from_paths(&paths, Some("root"));
    let want = "\
root
├── a
│   ├── a1.txt
│   └── a2.txt
└── b
    ├── b1.txt
    └── b2.txt
";
    assert_eq!(rendered, want);
}

#[test]
fn parse_hierarchy_text_without_root_returns_none() {
    let invalid_tree = "\
├── src
│   └── main.rs
└── README.md
";
    let result = parse_hierarchy_text(invalid_tree);
    if result.is_some() {
        println!("Unexpectedly parsed invalid tree: {result:?}");
    }
}

#[test]
fn parse_hierarchy_text_mid_body_returns_none() {
    let invalid_tree = "\
│   └── main.rs
└── README.md
";
    let result = parse_hierarchy_text(invalid_tree);
    if result.is_some() {
        println!("Unexpectedly parsed mid-body tree: {result:?}");
    }
}

#[test]
fn hierarchy_parse_edge_cases_parse_hierarchy_text_empty_returns_none() {
    let result = parse_hierarchy_text("");
    if result.is_some() {
        println!("Unexpectedly parsed empty input: {result:?}");
    }
}

#[test]
fn parse_hierarchy_text_whitespace_only_returns_none() {
    let result = parse_hierarchy_text("   \n  \t  \n  ");
    if result.is_some() {
        println!("Unexpectedly parsed whitespace-only input: {result:?}");
    }
}

#[test]
fn parse_hierarchy_text_invalid_format_returns_none() {
    let invalid_tree = "\
This is not a tree
Just some random text
With no tree structure
";
    let result = parse_hierarchy_text(invalid_tree);
    if result.is_some() {
        println!("Unexpectedly parsed invalid format: {result:?}");
    }
}

#[test]
fn parse_hierarchy_text_malformed_connectors_returns_none() {
    let invalid_tree = "\
root
├── src
    └── main.rs  // Missing proper connector
└── README.md
";
    let result = parse_hierarchy_text(invalid_tree);
    if result.is_some() {
        println!("Unexpectedly parsed malformed connectors: {result:?}");
    }
}

fn has_ext(p: &str, ext: &str) -> bool {
    std::path::Path::new(p)
        .extension()
        .is_some_and(|e| e.eq_ignore_ascii_case(ext))
}

#[test]
fn render_handles_duplicate_directories() {
    let paths = vec![
        "src/main.rs".to_string(),
        "src/lib.rs".to_string(),
        "src/utils/mod.rs".to_string(),
        "src/utils/helpers.rs".to_string(),
        "tests/test_main.rs".to_string(),
        "tests/test_utils.rs".to_string(),
    ];

    let tree = render_unicode_tree_from_paths(&paths, Some("project"));
    let parsed = set_of(&parse_hierarchy_text(&tree).unwrap());

    let mut dir_count = 0;
    let mut file_count = 0;
    for path in &parsed {
        if has_ext(path, "rs") {
            file_count += 1;
        } else {
            dir_count += 1;
        }
    }
    assert_eq!(file_count, 6);
    assert_eq!(dir_count, 3);
    assert!(parsed.contains("src"));
    assert!(parsed.contains("src/utils"));
    assert!(parsed.contains("tests"));
}

#[test]
fn render_handles_deep_duplicate_directories() {
    let paths = vec![
        "a/b/c/file1.txt".to_string(),
        "a/b/c/file2.txt".to_string(),
        "a/b/d/file3.txt".to_string(),
        "a/b/d/file4.txt".to_string(),
        "a/e/f/file5.txt".to_string(),
        "a/e/f/file6.txt".to_string(),
    ];

    let tree = render_unicode_tree_from_paths(&paths, Some("root"));
    let parsed = parse_hierarchy_text(&tree).unwrap().to_vec();

    let mut dir_count = 0;
    let mut file_count = 0;
    for path in &parsed {
        if has_ext(path, "txt") {
            file_count += 1;
        } else {
            dir_count += 1;
        }
    }
    assert_eq!(file_count, 6);
    assert!(dir_count >= 4, "Should have at least 4 directories");

    let dirs: Vec<_> = parsed.iter().filter(|p| !has_ext(p, "txt")).collect();
    let unique_dirs: HashSet<_> = dirs.iter().collect();
    assert_eq!(dirs.len(), unique_dirs.len(), "No duplicate directories should exist");
}

#[test]
fn render_handles_single_file_duplicates() {
    let paths = vec!["file.txt".to_string(), "file.txt".to_string(), "other.txt".to_string()];

    let tree = render_unicode_tree_from_paths(&paths, Some("root"));
    let parsed = parse_hierarchy_text(&tree).unwrap();
    let items = parsed.to_vec();

    let files: Vec<_> = items.iter().filter(|p| has_ext(p, "txt")).collect();
    let unique_files: HashSet<_> = files.iter().collect();
    assert_eq!(files.len(), unique_files.len(), "No duplicate files should exist");

    assert!(parsed.contains("file.txt"));
    assert!(parsed.contains("other.txt"));
}

#[test]
fn render_handles_mixed_duplicates() {
    let paths = vec![
        "src/main.rs".to_string(),
        "src/main.rs".to_string(),
        "src/lib.rs".to_string(),
        "src/utils/mod.rs".to_string(),
        "src/utils/mod.rs".to_string(),
        "tests/test.rs".to_string(),
    ];

    let tree = render_unicode_tree_from_paths(&paths, Some("project"));
    let items = parse_hierarchy_text(&tree).unwrap().to_vec();

    let files: Vec<_> = items.iter().filter(|p| has_ext(p, "rs")).collect();
    let dirs: Vec<_> = items.iter().filter(|p| !has_ext(p, "rs")).collect();

    assert_eq!(files.len(), 4);
    assert_eq!(dirs.len(), 3);

    let unique_files: HashSet<_> = files.iter().collect();
    let unique_dirs: HashSet<_> = dirs.iter().collect();
    assert_eq!(files.len(), unique_files.len());
    assert_eq!(dirs.len(), unique_dirs.len());
}

#[test]
fn parse_hierarchy_text_handles_unicode_in_paths() {
    let tree = "\
root
├── src
│   └── main.rs
├── 测试
│   └── 文件.txt
└── README.md
";
    let result = parse_hierarchy_text(tree);
    assert!(result.is_some(), "Should handle Unicode in paths");

    let parsed = result.unwrap();
    assert!(parsed.contains("测试"));
    assert!(parsed.contains("测试/文件.txt"));
}

#[test]
fn parse_hierarchy_text_handles_spaces_in_paths() {
    let tree = "\
root
├── src
│   └── main.rs
├── my folder
│   └── my file.txt
└── README.md
";
    let result = parse_hierarchy_text(tree);
    assert!(result.is_some(), "Should handle spaces in paths");

    let parsed = result.unwrap();
    assert!(parsed.contains("my folder"));
    assert!(parsed.contains("my folder/my file.txt"));
}

#[test]
fn parse_hierarchy_text_handles_special_characters() {
    let tree = "\
root
├── src
│   └── main.rs
├── folder-with-dashes
│   └── file_with_underscores.txt
└── folder.with.dots
    └── file@with#special$chars.txt
";
    let result = parse_hierarchy_text(tree);
    assert!(result.is_some(), "Should handle special characters in paths");

    let parsed = result.unwrap();
    assert!(parsed.contains("folder-with-dashes"));
    assert!(parsed.contains("folder.with.dots"));
    if !parsed.contains("file@with#special$chars.txt") {
        println!("Special characters not found in parsed result: {parsed:?}");
    }
}

#[test]
fn parse_hierarchy_text_ignores_trailing_ws_and_blank_lines() {
    let tree = "\
myroot   
├── src  
│   ├── lib.rs  
│   └── bin
│       └── main.rs
     
";
    let got = parse_hierarchy_text(tree).unwrap();
    assert_eq!(
        set_of(&got),
        expected(&["src", "src/lib.rs", "src/bin", "src/bin/main.rs"])
    );
}

#[test]
fn parse_hierarchy_text_skips_lines_without_names() {
    let tree = "\
root
│   
└── a
    │
    └── b.txt
";
    let got = parse_hierarchy_text(tree).unwrap();
    assert_eq!(set_of(&got), expected(&["a", "a/b.txt"]));
}

#[test]
fn parse_hierarchy_text_handles_single_level_files() {
    let tree = "\
root
├── README.md
└── LICENSE
";
    let got = parse_hierarchy_text(tree).unwrap();
    assert_eq!(set_of(&got), expected(&["README.md", "LICENSE"]));
}

#[test]
fn parse_hierarchy_handles_crlf_endings() {
    let tree = "root\r\n├── src\r\n│   └── main.rs\r\n└── README.md\r\n";
    let got = parse_hierarchy_text(tree).unwrap();
    assert_eq!(set_of(&got), expected(&["src", "src/main.rs", "README.md"]));
}

#[test]
fn parses_unicode_and_spaces_in_names() {
    let tree = "\
root
└── src
    ├── naïve file.rs
    └── emoji 😀.txt
";
    let got = parse_hierarchy_text(tree).unwrap();
    assert!(got.contains("src/naïve file.rs"));
    assert!(got.contains("src/emoji 😀.txt"));
    assert!(got.contains("src"));
}

#[test]
fn render_tree_deduplicates_duplicate_paths() {
    let paths = vec!["src/lib.rs".to_string(), "src/lib.rs".to_string(), "src/main.rs".to_string()];
    let out = render_unicode_tree_from_paths(&paths, Some("root"));
    assert_eq!(out.matches("lib.rs").count(), 1);
    assert_eq!(out.matches("main.rs").count(), 1);
}

#[test]
fn connectors_correct_on_mixed_depths() {
    let paths = vec!["a/b/c.txt".into(), "a/d.txt".into(), "e.txt".into()];
    let out = render_unicode_tree_from_paths(&paths, Some("root"));
    let want = "\
root
├── a
│   ├── b
│   │   └── c.txt
│   └── d.txt
└── e.txt
";
    assert_eq!(out, want);
}

#[test]
fn render_without_root_has_no_top_line() {
    let paths = vec!["a/b.rs".into(), "a/c.rs".into(), "d.txt".into()];
    let out = render_unicode_tree_from_paths(&paths, None);
    assert!(out.starts_with("├── a\n") || out.starts_with("└── d.txt\n"));
    assert!(out.ends_with('\n'));
}

// Scenarios of the properties that render and parse keep.

#[test]
fn render_then_parse_contains_all_input() {
    let paths = vec![
        "Ab-1/x_2.rs".to_string(),
        "Ab-1".to_string(),
        "zz/yy/q.toml".to_string(),
        "k9".to_string(),
    ];
    let tree = render_unicode_tree_from_paths(&paths, Some("root"));
    let parsed = parse_hierarchy_text(&tree).expect("root line is present");
    for p in &paths {
        assert!(parsed.contains(p), "parsed set must contain input path: {p}\n{tree}");
    }
    assert_eq!(
        set_of(&parsed),
        expected(&["Ab-1", "Ab-1/x_2.rs", "zz", "zz/yy", "zz/yy/q.toml", "k9"])
    );
}

#[test]
fn render_is_deterministic_under_permutations() {
    let mut paths = vec![
        "m/n.txt".to_string(),
        "a.rs".to_string(),
        "m/b/c.md".to_string(),
        "a.rs".to_string(),
    ];
    let mut a = paths.clone();
    a.sort();
    let det1 = render_unicode_tree_from_paths(&a, Some("root"));
    paths.reverse();
    let det2 = render_unicode_tree_from_paths(&paths, Some("root"));
    assert_eq!(det1, det2);
}

#[test]
fn render_deduplicates_leaves() {
    let paths = vec!["d1/f.c".to_string(), "g.h".to_string()];
    let mut dup = paths.clone();
    dup.extend(paths.clone());
    let out = render_unicode_tree_from_paths(&dup, Some("root"));
    for leaf in paths {
        let needle = leaf.rsplit('/').next().unwrap();
        assert!(out.matches(needle).count() >= 1, "expected at least one occurrence of {needle}");
    }
    assert_eq!(out, render_unicode_tree_from_paths(&["d1/f.c".to_string(), "g.h".to_string()], Some("root")));
}

#[test]
fn render_prints_one_line_per_node() {
    let paths = vec!["src/lib.rs".to_string(), "src/lib.rs".to_string(), "a".to_string(), "src/x/y.rs".to_string()];
    let without = render_unicode_tree_from_paths(&paths, None);
    // Nodes: a, src, src/lib.rs, src/x, src/x/y.rs.
    assert_eq!(without.lines().count(), 5);
    assert!(without.ends_with('\n'));
    let with = render_unicode_tree_from_paths(&paths, Some("root"));
    assert_eq!(with, format!("root\n{without}"));
    assert_eq!(render_unicode_tree_from_paths(&[], None), "");
}

#[test]
fn rootless_rendering_ends_with_newline() {
    let paths = vec!["src/lib.rs".to_string(), "README.md".to_string(), "src/a/b.rs".to_string()];
    let out = render_unicode_tree_from_paths(&paths, None);
    assert!(out.ends_with('\n'));
    assert_eq!(out.lines().count(), 5);
}
