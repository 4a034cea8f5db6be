use stitch::output::{listed_paths, planned_output};
use stitch::ui_state::OutputPlan;
use stitch::output::{
    assemble_output, build_notes_section, contents_banner, document_head, effective_rust_options,
    file_section, finish_file_contents, is_placeholder_message, output_stats, remove_pattern,
    scrub_file_contents,
};
use stitch::paths::relative_path;
use stitch::rust_filters::RustFilterOptions;
use stitch::text::StringSet;

fn set(items: &[&str]) -> StringSet {
    let mut s = StringSet::new();
    for i in items {
        s.insert(i.to_string());
    }
    s
}

fn opts(inline: bool, doc: bool, sigs: bool) -> RustFilterOptions {
    RustFilterOptions {
        remove_inline_regular_comments: inline,
        remove_doc_comments: doc,
        function_signatures_only: sigs,
    }
}

#[test]
fn placeholders_count_nothing() {
    assert!(is_placeholder_message("No folder selected.\n"));
    assert!(is_placeholder_message("No items selected.\n"));
    assert!(!is_placeholder_message("No items selected."));
    assert_eq!(output_stats("No items selected.\n"), (0, 0));
    assert_eq!(output_stats(""), (0, 0));
    assert_eq!(output_stats("a\nbé\n"), (5, 2));
    assert_eq!(output_stats("a\n\nb"), (4, 3));
}

#[test]
fn file_section_has_markers() {
    assert_eq!(
        file_section("src/a.rs", "fn a();"),
        "--- Start of file: src/a.rs ---\nfn a();\n--- End of file: src/a.rs ---\n\n"
    );
}

#[test]
fn document_head_with_and_without_notes() {
    assert_eq!(document_head("root\n", "  \n"), "=== FILE HIERARCHY ===\n\nroot\n");
    assert_eq!(
        document_head("root\n", "Applied remove-regex"),
        "=== FILE HIERARCHY ===\n\nroot\n\n=== NOTES ===\n\nApplied remove-regex\n"
    );
    assert_eq!(contents_banner(), "\n=== FILE CONTENTS ===\n\n");
}

#[test]
fn signatures_filter_scopes_rust_options() {
    let o = opts(true, false, true);
    let e = effective_rust_options(&o, "src/core/fs.rs", "");
    assert!(e.function_signatures_only && e.remove_inline_regular_comments);
    let e = effective_rust_options(&o, "src/core/fs.rs", "fs.rs");
    assert!(e.function_signatures_only);
    let e = effective_rust_options(&o, "src/main.rs", "fs.rs");
    assert!(!e.function_signatures_only);
    assert!(e.remove_inline_regular_comments);
}

#[test]
fn file_contents_pipeline() {
    let src = "# note\nfn a() { 1 } // x\n";
    let prefixes = vec!["#".to_string()];
    let out = scrub_file_contents(src, &prefixes, None, true, "a.rs", &opts(false, false, true), "");
    assert_eq!(out, "fn a();\n // x\n");
    let out = scrub_file_contents(src, &prefixes, None, false, "a.txt", &opts(false, false, true), "");
    assert_eq!(out, "fn a() { 1 } // x\n");
    let out = scrub_file_contents(src, &[], Some("\\{.*\\}"), false, "a.txt", &opts(false, false, false), "");
    assert_eq!(out, "# note\nfn a()  // x\n");
    assert_eq!(finish_file_contents("x", false, "x", &opts(true, true, true), ""), "x");
}

#[test]
fn notes_list_what_applies() {
    let sel = vec![
        "src/main.rs".to_string(),
        "target/x.RS".to_string(),
        "LICENSE".to_string(),
        "docs/a.md".to_string(),
    ];
    let notes = build_notes_section(
        &set(&["target", "node_modules", "src"]),
        &set(&["LICENSE", "Cargo.lock"]),
        &set(&[".rs", ".toml"]),
        &set(&[".md"]),
        &["#".to_string(), "//".to_string()],
        true,
        true,
        false,
        true,
        "  ",
        &sel,
    );
    assert_eq!(
        notes,
        "Excluded directories: src, target\n\
Excluded files: LICENSE\n\
Included extensions: .rs\n\
Excluded extensions: .md\n\
Removed lines starting with: #, //\n\
Applied remove-regex\n\
Removed Rust inline comments (//, /* */)\n\
Functions bodies omitted (signatures only) for all Rust files"
    );
    let none = build_notes_section(&set(&[]), &set(&[]), &set(&[]), &set(&[]), &[], false, false, false, false, "", &sel);
    assert_eq!(none, "");
    let scoped = build_notes_section(&set(&[]), &set(&[]), &set(&[]), &set(&[]), &[], false, false, true, true, "core/*", &sel);
    assert_eq!(
        scoped,
        "Removed Rust doc comments (///, //!, /** */)\nFunctions bodies omitted (signatures only) for: core/*"
    );
}

#[test]
fn relative_paths_below_root() {
    assert_eq!(relative_path("/p", "/p/src/a.rs").as_deref(), Some("src/a.rs"));
    assert_eq!(relative_path("/p", "/p"), None);
    assert_eq!(relative_path("/p", "/q/a"), None);
    assert_eq!(relative_path("/p/", "/p//src/./b"), Some("src/b".to_string()));
}

#[test]
fn assembled_output_placeholder_when_nothing_selected() {
    let secs = vec![("a.rs".to_string(), "fn a() {}".to_string())];
    assert_eq!(assemble_output(true, "root\n", "", true, &secs), "No items selected.\n");
}

#[test]
fn assembled_output_hierarchy_only_has_no_contents() {
    let secs = vec![("a.rs".to_string(), "x".to_string())];
    let out = assemble_output(false, "root\n└── a.rs\n", "  \n", false, &secs);
    assert_eq!(out, "=== FILE HIERARCHY ===\n\nroot\n└── a.rs\n");
}

#[test]
fn assembled_output_lists_sections_in_order() {
    let secs = vec![("a.rs".to_string(), "A".to_string()), ("b/c.rs".to_string(), "C".to_string())];
    let out = assemble_output(false, "root\n", "- note", true, &secs);
    assert_eq!(
        out,
        "=== FILE HIERARCHY ===\n\nroot\n\n=== NOTES ===\n\n- note\n\n=== FILE CONTENTS ===\n\n\
--- Start of file: a.rs ---\nA\n--- End of file: a.rs ---\n\n\
--- Start of file: b/c.rs ---\nC\n--- End of file: b/c.rs ---\n\n"
    );
}

#[test]
fn removal_pattern_spans_lines_and_ignores_bad_patterns() {
    assert_eq!(remove_pattern(Some("BEGIN.*END\\n"), "a\nBEGIN\nx\nEND\nb\n"), "a\nb\n");
    assert_eq!(remove_pattern(Some("^#.*?$\\n?"), "keep\n# drop\nkeep2\n"), "keep\nkeep2\n");
    assert_eq!(remove_pattern(Some("(unclosed"), "text"), "text");
    assert_eq!(remove_pattern(None, "text"), "text");
}

#[test]
fn planned_output_per_plan() {
    let secs = vec![("a.rs".to_string(), "fn a();".to_string())];
    let tree = "root\n└── a.rs\n";
    assert_eq!(planned_output(OutputPlan::Queue, tree, "", &secs), None);
    assert_eq!(planned_output(OutputPlan::NoFolder, tree, "", &secs).unwrap(), "No folder selected.\n");
    assert_eq!(planned_output(OutputPlan::NothingSelected, tree, "", &secs).unwrap(), "No items selected.\n");
    assert_eq!(
        planned_output(OutputPlan::HeadOnly, tree, "", &secs).unwrap(),
        "=== FILE HIERARCHY ===\n\nroot\n└── a.rs\n"
    );
    assert_eq!(
        planned_output(OutputPlan::ReadContents, tree, "", &secs).unwrap(),
        "=== FILE HIERARCHY ===\n\nroot\n└── a.rs\n\n=== FILE CONTENTS ===\n\n--- Start of file: a.rs ---\nfn a();\n--- End of file: a.rs ---\n\n"
    );
    let files = vec!["/p/a.rs".to_string()];
    let dirs = vec!["/p".to_string(), "/p/src".to_string()];
    assert_eq!(listed_paths(false, &files, &dirs), &files);
    assert_eq!(listed_paths(true, &files, &dirs), &dirs);
}
