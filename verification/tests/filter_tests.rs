use stitch::rust_comments::remove_comments_textual;
use stitch::rust_filters::{
    apply_rust_filters, is_rust_file_path, signatures_filter_matches, trim_leading_blank_lines,
    RustFilterOptions,
};
use stitch::rust_signatures::transform_functions_to_signatures;
use stitch::slint_filters::{apply_slint_filters, is_slint_file_path, SlintFilterOptions};
use stitch::wildcard::wildcard_match;

fn sig_only() -> RustFilterOptions {
    RustFilterOptions {
        remove_inline_regular_comments: false,
        remove_doc_comments: false,
        function_signatures_only: true,
    }
}

#[test]
fn rust_path_detection_is_case_sensitive() {
    assert!(!is_rust_file_path("src/lib.RS"));
    assert!(is_rust_file_path("src/lib.rs"));
    assert!(!is_rust_file_path("src/lib.Rs"));
}

#[test]
fn rust_long_where_clauses_across_lines() {
    let src = r#"
fn complex_function<T, U, V>()
where
    T: Clone + Send + Sync,
    U: Iterator<Item = T>,
    V: FnOnce(T) -> Result<U, String>,
{
    // function body
    println!("hello");
}
"#;
    let got = apply_rust_filters(src, &sig_only());
    assert!(got.contains("where"));
    assert!(got.contains("T: Clone + Send + Sync"));
    assert!(!got.contains("println!"));
}

#[test]
fn rust_attributes_on_functions() {
    let src = r"
#[derive(Debug, Clone)]
#[allow(dead_code)]
pub fn attributed_function() -> i32 {
    // function body
    42
}
";
    let got = apply_rust_filters(src, &sig_only());
    assert!(got.contains("#[derive(Debug, Clone)]"));
    assert!(got.contains("#[allow(dead_code)]"));
    assert!(got.contains("pub fn attributed_function() -> i32"));
    assert!(!got.contains("42"));
}

#[test]
fn rust_generics_with_lifetimes_and_bounds() {
    let src = r"
fn lifetime_generic<'a, 'b, T>(x: &'a T, y: &'b T) -> &'a T
where
    T: Clone + 'static,
    'b: 'a,
{
    // function body
    x.clone()
}
";
    let got = apply_rust_filters(src, &sig_only());
    assert!(got.contains("fn lifetime_generic<'a, 'b, T>"));
    assert!(got.contains("where"));
    assert!(got.contains("T: Clone + 'static"));
    assert!(got.contains("'b: 'a"));
    assert!(!got.contains("x.clone()"));
}

#[test]
fn rust_macros_in_bodies_signatures_only() {
    let src = r#"
fn macro_function() {
    println!("Hello, world!");
    dbg!(42);
    vec![1, 2, 3];
}
"#;
    let got = apply_rust_filters(src, &sig_only());
    assert!(got.contains("fn macro_function()"));
    assert!(!got.contains("println!"));
    assert!(!got.contains("dbg!"));
    assert!(!got.contains("vec!"));
}

#[test]
fn slint_block_comments_no_nesting() {
    let src = r"
slint
/* outer block
   /* inner block */
   more outer */
Text {}
";
    let opts = SlintFilterOptions { remove_line_comments: false, remove_block_comments: true };
    let got = apply_slint_filters(src, &opts);
    assert_eq!(got, "\nslint\n   more outer */\nText {}\n");
}

#[test]
fn slint_multiline_block_and_inline_mix() {
    let src = r#"
slint
/* multi
   line
   block */ Text { text: "hello" } // inline comment
Text {}
"#;
    let opts = SlintFilterOptions { remove_line_comments: true, remove_block_comments: true };
    let got = apply_slint_filters(src, &opts);
    assert_eq!(got, "\nslint\n Text { text: \"hello\" } \nText {}\n");
}

#[test]
fn slint_complex_string_escaping() {
    let src = r#"
Text { text: "quoted \"string\" with // not comment" }
Text { text: 'single \'quote\' with /* not comment */' }
"#;
    let opts = SlintFilterOptions { remove_line_comments: true, remove_block_comments: true };
    let got = apply_slint_filters(src, &opts);
    assert_eq!(got, src);
}

// Further scenarios of the filters.

#[test]
fn rust_filters_off_returns_input() {
    let src = "fn a() { 1 } // c\n";
    assert_eq!(apply_rust_filters(src, &RustFilterOptions::default()), src);
}

#[test]
fn rust_comment_removal_inline_and_doc() {
    let src = "/// doc\nfn a() {} // tail\n/* block */\nlet s = \"// kept\";\n//! inner doc\n";
    assert_eq!(remove_comments_textual(src, true, false), "/// doc\nfn a() {}\nlet s = \"// kept\";\n//! inner doc\n");
    assert_eq!(remove_comments_textual(src, false, true), "\nfn a() {} // tail\n/* block */\nlet s = \"// kept\";\n\n");
    assert_eq!(remove_comments_textual(src, true, true), "\nfn a() {}\nlet s = \"// kept\";\n\n");
}

#[test]
fn rust_comment_removal_nested_block_and_raw_string() {
    let src = "a /* x /* y */ z */ b\nlet r = r#\"/* not */\"#;\n";
    assert_eq!(remove_comments_textual(src, true, false), "a  b\nlet r = r#\"/* not */\"#;\n");
}

#[test]
fn rust_comment_removal_keeps_characters_unchanged() {
    let out = remove_comments_textual("é", false, false);
    assert_eq!(out, "é");
}

#[test]
fn rust_signatures_only_reduces_bodies() {
    let src = "fn a(x: u8) -> u8 {\n    x + 1\n}\n\nstruct S;\nimpl S {\n    pub fn b(&self) { let s = \"}\"; }\n}\n";
    let out = transform_functions_to_signatures(src);
    assert_eq!(out, "fn a(x: u8) -> u8;\n\n\nstruct S;\nimpl S {\n    pub fn b(&self);\n\n}\n");
    let filtered = apply_rust_filters(src, &sig_only());
    assert_eq!(filtered, "fn a(x: u8) -> u8;\n\nstruct S;\nimpl S {\n    pub fn b(&self);\n\n}\n");
}

#[test]
fn rust_signatures_keep_trait_declarations() {
    let src = "trait T {\n    fn f(&self);\n    fn g(&self) { 1 }\n}\n";
    let out = transform_functions_to_signatures(src);
    assert_eq!(out, "trait T {\n    fn f(&self);\n    fn g(&self);\n\n}\n");
}

#[test]
fn trim_leading_blank_lines_drops_only_leading_blanks() {
    assert_eq!(trim_leading_blank_lines("\n  \n\t\nx\n\ny"), "x\n\ny");
    assert_eq!(trim_leading_blank_lines("   \n  "), "");
    assert_eq!(trim_leading_blank_lines("a"), "a");
}

#[test]
fn slint_path_detection() {
    assert!(is_slint_file_path("ui/app.slint"));
    assert!(!is_slint_file_path("ui/app.SLINT"));
    assert!(!is_slint_file_path("slint"));
}

#[test]
fn signatures_filter_by_basename_and_path() {
    assert!(signatures_filter_matches("src/core/fs.rs", "*.rs"));
    assert!(signatures_filter_matches("src/core/fs.rs", " x.txt , fs.*"));
    assert!(signatures_filter_matches("src/core/fs.rs", "src/*/fs.rs"));
    assert!(!signatures_filter_matches("src/core/fs.rs", "core/*"));
    assert!(signatures_filter_matches("src/core/fs.rs", "*core/*"));
    assert!(!signatures_filter_matches("src/core/fs.rs", ""));
    assert!(!signatures_filter_matches("src/core/fs.rs", " , "));
    assert!(!signatures_filter_matches("src/core/fs.rs", "FS.RS"));
}

#[test]
fn wildcard_matching() {
    assert!(wildcard_match(b"*", b""));
    assert!(wildcard_match(b"a*c", b"abbbc"));
    assert!(!wildcard_match(b"a*c", b"abbb"));
    assert!(wildcard_match(b"*a*b*", b"xxaybz"));
    assert!(!wildcard_match(b"", b"x"));
    // A `*` in the text is an ordinary byte that a pattern `*` can take.
    assert!(wildcard_match(b"*a", b"*ba"));
    assert!(wildcard_match(b"a*b", b"a*xb"));
    assert!(wildcard_match(b"*a", b"xba"));
}

#[test]
fn signatures_filter_is_glob_matching() {
    assert!(signatures_filter_matches("src/core/mod.rs", "*.rs"));
    assert!(!signatures_filter_matches("src/core/mod.rs", "core/*.rs"));
    assert!(signatures_filter_matches("src/a*xb.rs", "a*b.rs"));
    assert!(signatures_filter_matches("src/core/mod.rs", "src/*rs"));
}

#[test]
fn comment_removal_keeps_non_ascii_text() {
    let opts = RustFilterOptions { remove_inline_regular_comments: true, remove_doc_comments: false, function_signatures_only: false };
    assert_eq!(apply_rust_filters("let s = \"é\"; // note\n", &opts), "let s = \"é\";\n");
    assert_eq!(remove_comments_textual("/* ü */ let ä = 'ß'; // ✓\n", true, true), " let ä = 'ß';\n");
}

#[test]
fn slint_block_comment_alone_on_line_drops_next_newline_even_after_text() {
    let opts = SlintFilterOptions { remove_line_comments: false, remove_block_comments: true };
    assert_eq!(apply_slint_filters("/* c */ x\ny", &opts), " xy");
    assert_eq!(apply_slint_filters("a /* c */ x\ny", &opts), "a  x\ny");
}
