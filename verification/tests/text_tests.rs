use stitch::strip::strip_lines_and_inline_comments;
use stitch::text::{
    clean_remove_regex, collapse_consecutive_blank_lines, compile_remove_regex_opt,
    parse_extension_filters, repair_mojibake_if_present, split_prefix_list,
};

#[test]
fn test_parse_extension_filters() {
    let (inc, exc) = parse_extension_filters(".rs, .toml, -.lock, -md, js");
    assert!(inc.contains(".rs"));
    assert!(inc.contains(".toml"));
    assert!(inc.contains(".js"));
    assert!(exc.contains(".lock"));
    assert!(exc.contains(".md"));
}

#[test]
fn test_split_prefix_list() {
    assert_eq!(split_prefix_list(" #, // ,--,"), vec!["#", "//", "--"]);
    assert_eq!(split_prefix_list("   ,  ,  "), Vec::<String>::new());
}

#[test]
fn test_clean_and_compile_regex() {
    let raw = "  \"\"\"foo.*?bar\"\"\"  ";
    let cleaned = clean_remove_regex(raw);
    assert_eq!(cleaned, "foo.*?bar");
    let re = compile_remove_regex_opt(Some(&cleaned)).unwrap();
    assert!(re.is_match("zzzfoo\n\nBARbar"));
}

#[test]
fn test_strip_lines_and_inline_comments() {
    let src = "\
    # shebang-like\n\
    let a = 1;  // comment\n\
       // full line comment\n\
    let b = 2;    # another\n\
    let c = 3; #tail
";
    let out = strip_lines_and_inline_comments(src, &["#".into(), "//".into()]);
    let expected = "\
    let a = 1;\n\
    let b = 2;\n\
    let c = 3;\n";
    assert_eq!(out, expected);
}

#[test]
fn test_collapse_consecutive_blank_lines() {
    let s = "a\n\n\nb\n\nc\n";
    let got = collapse_consecutive_blank_lines(s);
    assert_eq!(got, "a\n\nb\n\nc\n");
}

#[test]
fn parse_extension_filters_normalization_and_conflicts() {
    let (inc, exc) = parse_extension_filters(" .RS , md ,  -.TMP , - .Md ");
    assert!(inc.contains(".rs"));
    assert!(inc.contains(".md"));
    assert!(exc.contains(".tmp"));
    assert!(exc.contains(".md"));
}

#[test]
fn compile_remove_regex_opt_invalid_returns_none() {
    let bad = compile_remove_regex_opt(Some("("));
    assert!(bad.is_none());
}

#[test]
fn strip_inline_comments_requires_whitespace_before_prefix() {
    let src = "\
let url = \"http://example.com\"; // ok strip
path=http://x#y  # not-a-comment here
x=1#no-space-prefix
y = 2 # strip me
";
    let out = strip_lines_and_inline_comments(src, &["#".into(), "//".into()]);
    let expected = "\
let url = \"http://example.com\";
path=http://x#y
x=1#no-space-prefix
y = 2
";
    assert_eq!(out, expected);
}

#[test]
fn collapse_blank_lines_preserves_no_trailing_newline() {
    let s = "a\n\n\nb";
    let got = collapse_consecutive_blank_lines(s);
    assert_eq!(got, "a\n\nb");
}

#[test]
fn clean_remove_regex_single_and_triple_single_quotes() {
    assert_eq!(clean_remove_regex("'abc'"), "abc");
    assert_eq!(clean_remove_regex("'''x.*?y'''"), "x.*?y");
}

#[test]
fn compile_remove_regex_opt_multiline_dot_matches_newline() {
    let re = compile_remove_regex_opt(Some("START.*?END")).unwrap();
    let s = "a START\n mid \nEND b";
    let out = re.replace_all(s, "");
    assert_eq!(out, "a  b");
}

#[test]
fn mismatched_or_unquoted_is_identity() {
    assert_eq!(clean_remove_regex("'abc\""), "'abc\"");
    assert_eq!(clean_remove_regex("abc"), "abc");
}

#[test]
fn remove_regex_respects_multiline_line_anchors_single_line_lazy() {
    let re = compile_remove_regex_opt(Some("^X.*?$")).unwrap();
    let s = "A\nX mid\nB\n";
    let out = re.replace_all(s, "").to_string();
    assert_eq!(out, "A\n\nB\n");
}

#[test]
fn remove_regex_dot_matches_newlines_spanning_blocks() {
    let re = compile_remove_regex_opt(Some("START.*END")).unwrap();
    let s = "pre\nSTART\nin between\nEND\npost";
    let out = re.replace_all(s, "").to_string();
    assert_eq!(out, "pre\n\npost");
}

#[test]
fn strip_ignores_empty_prefix_entries() {
    let src = "a = 1 // keep\n# full\nb = 2\n";
    let out = strip_lines_and_inline_comments(src, &[String::new(), "//".into(), "#".into()]);
    assert_eq!(out, "a = 1\nb = 2\n");
}

#[test]
fn compile_remove_regex_opt_none_is_none() {
    assert!(compile_remove_regex_opt(None).is_none());
}

#[test]
fn overlapping_prefixes_earliest_wins() {
    let src = "v   ## cut here (long)\n w    # and here\nx # tail\n";
    let out = strip_lines_and_inline_comments(src, &["##".into(), "#".into()]);
    assert_eq!(out, "v\n w\nx\n");
}

#[test]
fn full_line_comment_removed_after_unmatched_apostrophe() {
    let src = "\
Intro: project's details
-- this should be stripped
x = 1
";
    let out = strip_lines_and_inline_comments(src, &["--".into()]);
    let expected = "\
Intro: project's details
x = 1
";
    assert_eq!(out, expected);
}

#[test]
fn full_line_comment_removed_after_unclosed_double_quote() {
    let src = "\
title: \"Unfinished
-- lean line to strip
ok
";
    let out = strip_lines_and_inline_comments(src, &["--".into()]);
    let expected = "\
title: \"Unfinished
ok
";
    assert_eq!(out, expected);
}

#[test]
fn extension_filters_ignore_empty_and_weird_tokens_and_normalize_case() {
    let (inc, exc) =
        parse_extension_filters(" , ., . , - ,     -. , Rs, -TOML, .JPEG, - .PNG ");
    assert!(inc.contains(".rs"));
    assert!(inc.contains(".jpeg"));
    assert!(exc.contains(".toml"));
    assert!(exc.contains(".png"));
    assert_eq!(inc.len(), 2);
    assert_eq!(exc.len(), 2);
}

#[test]
fn extension_filters_allow_same_ext_in_both_sets_without_crashing() {
    let (inc, exc) = parse_extension_filters(" md , -md ");
    assert!(inc.contains(".md"));
    assert!(exc.contains(".md"));
}

// Scenarios of the properties that the text utilities keep.

#[test]
fn collapse_idempotent() {
    for s in ["a\n\n\n\nb\n \n\t\nc", "\n\n\n", "x", "", "a\r\n\r\n\r\nb\n"] {
        let once = collapse_consecutive_blank_lines(s);
        let twice = collapse_consecutive_blank_lines(&once);
        assert_eq!(once, twice);
        assert!(!twice.contains("\n\n\n"));
    }
}

#[test]
fn strip_with_no_prefixes_is_identity() {
    for s in ["let a = 1; // keep", "plain text", "", "x = \"# not\""] {
        let out = strip_lines_and_inline_comments(s, &Vec::<String>::new());
        assert_eq!(out, s);
    }
}

#[test]
fn extension_filters_shape() {
    let (inc, exc) = parse_extension_filters(" .Rs, -..TOML, ., -, md , -.tar.GZ, ÄB ");
    for e in inc.to_vec().iter().chain(exc.to_vec().iter()) {
        assert!(e.starts_with('.'), "entry must start with a dot: {e}");
        assert!(e.len() >= 2, "entry must not be only a single dot: {e}");
        assert_eq!(e.trim(), e);
        assert_eq!(e, &e.to_lowercase());
    }
}

#[test]
fn repair_mojibake_keeps_text() {
    assert_eq!(repair_mojibake_if_present("naïve ├── x"), "naïve ├── x");
}

#[test]
fn split_prefix_list_trims_and_drops_blanks() {
    assert_eq!(split_prefix_list(""), Vec::<String>::new());
    assert_eq!(split_prefix_list("--,;;"), vec!["--", ";;"]);
}

#[test]
fn strip_prefix_order_and_repeats_do_not_matter() {
    let src = "x = 1 # note\n// gone\n  y = \"a // b\" // tail\n";
    let a = strip_lines_and_inline_comments(src, &["//".to_string(), "#".to_string()]);
    let b = strip_lines_and_inline_comments(src, &["#".to_string(), String::new(), "//".to_string(), "#".to_string()]);
    assert_eq!(a, b);
    assert_eq!(a, "x = 1\n  y = \"a // b\"\n");
}

#[test]
fn collapse_without_cr_is_idempotent() {
    for s in ["a\n\n\n\nb\n", "\n \n\t\n\nx", "x\n\n", "é\n\n\n\n"] {
        let once = collapse_consecutive_blank_lines(s);
        assert_eq!(collapse_consecutive_blank_lines(&once), once);
    }
}
