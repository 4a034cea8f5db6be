//! Rust-specific filters for file contents: comment removal, reduction to function
//! signatures, and the path filter that selects which files are reduced.
use crate::chars::{chars_of, split_chars, split_on, string_of, trim, trim_range, lemma_split_on_nonempty};
use crate::paths::{extension_spec, path_extension};
use crate::rust_comments::{comments_removed, remove_comments_textual};
use crate::rust_signatures::{signatures_only, transform_functions_to_signatures};
use crate::slint_filters::{lemma_next_newline_bounds, next_newline};
use crate::text::{collapse_blank_lines_spec, collapse_consecutive_blank_lines};
use crate::wildcard::{glob_match, wildcard_match};
use vstd::prelude::*;

verus! {

/// Which Rust filters to apply.
#[derive(Debug, Clone, Copy)]
pub struct RustFilterOptions {
    pub remove_inline_regular_comments: bool,
    pub remove_doc_comments: bool,
    pub function_signatures_only: bool,
}

impl Default for RustFilterOptions {
    fn default() -> (res: Self)
        ensures
            !res.remove_inline_regular_comments,
            !res.remove_doc_comments,
            !res.function_signatures_only,
    {
        RustFilterOptions {
            remove_inline_regular_comments: false,
            remove_doc_comments: false,
            function_signatures_only: false,
        }
    }
}

/// Whether a path's extension is exactly `rs` (case-sensitive).
pub open spec fn is_rust_path_spec(path: Seq<char>) -> bool {
    extension_spec(path) == Some(seq!['r', 's'])
}

/// Whether the path names a Rust source: its extension is exactly `rs`.
pub fn is_rust_file_path(path: &str) -> (b: bool)
    ensures
        b == is_rust_path_spec(path@),
{
    match path_extension(path) {
        Some(e) => {
            let want = vec!['r', 's'];
            assert(want@ =~= seq!['r', 's']);
            crate::chars::chars_eq(&e, &want)
        },
        None => false,
    }
}

/// Whether the text parses as a file of Rust items.
pub uninterp spec fn parses_as_rust_file(source: Seq<char>) -> bool;

/// Calls `syn::parse_file`: whether `source` parses as a Rust source file (a leading
/// byte-order mark and a shebang line set aside). What it accepts is the Rust grammar as
/// syn implements it; the contract names that result and states no more of it.
#[verifier::external_body]
fn parse_rust_file(source: &str) -> (ok: bool)
    ensures
        ok == parses_as_rust_file(source@),
{
    syn::parse_file(source).is_ok()
}

/// The index where the text starts once the blank lines from `start` on are dropped.
pub open spec fn first_nonblank_line(s: Seq<char>, start: int) -> int
    decreases s.len() - start,
{
    if start < 0 || start >= s.len() {
        start
    } else {
        let end = next_newline(s, start);
        proof {
            lemma_next_newline_bounds(s, start);
        }
        if trim(s.subrange(start, end)).len() == 0 {
            first_nonblank_line(s, if end < s.len() { end + 1 } else { end })
        } else {
            start
        }
    }
}

/// `s` without its leading blank lines.
pub open spec fn leading_blank_lines_trimmed(s: Seq<char>) -> Seq<char> {
    s.subrange(first_nonblank_line(s, 0), s.len() as int)
}

proof fn lemma_first_nonblank_line_bounds(s: Seq<char>, start: int)
    requires
        0 <= start <= s.len(),
    ensures
        start <= first_nonblank_line(s, start) <= s.len(),
    decreases s.len() - start,
{
    if start < s.len() {
        lemma_next_newline_bounds(s, start);
        let end = next_newline(s, start);
        if trim(s.subrange(start, end)).len() == 0 {
            lemma_first_nonblank_line_bounds(s, if end < s.len() { end + 1 } else { end });
        }
    }
}

/// Drops the blank lines (lines of whitespace only) at the start of `s`.
pub fn trim_leading_blank_lines(s: &str) -> (res: String)
    ensures
        res@ == leading_blank_lines_trimmed(s@),
{
    let cs = chars_of(s);
    let n = cs.len();
    let mut start: usize = 0;
    while start < n
        invariant
            start <= n,
            n == cs@.len(),
            cs@ == s@,
            first_nonblank_line(cs@, start as int) == first_nonblank_line(cs@, 0),
        ensures
            start <= n,
            first_nonblank_line(cs@, 0) == start,
        decreases n - start,
    {
        let mut end = start;
        while end < n && cs[end] != '\n'
            invariant
                start <= end <= n,
                n == cs@.len(),
                next_newline(cs@, end as int) == next_newline(cs@, start as int),
            decreases n - end,
        {
            end = end + 1;
        }
        let t = trim_range(&cs, start, end);
        if t.len() == 0 {
            start = if end < n { end + 1 } else { end };
        } else {
            break;
        }
    }
    let tail = crate::chars::slice_to_vec(&cs, start, n);
    string_of(&tail)
}

/// The result of the Rust filters on `source`: unchanged when no filter is on; otherwise
/// the comments chosen are removed, function bodies are dropped when signatures only are
/// wanted, runs of blank lines are collapsed, and leading blank lines are dropped.
pub open spec fn rust_filters_spec(source: Seq<char>, opts: RustFilterOptions) -> Seq<char> {
    let ri = opts.remove_inline_regular_comments;
    let rd = opts.remove_doc_comments;
    if !(ri || rd || opts.function_signatures_only) {
        source
    } else {
        let base = if ri || rd {
            comments_removed(source, ri, rd)
        } else {
            source
        };
        let reduced = if opts.function_signatures_only { signatures_only(base) } else { base };
        leading_blank_lines_trimmed(collapse_blank_lines_spec(reduced))
    }
}

/// Applies the Rust filters chosen in `opts` to a source file's text; with none chosen,
/// the text comes back as it is.
pub fn apply_rust_filters(source: &str, opts: &RustFilterOptions) -> (res: String)
    ensures
        res@ == rust_filters_spec(source@, *opts),
{
    let ri = opts.remove_inline_regular_comments;
    let rd = opts.remove_doc_comments;
    if !(ri || rd || opts.function_signatures_only) {
        return source.to_owned();
    }
    // The text is filtered the same way whether or not it parses as Rust.
    let _parsed = parse_rust_file(source);
    let base = if ri || rd {
        remove_comments_textual(source, ri, rd)
    } else {
        source.to_owned()
    };
    let reduced = if opts.function_signatures_only {
        transform_functions_to_signatures(base.as_str())
    } else {
        base
    };
    let collapsed = collapse_consecutive_blank_lines(reduced.as_str());
    trim_leading_blank_lines(collapsed.as_str())
}

/// The part of a relative path after its last `/` (the whole path when it has none).
pub open spec fn last_segment(rel: Seq<char>) -> Seq<char> {
    split_on(rel, '/').last()
}

/// Whether the trimmed filter entry `pat` selects the relative path `rel`: an entry with a
/// `/` is matched against the whole path, any other against its last segment, byte for byte
/// with `*` standing for any run.
pub open spec fn filter_entry_matches(pat: Seq<char>, rel: Seq<char>) -> bool {
    &&& pat.len() > 0
    &&& glob_match(
        vstd::utf8::encode_utf8(pat),
        vstd::utf8::encode_utf8(if pat.contains('/') { rel } else { last_segment(rel) }),
    )
}

/// Whether some comma-separated entry of `filter`, trimmed, selects `rel`.
pub open spec fn signatures_filter_spec(rel: Seq<char>, filter: Seq<char>) -> bool {
    exists|k: int| 0 <= k < split_on(filter, ',').len() && filter_entry_matches(#[trigger] trim(split_on(filter, ',')[k]), rel)
}

fn contains_char(s: &Vec<char>, c: char) -> (b: bool)
    ensures
        b == s@.contains(c),
{
    let mut i: usize = 0;
    while i < s.len()
        invariant
            i <= s.len(),
            forall|k: int| 0 <= k < i ==> s@[k] != c,
        decreases s.len() - i,
    {
        if s[i] == c {
            assert(s@[i as int] == c);
            return true;
        }
        i = i + 1;
    }
    false
}

/// Whether the relative path `rel_path` is selected by `filter`, a comma-separated list of
/// patterns with `*` wildcards (case-sensitive, `*` also matching `/`). A pattern without
/// `/` is matched against the last segment of the path, one with `/` against the whole
/// path; blank entries are skipped, so an empty or blank filter selects nothing.
pub fn signatures_filter_matches(rel_path: &str, filter: &str) -> (b: bool)
    ensures
        b == signatures_filter_spec(rel_path@, filter@),
{
    let rel = chars_of(rel_path);
    let segs = split_chars(&rel, '/');
    proof {
        lemma_split_on_nonempty(rel@, '/');
        assert(segs@.map_values(|v: Vec<char>| v@)[segs@.len() - 1] == segs@[segs@.len() - 1]@);
    }
    let name = string_of(&segs[segs.len() - 1]);
    let fs = chars_of(filter);
    let pieces = split_chars(&fs, ',');
    let ghost ps = split_on(filter@, ',');
    let mut i: usize = 0;
    while i < pieces.len()
        invariant
            i <= pieces@.len(),
            pieces@.map_values(|v: Vec<char>| v@) == ps,
            ps == split_on(filter@, ','),
            name@ == last_segment(rel_path@),
            forall|k: int| 0 <= k < i ==> !filter_entry_matches(#[trigger] trim(ps[k]), rel_path@),
        decreases pieces@.len() - i,
    {
        assert(pieces@.map_values(|v: Vec<char>| v@)[i as int] == pieces@[i as int]@);
        let p = crate::chars::trim_range(&pieces[i], 0, pieces[i].len());
        assert(pieces@[i as int]@.subrange(0, pieces@[i as int]@.len() as int) =~= ps[i as int]);
        if p.len() > 0 {
            let pat = string_of(&p);
            let hit = if contains_char(&p, '/') {
                wildcard_match(pat.as_str().as_bytes(), rel_path.as_bytes())
            } else {
                wildcard_match(pat.as_str().as_bytes(), name.as_str().as_bytes())
            };
            if hit {
                assert(filter_entry_matches(trim(ps[i as int]), rel_path@));
                return true;
            }
        }
        i = i + 1;
    }
    false
}

proof fn lemma_split_pieces_all_ws(s: Seq<char>, c: char)
    requires
        crate::chars::all_ws(s),
    ensures
        forall|i: int| 0 <= i < split_on(s, c).len() ==> crate::chars::all_ws(#[trigger] split_on(s, c)[i]),
    decreases s.len(),
{
    if s.len() > 0 {
        let s0 = s.drop_last();
        assert(crate::chars::all_ws(s0)) by {
            assert forall|k: int| 0 <= k < s0.len() implies crate::chars::is_ws(#[trigger] s0[k]) by {
                assert(s0[k] == s[k]);
            }
        }
        lemma_split_pieces_all_ws(s0, c);
        lemma_split_on_nonempty(s0, c);
        let p = split_on(s0, c);
        let q = split_on(s, c);
        assert(crate::chars::is_ws(s[s.len() - 1]));
        assert forall|i: int| 0 <= i < q.len() implies crate::chars::all_ws(#[trigger] q[i]) by {
            if s.last() == c {
                if i < p.len() {
                    assert(q[i] == p[i]);
                }
            } else if i < p.len() - 1 {
                assert(q[i] == p[i]);
            } else {
                let w = p.last().push(s.last());
                assert(q[i] == w);
                assert(crate::chars::all_ws(p[p.len() - 1]));
                assert forall|k: int| 0 <= k < w.len() implies crate::chars::is_ws(#[trigger] w[k]) by {
                    if k < w.len() - 1 {
                        assert(w[k] == p.last()[k]);
                    }
                }
            }
        }
    }
}

/// An empty or whitespace-only filter selects no path.
pub proof fn lemma_blank_filter_selects_nothing(rel: Seq<char>, filter: Seq<char>)
    requires
        crate::chars::all_ws(filter),
    ensures
        !signatures_filter_spec(rel, filter),
{
    lemma_split_pieces_all_ws(filter, ',');
    assert forall|k: int| 0 <= k < split_on(filter, ',').len() implies !filter_entry_matches(#[trigger] trim(split_on(filter, ',')[k]), rel) by {
        crate::chars::lemma_trim_empty_iff_all_ws(split_on(filter, ',')[k]);
    }
}

} // verus!
