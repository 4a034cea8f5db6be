//! Laws of the comment filters and of the selection: which text each filter keeps, and
//! which paths a selection leaves out.
use crate::chars::{is_ws, lead_ws_len, lines_spec, occurs_at, split_on, strip_cr};
use crate::rust_comments::{comments_removed, count_hash_chars, lemma_count_hash_chars, rm_run, rm_step, CommentState};
use crate::strip::{trim_space_tab_end, any_prefix_at, process_line_spec, scan_spec, sq3, dq3, strip_comments_spec, strip_lines_from, StripState};
use crate::slint_filters::{slash2, slint_filter_spec, slint_scan, SlintFilterOptions, SlintMode};
use crate::tree::{selected_in_forest, selected_paths, Node};
use vstd::prelude::*;

verus! {

/// Whether `//` occurs nowhere in `s`.
pub open spec fn no_double_slash(s: Seq<char>) -> bool {
    forall|i: int| 0 <= i && i + 1 < s.len() ==> !(s[i] == '/' && #[trigger] s[i + 1] == '/')
}

/// Whether `/*` occurs nowhere in `s`.
pub open spec fn no_slash_star(s: Seq<char>) -> bool {
    forall|i: int| 0 <= i && i + 1 < s.len() ==> !(s[i] == '/' && #[trigger] s[i + 1] == '*')
}

proof fn lemma_slint_copies(s: Seq<char>, rl: bool, rb: bool, m: SlintMode, i: int, lhc: bool)
    requires
        rl ==> no_double_slash(s),
        rb ==> no_slash_star(s),
        m is Code || m is Dq || m is Sq,
        0 <= i <= s.len(),
    ensures
        slint_scan(s, rl, rb, m, i, lhc, false) == s.subrange(i, s.len() as int),
    decreases s.len() - i,
{
    if i < s.len() {
        let ch = s[i];
        if occurs_at(s, i, slash2()) || occurs_at(s, i, crate::slint_filters::slash_star()) {
            assert(s.subrange(i, i + 2)[0] == s[i] && s.subrange(i, i + 2)[1] == s[i + 1]);
        }
        match m {
            SlintMode::Code => {
                if ch == '"' {
                    lemma_slint_copies(s, rl, rb, SlintMode::Dq { escaped: false }, i + 1, true);
                } else if ch == '\'' {
                    lemma_slint_copies(s, rl, rb, SlintMode::Sq { escaped: false }, i + 1, true);
                } else {
                    lemma_slint_copies(s, rl, rb, m, i + 1, true);
                    lemma_slint_copies(s, rl, rb, m, i + 1, false);
                }
            },
            SlintMode::Dq { escaped } => {
                lemma_slint_copies(s, rl, rb, SlintMode::Dq { escaped: false }, i + 1, ch != '\n');
                lemma_slint_copies(s, rl, rb, SlintMode::Dq { escaped: true }, i + 1, true);
                lemma_slint_copies(s, rl, rb, SlintMode::Code, i + 1, true);
            },
            SlintMode::Sq { escaped } => {
                lemma_slint_copies(s, rl, rb, SlintMode::Sq { escaped: false }, i + 1, ch != '\n');
                lemma_slint_copies(s, rl, rb, SlintMode::Sq { escaped: true }, i + 1, true);
                lemma_slint_copies(s, rl, rb, SlintMode::Code, i + 1, true);
            },
            _ => {},
        }
        assert(seq![ch] + s.subrange(i + 1, s.len() as int) =~= s.subrange(i, s.len() as int));
    } else {
        assert(s.subrange(i, s.len() as int) =~= Seq::<char>::empty());
    }
}

/// With block-comment removal off, block comments are not touched: a Slint source in which
/// `//` does not occur comes out unchanged, `/* ... */` included, whether or not line
/// comments are removed.
pub proof fn lemma_slint_keeps_block_comments_when_off(s: Seq<char>, opts: SlintFilterOptions)
    requires
        !opts.remove_block_comments,
        no_double_slash(s),
    ensures
        slint_filter_spec(s, opts) == s,
{
    if opts.remove_line_comments {
        lemma_slint_copies(s, true, false, SlintMode::Code, 0, false);
        assert(s.subrange(0, s.len() as int) =~= s);
    }
}

/// With line-comment removal off, line comments are not touched: a Slint source in which
/// `/*` does not occur comes out unchanged, `//` comments included, whether or not block
/// comments are removed.
pub proof fn lemma_slint_keeps_line_comments_when_off(s: Seq<char>, opts: SlintFilterOptions)
    requires
        !opts.remove_line_comments,
        no_slash_star(s),
    ensures
        slint_filter_spec(s, opts) == s,
{
    if opts.remove_block_comments {
        lemma_slint_copies(s, false, true, SlintMode::Code, 0, false);
        assert(s.subrange(0, s.len() as int) =~= s);
    }
}

/// A Slint source without comment openers comes out unchanged, whatever is removed.
pub proof fn lemma_slint_source_without_comments_unchanged(s: Seq<char>, opts: SlintFilterOptions)
    requires
        no_double_slash(s),
        no_slash_star(s),
    ensures
        slint_filter_spec(s, opts) == s,
{
    if opts.remove_line_comments || opts.remove_block_comments {
        lemma_slint_copies(s, opts.remove_line_comments, opts.remove_block_comments, SlintMode::Code, 0, false);
        assert(s.subrange(0, s.len() as int) =~= s);
    }
}

/// Whether a comment opens at `i`: `//` or `/*`.
pub open spec fn comment_opens_at(b: Seq<char>, i: int) -> bool {
    0 <= i && i + 1 < b.len() && b[i] == '/' && (b[i + 1] == '/' || b[i + 1] == '*')
}

/// Whether the comment opening at `i` is a doc comment: `///`, `//!`, `/**` or `/*!`.
pub open spec fn doc_comment_at(b: Seq<char>, i: int) -> bool {
    i + 2 < b.len() && (b[i + 2] == '!' || b[i + 2] == b[i + 1])
}

/// Whether every comment that opens in `b` is of a kind that is kept.
pub open spec fn all_comments_kept(b: Seq<char>, ri: bool, rd: bool) -> bool {
    forall|k: int| #[trigger] comment_opens_at(b, k) ==> if doc_comment_at(b, k) { !rd } else { !ri }
}

#[verifier::rlimit(50)]
#[verifier::spinoff_prover]
proof fn lemma_rm_copies(b: Seq<char>, ri: bool, rd: bool, st: CommentState, i: int, out: Seq<char>)
    requires
        all_comments_kept(b, ri, rd),
        !(st matches CommentState::Block { remove: true, .. }),
        0 <= i <= b.len(),
    ensures
        rm_run(b, ri, rd, st, i, out) == out + b.subrange(i, b.len() as int),
    decreases b.len() - i,
{
    if i < b.len() {
        let n = b.len() as int;
        let r = rm_step(b, ri, rd, st, i, out);
        crate::rust_comments::lemma_rm_step_advances(b, ri, rd, st, i, out);
        lemma_count_hash_chars(b, i + 1);
        if i + 1 < n && b[i] == '/' && (b[i + 1] == '/' || b[i + 1] == '*') {
            assert(comment_opens_at(b, i));
            assert(if doc_comment_at(b, i) { !rd } else { !ri });
            if b[i + 1] == '/' {
                crate::rust_comments::lemma_next_newline_at(b, i + 2);
            }
        }
        match st {
            CommentState::Raw { hashes } => {
                let h = count_hash_chars(b, i + 1);
                if b[i] == '"' && h >= hashes {
                    assert(b.subrange(i, i + 1 + hashes) =~= seq![b[i]] + crate::rust_comments::hash_chars(hashes as nat));
                }
            },
            CommentState::Code => {
                if !(i + 1 < n && b[i] == '/' && (b[i + 1] == '/' || b[i + 1] == '*')) && b[i] != '"' && b[i] != '\''
                    && crate::rust_comments::raw_string_opens(b, i) {
                    let h = count_hash_chars(b, i + 1);
                    assert(b.subrange(i, i + 2 + h) =~= seq!['r'] + crate::rust_comments::hash_chars(h) + seq!['"']);
                }
            },
            _ => {},
        }
        assert(r.2 == out + b.subrange(i, r.1));
        assert(!(r.0 matches CommentState::Block { remove: true, .. }));
        lemma_rm_copies(b, ri, rd, r.0, r.1, r.2);
        assert(out + b.subrange(i, r.1) + b.subrange(r.1, b.len() as int) =~= out + b.subrange(i, b.len() as int));
    } else {
        assert(out + b.subrange(i, b.len() as int) =~= out);
    }
}

/// Comments of a kind that is not removed come out unchanged: with doc-comment removal
/// off, a Rust source whose comments are all doc comments (`///`, `//!`, `/**`, `/*!`)
/// comes out exactly as it went in, whether or not ordinary comments are removed.
pub proof fn lemma_doc_comments_kept(b: Seq<char>, remove_inline: bool)
    requires
        forall|k: int| #[trigger] comment_opens_at(b, k) ==> doc_comment_at(b, k),
    ensures
        comments_removed(b, remove_inline, false) == b,
{
    lemma_rm_copies(b, remove_inline, false, CommentState::Code, 0, Seq::empty());
    assert(Seq::<char>::empty() + b.subrange(0, b.len() as int) =~= b);
}

/// With ordinary-comment removal off, a Rust source whose comments are all ordinary ones
/// (neither `///`, `//!`, `/**` nor `/*!`) comes out exactly as it went in, whether or not
/// doc comments are removed.
pub proof fn lemma_plain_comments_kept(b: Seq<char>, remove_doc: bool)
    requires
        forall|k: int| #[trigger] comment_opens_at(b, k) ==> !doc_comment_at(b, k),
    ensures
        comments_removed(b, false, remove_doc) == b,
{
    lemma_rm_copies(b, false, remove_doc, CommentState::Code, 0, Seq::empty());
    assert(Seq::<char>::empty() + b.subrange(0, b.len() as int) =~= b);
}

/// With no kind of comment removed, every Rust source comes out unchanged.
pub proof fn lemma_nothing_removed(b: Seq<char>)
    ensures
        comments_removed(b, false, false) == b,
{
    lemma_rm_copies(b, false, false, CommentState::Code, 0, Seq::empty());
    assert(Seq::<char>::empty() + b.subrange(0, b.len() as int) =~= b);
}

proof fn lemma_split_single(x: Seq<char>, sep: char)
    requires
        !x.contains(sep),
    ensures
        split_on(x, sep) == seq![x],
    decreases x.len(),
{
    if x.len() > 0 {
        let d = x.drop_last();
        assert(!d.contains(sep)) by {
            if d.contains(sep) {
                let k = choose|k: int| 0 <= k < d.len() && d[k] == sep;
                assert(x[k] == sep);
            }
        }
        lemma_split_single(d, sep);
        assert(x[x.len() - 1] != sep);
        assert(d.push(x.last()) =~= x);
    } else {
        assert(x =~= Seq::<char>::empty());
    }
}

proof fn lemma_lead_ws_at_most(x: Seq<char>, m: int)
    requires
        0 <= m < x.len(),
        !is_ws(x[m]),
    ensures
        lead_ws_len(x) <= m,
    decreases m,
{
    if m > 0 && is_ws(x[0]) {
        assert(x.drop_first()[m - 1] == x[m]);
        lemma_lead_ws_at_most(x.drop_first(), m - 1);
    }
}

/// The state inside a literal opened by the quote `qc`.
pub open spec fn quoted_state(qc: char) -> StripState {
    if qc == '\'' {
        StripState::Sq { escaped: false }
    } else {
        StripState::Dq { escaped: false }
    }
}

proof fn lemma_scan_quoted(line: Seq<char>, pfx: Seq<Seq<char>>, fnw: int, qc: char, start: int, idx: int)
    requires
        qc == '\'' || qc == '"',
        0 <= start < idx < line.len(),
        line.last() == qc,
        forall|k: int| start < k < line.len() - 1 ==> line[k] != qc && line[k] != '\\',
    ensures
        scan_spec(line, pfx, fnw, quoted_state(qc), idx, false).0 is None,
    decreases line.len() - idx,
{
    if idx < line.len() - 1 {
        assert(line[idx] != qc && line[idx] != '\\');
        lemma_scan_quoted(line, pfx, fnw, qc, start, idx + 1);
        assert(scan_spec(line, pfx, fnw, quoted_state(qc), idx, false) == scan_spec(
            line,
            pfx,
            fnw,
            quoted_state(qc),
            idx + 1,
            false,
        ));
    } else {
        assert(line[idx] == line.last());
        assert(scan_spec(line, pfx, fnw, StripState::Normal, idx + 1, false).0 is None);
    }
}

proof fn lemma_scan_plain(line: Seq<char>, pfx: Seq<Seq<char>>, fnw: int, qc: char, wl: int, idx: int, pw: bool)
    requires
        qc == '\'' || qc == '"',
        0 <= idx <= wl,
        wl + 2 <= line.len(),
        line[wl] == qc,
        line.last() == qc,
        forall|k: int| 0 <= k < wl ==> line[k] != '"' && line[k] != '\'' && line[k] != 'r',
        forall|k: int| wl < k < line.len() - 1 ==> line[k] != qc && line[k] != '\\',
        forall|k: int| 0 <= k < wl ==> !any_prefix_at(line, k, pfx),
    ensures
        scan_spec(line, pfx, fnw, StripState::Normal, idx, pw).0 is None,
    decreases wl - idx,
{
    if occurs_at(line, idx, dq3()) || occurs_at(line, idx, sq3()) {
        assert(line.subrange(idx, idx + 3)[0] == line[idx]);
        assert(line.subrange(idx, idx + 3)[1] == line[idx + 1]);
        if idx == wl {
            if idx + 1 < line.len() - 1 {
                assert(line[idx + 1] != qc);
            } else {
                assert(idx + 3 > line.len());
            }
        }
    }
    if idx < wl {
        lemma_scan_plain(line, pfx, fnw, qc, wl, idx + 1, is_ws(line[idx]));
    } else {
        lemma_scan_quoted(line, pfx, fnw, qc, wl, idx + 1);
    }
}

proof fn lemma_single_line_text(line: Seq<char>)
    requires
        !line.contains('\n'),
        line.len() > 0,
        line.last() != '\r',
    ensures
        lines_spec(line + seq!['\n']) == seq![line],
{
    let text = line + seq!['\n'];
    lemma_split_single(line, '\n');
    assert(text.drop_last() =~= line);
    assert(split_on(text, '\n') == seq![line].push(Seq::<char>::empty()));
    assert(strip_cr(line) == line);
    assert(lines_spec(text) =~= seq![line]);
}

proof fn lemma_one_line_output(line: Seq<char>, pfx: Seq<Seq<char>>)
    requires
        pfx.len() > 0,
        !line.contains('\n'),
        line.len() > 0,
        line.last() != '\r',
    ensures
        strip_comments_spec(line + seq!['\n'], pfx) == process_line_spec(line, pfx, StripState::Normal).0,
{
    lemma_single_line_text(line);
    let one = seq![line];
    assert(one[0] == line);
    assert(one.drop_first() =~= Seq::<Seq<char>>::empty());
    assert(strip_lines_from(one.drop_first(), pfx, process_line_spec(line, pfx, StripState::Normal).1) =~= Seq::<char>::empty());
    assert(process_line_spec(line, pfx, StripState::Normal).0 + Seq::<char>::empty() =~= process_line_spec(line, pfx, StripState::Normal).0);
}

/// A comment prefix inside a quoted literal (`'...'` or `"..."`) does not start a trailing
/// comment: a line made of plain text (no quotes, no raw-string `r`, no prefix starting in
/// it) followed by a literal (no closing quote, backslash or newline inside) comes out
/// whole, prefix characters inside the literal included.
pub proof fn lemma_prefix_in_quotes_kept(w: Seq<char>, qc: char, q: Seq<char>, pfx: Seq<Seq<char>>)
    requires
        qc == '\'' || qc == '"',
        forall|k: int| 0 <= k < w.len() ==> w[k] != '"' && w[k] != '\'' && w[k] != 'r' && w[k] != '\n',
        forall|k: int| 0 <= k < q.len() ==> q[k] != qc && q[k] != '\\' && q[k] != '\n',
        forall|j: int, k: int|
            0 <= j < pfx.len() && pfx[j].len() > 0 && 0 <= k < w.len() ==> !#[trigger] occurs_at(
                w + seq![qc] + q + seq![qc],
                k,
                pfx[j],
            ),
        forall|j: int| 0 <= j < pfx.len() && (#[trigger] pfx[j]).len() > 0 ==> pfx[j][0] != qc,
    ensures
        strip_comments_spec(w + seq![qc] + q + seq![qc] + seq!['\n'], pfx) == w + seq![qc] + q + seq![qc]
            + seq!['\n'],
{
    let line = w + seq![qc] + q + seq![qc];
    let text = line + seq!['\n'];
    let wl = w.len() as int;
    assert(line[wl] == qc);
    assert(line.last() == qc);
    assert forall|k: int| 0 <= k < wl implies line[k] != '"' && line[k] != '\'' && line[k] != 'r' by {
        assert(line[k] == w[k]);
    }
    assert forall|k: int| wl < k < line.len() - 1 implies line[k] != qc && line[k] != '\\' by {
        assert(line[k] == q[k - wl - 1]);
    }
    assert forall|k: int| 0 <= k < wl implies !any_prefix_at(line, k, pfx) by {
        if any_prefix_at(line, k, pfx) {
            let j = choose|j: int| 0 <= j < pfx.len() && pfx[j].len() > 0 && occurs_at(line, k, #[trigger] pfx[j]);
        }
    }
    assert(!line.contains('\n')) by {
        if line.contains('\n') {
            let k = choose|k: int| 0 <= k < line.len() && line[k] == '\n';
            if k < wl {
                assert(line[k] == w[k]);
            } else if wl < k < line.len() - 1 {
                assert(line[k] == q[k - wl - 1]);
            }
        }
    }
    if pfx.len() > 0 {
        lemma_one_line_output(line, pfx);
        let fnw = lead_ws_len(line);
        lemma_lead_ws_at_most(line, wl);
        if fnw < line.len() && any_prefix_at(line, fnw, pfx) {
            if fnw == wl {
                let j = choose|j: int| 0 <= j < pfx.len() && pfx[j].len() > 0 && occurs_at(line, fnw, #[trigger] pfx[j]);
                assert(line.subrange(fnw, fnw + pfx[j].len())[0] == line[fnw]);
            }
        }
        lemma_scan_plain(line, pfx, fnw, qc, wl, 0, false);
        assert(process_line_spec(line, pfx, StripState::Normal).0 == text);
    } else {
        assert(strip_comments_spec(text, pfx) == text);
    }
}

proof fn lemma_lead_ws_exact(x: Seq<char>, m: int)
    requires
        0 <= m < x.len(),
        forall|k: int| 0 <= k < m ==> is_ws(x[k]),
        !is_ws(x[m]),
    ensures
        lead_ws_len(x) == m,
    decreases m,
{
    if m > 0 {
        assert(x.drop_first()[m - 1] == x[m]);
        assert forall|k: int| 0 <= k < m - 1 implies is_ws(x.drop_first()[k]) by {
            assert(x.drop_first()[k] == x[k + 1]);
        }
        lemma_lead_ws_exact(x.drop_first(), m - 1);
    }
}

/// A line whose first non-whitespace text is a comment prefix is dropped whole: a text of
/// one such line gives nothing.
pub proof fn lemma_full_line_comment_dropped(ws: Seq<char>, j: int, c: Seq<char>, pfx: Seq<Seq<char>>)
    requires
        0 <= j < pfx.len(),
        pfx[j].len() > 0,
        !is_ws(pfx[j][0]),
        forall|k: int| 0 <= k < ws.len() ==> is_ws(ws[k]) && ws[k] != '\n',
        !(ws + pfx[j] + c).contains('\n'),
        (ws + pfx[j] + c).last() != '\r',
    ensures
        strip_comments_spec(ws + pfx[j] + c + seq!['\n'], pfx) == Seq::<char>::empty(),
{
    let line = ws + pfx[j] + c;
    let m = ws.len() as int;
    assert forall|k: int| 0 <= k < m implies is_ws(line[k]) by {
        assert(line[k] == ws[k]);
    }
    assert(line[m] == pfx[j][0]);
    lemma_lead_ws_exact(line, m);
    lemma_one_line_output(line, pfx);
    assert(line.subrange(m, m + pfx[j].len()) =~= pfx[j]);
    assert(occurs_at(line, m, pfx[j]));
    assert(any_prefix_at(line, m, pfx));
}

proof fn lemma_trim_spaces_after(w: Seq<char>, sp: Seq<char>)
    requires
        w.len() > 0,
        w.last() != ' ' && w.last() != '\t',
        forall|k: int| 0 <= k < sp.len() ==> sp[k] == ' ' || sp[k] == '\t',
    ensures
        trim_space_tab_end(w + sp) == w,
    decreases sp.len(),
{
    if sp.len() > 0 {
        assert((w + sp).drop_last() =~= w + sp.drop_last());
        assert((w + sp).last() == sp[sp.len() - 1]);
        lemma_trim_spaces_after(w, sp.drop_last());
    } else {
        assert(w + sp =~= w);
    }
}

proof fn lemma_scan_to_cut(line: Seq<char>, pfx: Seq<Seq<char>>, cut: int, idx: int, pw: bool)
    requires
        0 <= idx <= cut < line.len(),
        forall|k: int| 0 <= k < cut ==> line[k] != '"' && line[k] != '\'' && line[k] != 'r',
        line[cut] != '"' && line[cut] != '\'' && line[cut] != 'r',
        forall|k: int| 0 <= k < cut ==> !any_prefix_at(line, k, pfx),
        any_prefix_at(line, cut, pfx),
        cut > 0 && is_ws(line[cut - 1]),
        idx == cut ==> pw,
    ensures
        scan_spec(line, pfx, 0, StripState::Normal, idx, pw).0 == Some(cut),
    decreases cut - idx,
{
    if occurs_at(line, idx, dq3()) || occurs_at(line, idx, sq3()) {
        assert(line.subrange(idx, idx + 3)[0] == line[idx]);
    }
    if idx < cut {
        lemma_scan_to_cut(line, pfx, cut, idx + 1, is_ws(line[idx]));
    }
}

/// A trailing comment is cut off: a line of plain text (no quotes, no raw-string `r`, no
/// prefix starting in it, not starting with whitespace), then spaces or tabs, then a comment
/// prefix and any text, comes out as the plain text alone, the spaces before the comment
/// removed.
pub proof fn lemma_trailing_comment_cut(w: Seq<char>, sp: Seq<char>, j: int, c: Seq<char>, pfx: Seq<Seq<char>>)
    requires
        0 <= j < pfx.len(),
        pfx[j].len() > 0,
        pfx[j][0] != '"' && pfx[j][0] != '\'' && pfx[j][0] != 'r',
        w.len() > 0,
        !is_ws(w[0]),
        w.last() != ' ' && w.last() != '\t',
        forall|k: int| 0 <= k < w.len() ==> w[k] != '"' && w[k] != '\'' && w[k] != 'r',
        sp.len() > 0,
        forall|k: int| 0 <= k < sp.len() ==> sp[k] == ' ' || sp[k] == '\t',
        forall|i: int, k: int|
            0 <= i < pfx.len() && pfx[i].len() > 0 && 0 <= k < w.len() + sp.len() ==> !#[trigger] occurs_at(
                w + sp + pfx[j] + c,
                k,
                pfx[i],
            ),
        !(w + sp + pfx[j] + c).contains('\n'),
        (w + sp + pfx[j] + c).last() != '\r',
    ensures
        strip_comments_spec(w + sp + pfx[j] + c + seq!['\n'], pfx) == w + seq!['\n'],
{
    let line = w + sp + pfx[j] + c;
    let cut = (w.len() + sp.len()) as int;
    assert forall|k: int| 0 <= k < cut implies line[k] != '"' && line[k] != '\'' && line[k] != 'r' by {
        if k < w.len() {
            assert(line[k] == w[k]);
        } else {
            assert(line[k] == sp[k - w.len()]);
        }
    }
    assert forall|k: int| 0 <= k < cut implies !any_prefix_at(line, k, pfx) by {
        if any_prefix_at(line, k, pfx) {
            let i = choose|i: int| 0 <= i < pfx.len() && pfx[i].len() > 0 && occurs_at(line, k, #[trigger] pfx[i]);
        }
    }
    assert(line[cut] == pfx[j][0]);
    assert(line.subrange(cut, cut + pfx[j].len()) =~= pfx[j]);
    assert(occurs_at(line, cut, pfx[j]));
    assert(line[cut - 1] == sp[sp.len() - 1]);
    assert(is_ws(line[cut - 1]));
    assert(line[0] == w[0]);
    lemma_lead_ws_exact(line, 0);
    lemma_one_line_output(line, pfx);
    assert(!any_prefix_at(line, 0, pfx));
    lemma_scan_to_cut(line, pfx, cut, 0, false);
    assert(line.subrange(0, cut) =~= w + sp);
    lemma_trim_spaces_after(w, sp);
}

/// Whether the check state of `p` is explicitly off.
pub open spec fn explicitly_off(explicit: Map<Seq<char>, bool>, p: Seq<char>) -> bool {
    explicit.contains_key(p) && !explicit[p]
}

proof fn lemma_selected_not_off(n: Node, explicit: Map<Seq<char>, bool>, inherited: Option<bool>)
    ensures
        forall|i: int| 0 <= i < selected_paths(n, explicit, inherited).0.len()
            ==> !explicitly_off(explicit, #[trigger] selected_paths(n, explicit, inherited).0[i]),
        forall|i: int| 0 <= i < selected_paths(n, explicit, inherited).1.len()
            ==> !explicitly_off(explicit, #[trigger] selected_paths(n, explicit, inherited).1[i]),
    decreases n, 1nat,
{
    let eff = crate::tree::effective_state(explicit, n.path@, inherited);
    let sel = selected_paths(n, explicit, inherited);
    if n.is_dir {
        lemma_forest_not_off(n.children@, explicit, eff);
        let here: Seq<Seq<char>> = if eff && n.has_children {
            seq![n.path@]
        } else {
            Seq::empty()
        };
        let (f, d) = selected_in_forest(n.children@, explicit, eff);
        assert(sel.0 == f);
        assert(sel.1 == here + d);
        assert forall|i: int| 0 <= i < (here + d).len() implies !explicitly_off(explicit, #[trigger] (here + d)[i]) by {
            if i < here.len() {
                assert((here + d)[i] == n.path@);
            } else {
                assert((here + d)[i] == d[i - here.len()]);
            }
        }
    } else if eff {
        assert(sel.0 == seq![n.path@]);
        assert(sel.1.len() == 0);
    } else {
        assert(sel.0.len() == 0 && sel.1.len() == 0);
    }
}

proof fn lemma_forest_not_off(cs: Seq<Node>, explicit: Map<Seq<char>, bool>, eff: bool)
    ensures
        forall|i: int| 0 <= i < selected_in_forest(cs, explicit, eff).0.len()
            ==> !explicitly_off(explicit, #[trigger] selected_in_forest(cs, explicit, eff).0[i]),
        forall|i: int| 0 <= i < selected_in_forest(cs, explicit, eff).1.len()
            ==> !explicitly_off(explicit, #[trigger] selected_in_forest(cs, explicit, eff).1[i]),
    decreases cs, 0nat,
{
    if cs.len() > 0 {
        lemma_forest_not_off(cs.drop_last(), explicit, eff);
        lemma_selected_not_off(cs.last(), explicit, Some(eff));
        let (f0, d0) = selected_in_forest(cs.drop_last(), explicit, eff);
        let (f1, d1) = selected_paths(cs.last(), explicit, Some(eff));
        assert forall|i: int| 0 <= i < (f0 + f1).len() implies !explicitly_off(explicit, #[trigger] (f0 + f1)[i]) by {
            if i < f0.len() {
                assert((f0 + f1)[i] == f0[i]);
            } else {
                assert((f0 + f1)[i] == f1[i - f0.len()]);
            }
        }
        assert forall|i: int| 0 <= i < (d0 + d1).len() implies !explicitly_off(explicit, #[trigger] (d0 + d1)[i]) by {
            if i < d0.len() {
                assert((d0 + d1)[i] == d0[i]);
            } else {
                assert((d0 + d1)[i] == d1[i - d0.len()]);
            }
        }
    }
}

/// An explicit check state wins over the inherited one: no file or folder whose explicit
/// state is off is ever among the selected paths, whatever its folder's state.
pub proof fn lemma_explicitly_unchecked_never_selected(
    n: Node,
    explicit: Map<Seq<char>, bool>,
    inherited: Option<bool>,
    p: Seq<char>,
)
    requires
        explicitly_off(explicit, p),
    ensures
        !selected_paths(n, explicit, inherited).0.contains(p),
        !selected_paths(n, explicit, inherited).1.contains(p),
{
    lemma_selected_not_off(n, explicit, inherited);
}

/// The paths of the file nodes of a tree.
pub open spec fn tree_files(n: Node) -> Set<Seq<char>>
    decreases n, 1nat,
{
    if n.is_dir {
        forest_files(n.children@)
    } else {
        set![n.path@]
    }
}

/// The paths of the file nodes of the trees `cs`.
pub open spec fn forest_files(cs: Seq<Node>) -> Set<Seq<char>>
    decreases cs, 0nat,
{
    if cs.len() == 0 {
        Set::empty()
    } else {
        forest_files(cs.drop_last()).union(tree_files(cs.last()))
    }
}

proof fn lemma_checked_file_selected(n: Node, explicit: Map<Seq<char>, bool>, inherited: Option<bool>, p: Seq<char>)
    requires
        tree_files(n).contains(p),
        explicit.contains_key(p),
        explicit[p],
    ensures
        selected_paths(n, explicit, inherited).0.contains(p),
    decreases n, 1nat,
{
    if n.is_dir {
        let eff = crate::tree::effective_state(explicit, n.path@, inherited);
        lemma_checked_file_forest(n.children@, explicit, eff, p);
    } else {
        assert(p == n.path@);
        assert(selected_paths(n, explicit, inherited).0 == seq![p]);
        assert(seq![p][0] == p);
    }
}

proof fn lemma_checked_file_forest(cs: Seq<Node>, explicit: Map<Seq<char>, bool>, eff: bool, p: Seq<char>)
    requires
        forest_files(cs).contains(p),
        explicit.contains_key(p),
        explicit[p],
    ensures
        selected_in_forest(cs, explicit, eff).0.contains(p),
    decreases cs, 0nat,
{
    if cs.len() > 0 {
        let (f0, d0) = selected_in_forest(cs.drop_last(), explicit, eff);
        let (f1, d1) = selected_paths(cs.last(), explicit, Some(eff));
        if forest_files(cs.drop_last()).contains(p) {
            lemma_checked_file_forest(cs.drop_last(), explicit, eff, p);
            let i = choose|i: int| 0 <= i < f0.len() && f0[i] == p;
            assert((f0 + f1)[i] == p);
        } else {
            lemma_checked_file_selected(cs.last(), explicit, Some(eff), p);
            let i = choose|i: int| 0 <= i < f1.len() && f1[i] == p;
            assert((f0 + f1)[f0.len() + i] == p);
        }
    }
}

/// An explicit check state wins the other way too: every file of the tree whose explicit
/// state is on is among the selected files, whatever its folders' states.
pub proof fn lemma_explicitly_checked_file_selected(
    n: Node,
    explicit: Map<Seq<char>, bool>,
    inherited: Option<bool>,
    p: Seq<char>,
)
    requires
        tree_files(n).contains(p),
        explicit.contains_key(p),
        explicit[p],
    ensures
        selected_paths(n, explicit, inherited).0.contains(p),
{
    lemma_checked_file_selected(n, explicit, inherited, p);
}

/// The paths of the directory nodes of a tree that show content.
pub open spec fn tree_content_dirs(n: Node) -> Set<Seq<char>>
    decreases n, 1nat,
{
    if n.is_dir {
        forest_content_dirs(n.children@).union(if n.has_children { set![n.path@] } else { Set::empty() })
    } else {
        Set::empty()
    }
}

/// The paths of the directory nodes with content of the trees `cs`.
pub open spec fn forest_content_dirs(cs: Seq<Node>) -> Set<Seq<char>>
    decreases cs, 0nat,
{
    if cs.len() == 0 {
        Set::empty()
    } else {
        forest_content_dirs(cs.drop_last()).union(tree_content_dirs(cs.last()))
    }
}

proof fn lemma_checked_dir_selected(n: Node, explicit: Map<Seq<char>, bool>, inherited: Option<bool>, p: Seq<char>)
    requires
        tree_content_dirs(n).contains(p),
        explicit.contains_key(p),
        explicit[p],
    ensures
        selected_paths(n, explicit, inherited).1.contains(p),
    decreases n, 1nat,
{
    let eff = crate::tree::effective_state(explicit, n.path@, inherited);
    let here: Seq<Seq<char>> = if eff && n.has_children {
        seq![n.path@]
    } else {
        Seq::empty()
    };
    let (f, d) = selected_in_forest(n.children@, explicit, eff);
    if forest_content_dirs(n.children@).contains(p) {
        lemma_checked_dir_forest(n.children@, explicit, eff, p);
        let i = choose|i: int| 0 <= i < d.len() && d[i] == p;
        assert((here + d)[here.len() + i] == p);
    } else {
        assert(p == n.path@ && n.has_children);
        assert((here + d)[0] == p);
    }
}

proof fn lemma_checked_dir_forest(cs: Seq<Node>, explicit: Map<Seq<char>, bool>, eff: bool, p: Seq<char>)
    requires
        forest_content_dirs(cs).contains(p),
        explicit.contains_key(p),
        explicit[p],
    ensures
        selected_in_forest(cs, explicit, eff).1.contains(p),
    decreases cs, 0nat,
{
    if cs.len() > 0 {
        let (f0, d0) = selected_in_forest(cs.drop_last(), explicit, eff);
        let (f1, d1) = selected_paths(cs.last(), explicit, Some(eff));
        if forest_content_dirs(cs.drop_last()).contains(p) {
            lemma_checked_dir_forest(cs.drop_last(), explicit, eff, p);
            let i = choose|i: int| 0 <= i < d0.len() && d0[i] == p;
            assert((d0 + d1)[i] == p);
        } else {
            lemma_checked_dir_selected(cs.last(), explicit, Some(eff), p);
            let i = choose|i: int| 0 <= i < d1.len() && d1[i] == p;
            assert((d0 + d1)[d0.len() + i] == p);
        }
    }
}

/// Every directory of the tree that shows content and whose explicit state is on is among
/// the selected directories, whatever its parents' states.
pub proof fn lemma_explicitly_checked_dir_selected(
    n: Node,
    explicit: Map<Seq<char>, bool>,
    inherited: Option<bool>,
    p: Seq<char>,
)
    requires
        tree_content_dirs(n).contains(p),
        explicit.contains_key(p),
        explicit[p],
    ensures
        selected_paths(n, explicit, inherited).1.contains(p),
{
    lemma_checked_dir_selected(n, explicit, inherited, p);
}

proof fn lemma_nothing_on_nothing_selected(n: Node, explicit: Map<Seq<char>, bool>, inherited: Option<bool>)
    requires
        forall|p: Seq<char>| #[trigger] explicit.contains_key(p) ==> !explicit[p],
        inherited != Some(true),
    ensures
        selected_paths(n, explicit, inherited).0.len() == 0,
        selected_paths(n, explicit, inherited).1.len() == 0,
    decreases n, 1nat,
{
    let eff = crate::tree::effective_state(explicit, n.path@, inherited);
    assert(!eff);
    if n.is_dir {
        lemma_nothing_on_forest(n.children@, explicit);
    }
}

proof fn lemma_nothing_on_forest(cs: Seq<Node>, explicit: Map<Seq<char>, bool>)
    requires
        forall|p: Seq<char>| #[trigger] explicit.contains_key(p) ==> !explicit[p],
    ensures
        selected_in_forest(cs, explicit, false).0.len() == 0,
        selected_in_forest(cs, explicit, false).1.len() == 0,
    decreases cs, 0nat,
{
    if cs.len() > 0 {
        lemma_nothing_on_forest(cs.drop_last(), explicit);
        lemma_nothing_on_nothing_selected(cs.last(), explicit, Some(false));
    }
}

/// With nothing checked, explicitly or by inheritance, nothing is selected.
pub proof fn lemma_nothing_checked_nothing_selected(n: Node, explicit: Map<Seq<char>, bool>, inherited: Option<bool>)
    requires
        forall|p: Seq<char>| #[trigger] explicit.contains_key(p) ==> !explicit[p],
        inherited != Some(true),
    ensures
        selected_paths(n, explicit, inherited).0.len() == 0,
        selected_paths(n, explicit, inherited).1.len() == 0,
{
    lemma_nothing_on_nothing_selected(n, explicit, inherited);
}

} // verus!
