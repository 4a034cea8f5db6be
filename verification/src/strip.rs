//! Removal of comment lines and trailing comments that start with user-given prefixes,
//! aware of quoted text (`"..."`, `'...'`, Rust raw strings, and triple-quoted blocks).
use crate::chars::{
    chars_of, is_whitespace_char, is_ws, lead_ws_len, lines_of, lines_spec, matches_at,
    occurs_at, skip_ws_forward, string_of,
};
use vstd::prelude::*;

verus! {

/// Where the scanner stands: in plain text, inside a quoted string (with its pending
/// escape), inside a raw string with its number of `#`, or inside a triple-quoted block.
#[derive(Clone, Copy, PartialEq, Eq, Structural, Debug)]
pub enum StripState {
    Normal,
    Dq { escaped: bool },
    Sq { escaped: bool },
    Raw { hashes: usize },
    TripleDq,
    TripleSq,
}

/// Whether some non-empty prefix of `pfx` occurs in `line` at `at`.
pub open spec fn any_prefix_at(line: Seq<char>, at: int, pfx: Seq<Seq<char>>) -> bool {
    exists|i: int| 0 <= i < pfx.len() && pfx[i].len() > 0 && occurs_at(line, at, #[trigger] pfx[i])
}

/// The number of consecutive `#` in `s` starting at `from`.
pub open spec fn count_hashes(s: Seq<char>, from: int) -> nat
    decreases s.len() - from,
{
    if 0 <= from < s.len() && s[from] == '#' {
        1 + count_hashes(s, from + 1)
    } else {
        0
    }
}

/// Whether `s[from..to]` consists of `#` only.
pub open spec fn all_hashes(s: Seq<char>, from: int, to: int) -> bool {
    forall|k: int| from <= k < to ==> s[k] == '#'
}

pub open spec fn dq3() -> Seq<char> {
    seq!['"', '"', '"']
}

pub open spec fn sq3() -> Seq<char> {
    seq!['\'', '\'', '\'']
}

/// Whether a raw string (`r`, some `#`, then `"`) opens at `idx`.
pub open spec fn raw_opens_at(line: Seq<char>, idx: int) -> bool {
    line[idx] == 'r' && idx + 1 + count_hashes(line, idx + 1) < line.len() && line[idx + 1
        + count_hashes(line, idx + 1)] == '"'
}

/// The scan of one line from character `idx` in state `st`: the character index at which a
/// trailing comment starts (a prefix preceded by whitespace, outside quotes, at or after the
/// first non-whitespace character `fnw`), if any, and the state after the scan.
pub open spec fn scan_spec(
    line: Seq<char>,
    pfx: Seq<Seq<char>>,
    fnw: int,
    st: StripState,
    idx: int,
    prev_ws: bool,
) -> (Option<int>, StripState)
    decreases line.len() - idx,
{
    if idx < 0 || idx >= line.len() {
        (None, st)
    } else {
        let ch = line[idx];
        match st {
            StripState::Normal => {
                if occurs_at(line, idx, dq3()) {
                    scan_spec(line, pfx, fnw, StripState::TripleDq, idx + 3, false)
                } else if occurs_at(line, idx, sq3()) {
                    scan_spec(line, pfx, fnw, StripState::TripleSq, idx + 3, false)
                } else if raw_opens_at(line, idx) {
                    let h = count_hashes(line, idx + 1);
                    scan_spec(line, pfx, fnw, StripState::Raw { hashes: h as usize }, idx + h + 2, false)
                } else if ch == '"' {
                    scan_spec(line, pfx, fnw, StripState::Dq { escaped: false }, idx + 1, false)
                } else if ch == '\'' {
                    scan_spec(line, pfx, fnw, StripState::Sq { escaped: false }, idx + 1, false)
                } else if idx >= fnw && prev_ws && any_prefix_at(line, idx, pfx) {
                    (Some(idx), st)
                } else {
                    scan_spec(line, pfx, fnw, StripState::Normal, idx + 1, is_ws(ch))
                }
            },
            StripState::Dq { escaped } => {
                let next = if !escaped && ch == '"' {
                    StripState::Normal
                } else {
                    StripState::Dq { escaped: ch == '\\' && !escaped }
                };
                scan_spec(line, pfx, fnw, next, idx + 1, false)
            },
            StripState::Sq { escaped } => {
                let next = if !escaped && ch == '\'' {
                    StripState::Normal
                } else {
                    StripState::Sq { escaped: ch == '\\' && !escaped }
                };
                scan_spec(line, pfx, fnw, next, idx + 1, false)
            },
            StripState::Raw { hashes } => {
                if ch == '"' && idx + 1 + hashes <= line.len() && all_hashes(
                    line,
                    idx + 1,
                    idx + 1 + hashes,
                ) {
                    scan_spec(line, pfx, fnw, StripState::Normal, idx + hashes + 1, false)
                } else {
                    scan_spec(line, pfx, fnw, st, idx + 1, false)
                }
            },
            StripState::TripleDq => {
                if occurs_at(line, idx, dq3()) {
                    scan_spec(line, pfx, fnw, StripState::Normal, idx + 3, false)
                } else {
                    scan_spec(line, pfx, fnw, st, idx + 1, false)
                }
            },
            StripState::TripleSq => {
                if occurs_at(line, idx, sq3()) {
                    scan_spec(line, pfx, fnw, StripState::Normal, idx + 3, false)
                } else {
                    scan_spec(line, pfx, fnw, st, idx + 1, false)
                }
            },
        }
    }
}

/// `s` without its trailing spaces and tabs.
pub open spec fn trim_space_tab_end(s: Seq<char>) -> Seq<char>
    decreases s.len(),
{
    if s.len() > 0 && (s.last() == ' ' || s.last() == '\t') {
        trim_space_tab_end(s.drop_last())
    } else {
        s
    }
}

/// What one line contributes to the output, and the state that the next line starts in:
/// nothing when the line is a full-line comment; else the line, cut before its trailing
/// comment (with the spaces and tabs before the cut removed), and a newline.
pub open spec fn process_line_spec(line: Seq<char>, pfx: Seq<Seq<char>>, st: StripState) -> (
    Seq<char>,
    StripState,
) {
    let st1 = match st {
        StripState::Dq { .. } | StripState::Sq { .. } => StripState::Normal,
        _ => st,
    };
    let fnw = lead_ws_len(line);
    if fnw < line.len() && st1 == StripState::Normal && any_prefix_at(line, fnw, pfx) {
        (Seq::empty(), st1)
    } else {
        let (cut, st2) = scan_spec(line, pfx, fnw, st1, 0, false);
        let kept = match cut {
            Some(c) => trim_space_tab_end(line.subrange(0, c)),
            None => line,
        };
        (kept + seq!['\n'], st2)
    }
}

/// The output for the lines `ls`, the first of which starts in state `st`.
pub open spec fn strip_lines_from(ls: Seq<Seq<char>>, pfx: Seq<Seq<char>>, st: StripState) -> Seq<
    char,
>
    decreases ls.len(),
{
    if ls.len() == 0 {
        Seq::empty()
    } else {
        let (piece, st2) = process_line_spec(ls[0], pfx, st);
        piece + strip_lines_from(ls.drop_first(), pfx, st2)
    }
}

/// The text with comment lines and trailing comments removed; unchanged when there are
/// no prefixes.
pub open spec fn strip_comments_spec(contents: Seq<char>, pfx: Seq<Seq<char>>) -> Seq<char> {
    if pfx.len() == 0 {
        contents
    } else {
        strip_lines_from(lines_spec(contents), pfx, StripState::Normal)
    }
}

proof fn lemma_lead_ws_len_is(s: Seq<char>, k: int)
    requires
        0 <= k <= s.len(),
        forall|i: int| 0 <= i < k ==> is_ws(#[trigger] s[i]),
        k < s.len() ==> !is_ws(s[k]),
    ensures
        lead_ws_len(s) == k,
    decreases k,
{
    if k > 0 {
        assert forall|i: int| 0 <= i < k - 1 implies is_ws(#[trigger] s.drop_first()[i]) by {
            assert(s.drop_first()[i] == s[i + 1]);
        }
        if k - 1 < s.len() - 1 {
            assert(s.drop_first()[k - 1] == s[k]);
        }
        lemma_lead_ws_len_is(s.drop_first(), k - 1);
    }
}

/// Whether one of the non-empty prefixes occurs in `line` at `at`.
fn prefix_match_any(line: &Vec<char>, at: usize, prefixes: &Vec<Vec<char>>) -> (b: bool)
    requires
        at <= line.len(),
    ensures
        b == any_prefix_at(line@, at as int, prefixes@.map_values(|v: Vec<char>| v@)),
{
    let ghost pv = prefixes@.map_values(|v: Vec<char>| v@);
    let mut i: usize = 0;
    while i < prefixes.len()
        invariant
            i <= prefixes.len(),
            at <= line.len(),
            pv == prefixes@.map_values(|v: Vec<char>| v@),
            forall|j: int| 0 <= j < i ==> !(pv[j].len() > 0 && occurs_at(line@, at as int, #[trigger] pv[j])),
        decreases prefixes.len() - i,
    {
        assert(pv[i as int] == prefixes@[i as int]@);
        if prefixes[i].len() > 0 && matches_at(line, at, &prefixes[i]) {
            return true;
        }
        i = i + 1;
    }
    false
}

/// The number of consecutive `#` in `s` from `from`.
pub(crate) fn hashes_from(s: &Vec<char>, from: usize) -> (n: usize)
    requires
        from <= s.len(),
    ensures
        n == count_hashes(s@, from as int),
        from + n <= s.len(),
        all_hashes(s@, from as int, from + n),
{
    let mut k = from;
    while k < s.len() && s[k] == '#'
        invariant
            from <= k <= s.len(),
            count_hashes(s@, from as int) == (k - from) + count_hashes(s@, k as int),
            all_hashes(s@, from as int, k as int),
        decreases s.len() - k,
    {
        k = k + 1;
    }
    k - from
}

/// Whether `s[from..to]` consists of `#` only.
fn all_hashes_exec(s: &Vec<char>, from: usize, to: usize) -> (b: bool)
    requires
        from <= to <= s.len(),
    ensures
        b == all_hashes(s@, from as int, to as int),
{
    let mut k = from;
    while k < to
        invariant
            from <= k <= to <= s.len(),
            all_hashes(s@, from as int, k as int),
        decreases to - k,
    {
        if s[k] != '#' {
            return false;
        }
        k = k + 1;
    }
    true
}

/// Scans one line for the start of a trailing comment, updating the quote state.
fn scan_inline_cut(state: &mut StripState, line: &Vec<char>, prefixes: &Vec<Vec<char>>, fnw: usize) -> (cut: Option<usize>)
    requires
        fnw <= line.len(),
    ensures
        ({
            let (c, s) = scan_spec(line@, prefixes@.map_values(|v: Vec<char>| v@), fnw as int, *old(state), 0, false);
            &&& *final(state) == s
            &&& match cut {
                Some(k) => c == Some(k as int) && k < line.len(),
                None => c is None,
            }
        }),
{
    let ghost pv = prefixes@.map_values(|v: Vec<char>| v@);
    let ghost goal = scan_spec(line@, pv, fnw as int, *state, 0, false);
    let total = line.len();
    let mut prev_was_ws = false;
    let mut idx: usize = 0;
    let dq = vec!['"', '"', '"'];
    let sq = vec!['\'', '\'', '\''];
    assert(dq@ =~= dq3());
    assert(sq@ =~= sq3());
    while idx < total
        invariant
            total == line.len(),
            idx <= total,
            fnw <= total,
            pv == prefixes@.map_values(|v: Vec<char>| v@),
            dq@ == dq3(),
            sq@ == sq3(),
            goal == scan_spec(line@, pv, fnw as int, *state, idx as int, prev_was_ws),
            goal == scan_spec(line@, pv, fnw as int, *old(state), 0, false),
        decreases total - idx,
    {
        let ch = line[idx];
        match *state {
            StripState::Normal => {
                if matches_at(line, idx, &dq) {
                    *state = StripState::TripleDq;
                    idx = idx + 3;
                    prev_was_ws = false;
                    continue;
                }
                if matches_at(line, idx, &sq) {
                    *state = StripState::TripleSq;
                    idx = idx + 3;
                    prev_was_ws = false;
                    continue;
                }
                if ch == 'r' {
                    let h = hashes_from(line, idx + 1);
                    if idx + 1 + h < total && line[idx + 1 + h] == '"' {
                        *state = StripState::Raw { hashes: h };
                        idx = idx + h + 2;
                        prev_was_ws = false;
                        continue;
                    }
                }
                if ch == '"' {
                    *state = StripState::Dq { escaped: false };
                    prev_was_ws = false;
                    idx = idx + 1;
                    continue;
                }
                if ch == '\'' {
                    *state = StripState::Sq { escaped: false };
                    prev_was_ws = false;
                    idx = idx + 1;
                    continue;
                }
                if idx >= fnw && prev_was_ws && prefix_match_any(line, idx, prefixes) {
                    assert(goal == (Some(idx as int), *state));
                    return Some(idx);
                }
                prev_was_ws = is_whitespace_char(ch);
                idx = idx + 1;
            },
            StripState::Dq { escaped } => {
                *state = if !escaped && ch == '"' {
                    StripState::Normal
                } else {
                    StripState::Dq { escaped: ch == '\\' && !escaped }
                };
                prev_was_ws = false;
                idx = idx + 1;
            },
            StripState::Sq { escaped } => {
                *state = if !escaped && ch == '\'' {
                    StripState::Normal
                } else {
                    StripState::Sq { escaped: ch == '\\' && !escaped }
                };
                prev_was_ws = false;
                idx = idx + 1;
            },
            StripState::Raw { hashes } => {
                if ch == '"' && hashes <= total - idx - 1 && all_hashes_exec(line, idx + 1, idx + 1 + hashes) {
                    *state = StripState::Normal;
                    prev_was_ws = false;
                    idx = idx + hashes + 1;
                    continue;
                }
                prev_was_ws = false;
                idx = idx + 1;
            },
            StripState::TripleDq => {
                if matches_at(line, idx, &dq) {
                    *state = StripState::Normal;
                    prev_was_ws = false;
                    idx = idx + 3;
                    continue;
                }
                prev_was_ws = false;
                idx = idx + 1;
            },
            StripState::TripleSq => {
                if matches_at(line, idx, &sq) {
                    *state = StripState::Normal;
                    prev_was_ws = false;
                    idx = idx + 3;
                    continue;
                }
                prev_was_ws = false;
                idx = idx + 1;
            },
        }
    }
    None
}

/// `s[..end]` without its trailing spaces and tabs, appended to `out`.
fn push_trimmed_prefix(out: &mut Vec<char>, s: &Vec<char>, end: usize)
    requires
        end <= s.len(),
    ensures
        final(out)@ == old(out)@ + trim_space_tab_end(s@.subrange(0, end as int)),
{
    let mut e = end;
    while e > 0 && (s[e - 1] == ' ' || s[e - 1] == '\t')
        invariant
            e <= end <= s.len(),
            trim_space_tab_end(s@.subrange(0, end as int)) == trim_space_tab_end(s@.subrange(0, e as int)),
        decreases e,
    {
        assert(s@.subrange(0, e as int).drop_last() =~= s@.subrange(0, e - 1));
        e = e - 1;
    }
    let ghost o = out@;
    let mut i: usize = 0;
    while i < e
        invariant
            i <= e <= s.len(),
            out@ == o + s@.subrange(0, i as int),
        decreases e - i,
    {
        out.push(s[i]);
        i = i + 1;
        assert(out@ =~= o + s@.subrange(0, i as int));
    }
}

/// Processes one line: appends what it contributes to `out` and updates the state.
fn process_line(state: &mut StripState, line: &Vec<char>, prefixes: &Vec<Vec<char>>, out: &mut Vec<char>)
    ensures
        ({
            let (piece, s) = process_line_spec(line@, prefixes@.map_values(|v: Vec<char>| v@), *old(state));
            &&& *final(state) == s
            &&& final(out)@ == old(out)@ + piece
        }),
{
    match *state {
        StripState::Dq { .. } | StripState::Sq { .. } => {
            *state = StripState::Normal;
        },
        _ => {},
    }
    let fnw = skip_ws_forward(line, 0, line.len());
    proof {
        lemma_lead_ws_len_is(line@, fnw as int);
    }
    if fnw < line.len() && *state == StripState::Normal && prefix_match_any(line, fnw, prefixes) {
        return;
    }
    let cut = scan_inline_cut(state, line, prefixes, fnw);
    let ghost o = out@;
    match cut {
        Some(c) => {
            push_trimmed_prefix(out, line, c);
        },
        None => {
            push_trimmed_prefix_all(out, line);
        },
    }
    out.push('\n');
    assert(out@ =~= o + (match cut {
        Some(c) => trim_space_tab_end(line@.subrange(0, c as int)),
        None => line@,
    }) + seq!['\n']);
}

/// Appends all of `s` to `out`.
fn push_trimmed_prefix_all(out: &mut Vec<char>, s: &Vec<char>)
    ensures
        final(out)@ == old(out)@ + s@,
{
    let ghost o = out@;
    let mut i: usize = 0;
    while i < s.len()
        invariant
            i <= s.len(),
            out@ == o + s@.subrange(0, i as int),
        decreases s.len() - i,
    {
        out.push(s[i]);
        i = i + 1;
        assert(out@ =~= o + s@.subrange(0, i as int));
    }
    assert(s@.subrange(0, s.len() as int) =~= s@);
}

/// Removes comment lines and trailing comments that start with one of `prefixes`.
///
/// A line whose first non-whitespace text starts with a prefix is dropped entirely
/// (outside a raw or triple-quoted block). Elsewhere a prefix starts a trailing comment
/// only outside quotes and right after whitespace; the comment and the spaces or tabs
/// before it are removed. Every kept line ends with a newline. Quote state carries over
/// to the next line for raw strings and triple-quoted blocks, not for `"`/`'` strings.
/// Empty prefixes never match; with no prefixes at all the text is returned unchanged.
pub fn strip_lines_and_inline_comments(contents: &str, prefixes: &[String]) -> (res: String)
    ensures
        res@ == strip_comments_spec(contents@, prefixes@.map_values(|s: String| s@)),
{
    if prefixes.len() == 0 {
        return contents.to_owned();
    }
    let mut pv: Vec<Vec<char>> = Vec::new();
    let mut j: usize = 0;
    while j < prefixes.len()
        invariant
            j <= prefixes.len(),
            pv@.map_values(|v: Vec<char>| v@) == prefixes@.map_values(|s: String| s@).subrange(0, j as int),
        decreases prefixes.len() - j,
    {
        let c = chars_of(prefixes[j].as_str());
        assert(c@ == prefixes@[j as int]@);
        let ghost p0 = pv@.map_values(|v: Vec<char>| v@);
        pv.push(c);
        assert(pv@.map_values(|v: Vec<char>| v@) =~= p0.push(c@));
        assert(prefixes@.map_values(|s: String| s@).subrange(0, j + 1) =~= prefixes@.map_values(|s: String| s@).subrange(0, j as int).push(prefixes@[j as int]@));
        j = j + 1;
        assert(pv@.map_values(|v: Vec<char>| v@) =~= prefixes@.map_values(|s: String| s@).subrange(0, j as int));
    }
    assert(prefixes@.map_values(|s: String| s@).subrange(0, j as int) =~= prefixes@.map_values(|s: String| s@));
    let ghost pfx = pv@.map_values(|v: Vec<char>| v@);
    let cs = chars_of(contents);
    let lines = lines_of(&cs);
    let ghost ls = lines_spec(contents@);
    let mut out: Vec<char> = Vec::new();
    let mut state = StripState::Normal;
 let mut i: usize = 0;
    assert(ls.subrange(0, ls.len() as int) =~= ls);
    assert(out@ =~= Seq::<char>::empty());
    while i < lines.len()
        invariant
            i <= lines.len(),
            lines@.map_values(|v: Vec<char>| v@) == ls,
            pfx == pv@.map_values(|v: Vec<char>| v@),
            out@ + strip_lines_from(ls.subrange(i as int, ls.len() as int), pfx, state) == strip_lines_from(ls, pfx, StripState::Normal),
        decreases lines.len() - i,
    {
        assert(lines@[i as int]@ == ls[i as int]) by {
            assert(lines@.map_values(|v: Vec<char>| v@)[i as int] == lines@[i as int]@);
        }
        let ghost rest = ls.subrange(i as int, ls.len() as int);
        let ghost st0 = state;
        let ghost o = out@;
        assert(rest[0] == ls[i as int]);
        assert(rest.drop_first() =~= ls.subrange(i + 1, ls.len() as int));
        process_line(&mut state, &lines[i], &pv, &mut out);
        assert(out@ + strip_lines_from(ls.subrange(i + 1, ls.len() as int), pfx, state) =~= o + strip_lines_from(rest, pfx, st0));
        i = i + 1;
    }
    assert(ls.subrange(i as int, ls.len() as int).len() == 0);
    assert(ls.subrange(0, ls.len() as int) =~= ls);
    assert(out@ =~= strip_lines_from(ls, pfx, StripState::Normal));
    string_of(out.as_slice())
}

/* ------------------------------ laws ------------------------------ */

/// Whether `p` and `q` hold the same non-empty prefixes.
pub open spec fn same_nonempty_prefixes(p: Seq<Seq<char>>, q: Seq<Seq<char>>) -> bool {
    forall|x: Seq<char>| x.len() > 0 ==> (p.contains(x) <==> q.contains(x))
}

proof fn lemma_any_prefix_same(line: Seq<char>, at: int, p: Seq<Seq<char>>, q: Seq<Seq<char>>)
    requires
        same_nonempty_prefixes(p, q),
    ensures
        any_prefix_at(line, at, p) == any_prefix_at(line, at, q),
{
    if any_prefix_at(line, at, p) {
        let i = choose|i: int| 0 <= i < p.len() && p[i].len() > 0 && occurs_at(line, at, #[trigger] p[i]);
        assert(p.contains(p[i]));
        let j = q.index_of(p[i]);
        assert(q[j] == p[i]);
    }
    if any_prefix_at(line, at, q) {
        let j = choose|j: int| 0 <= j < q.len() && q[j].len() > 0 && occurs_at(line, at, #[trigger] q[j]);
        assert(q.contains(q[j]));
        let i = p.index_of(q[j]);
        assert(p[i] == q[j]);
    }
}

proof fn lemma_scan_same(
    line: Seq<char>,
    p: Seq<Seq<char>>,
    q: Seq<Seq<char>>,
    fnw: int,
    st: StripState,
    idx: int,
    prev_ws: bool,
)
    requires
        same_nonempty_prefixes(p, q),
    ensures
        scan_spec(line, p, fnw, st, idx, prev_ws) == scan_spec(line, q, fnw, st, idx, prev_ws),
    decreases line.len() - idx,
{
    if idx < 0 || idx >= line.len() {
    } else {
        let ch = line[idx];
        match st {
            StripState::Normal => {
                if occurs_at(line, idx, dq3()) {
                    lemma_scan_same(line, p, q, fnw, StripState::TripleDq, idx + 3, false);
                } else if occurs_at(line, idx, sq3()) {
                    lemma_scan_same(line, p, q, fnw, StripState::TripleSq, idx + 3, false);
                } else if raw_opens_at(line, idx) {
                    let h = count_hashes(line, idx + 1);
                    lemma_scan_same(line, p, q, fnw, StripState::Raw { hashes: h as usize }, idx + h + 2, false);
                } else if ch == '"' {
                    lemma_scan_same(line, p, q, fnw, StripState::Dq { escaped: false }, idx + 1, false);
                } else if ch == '\'' {
                    lemma_scan_same(line, p, q, fnw, StripState::Sq { escaped: false }, idx + 1, false);
                } else {
                    lemma_any_prefix_same(line, idx, p, q);
                    lemma_scan_same(line, p, q, fnw, StripState::Normal, idx + 1, is_ws(ch));
                }
            },
            StripState::Dq { escaped } => {
                let next = if !escaped && ch == '"' {
                    StripState::Normal
                } else {
                    StripState::Dq { escaped: ch == '\\' && !escaped }
                };
                lemma_scan_same(line, p, q, fnw, next, idx + 1, false);
            },
            StripState::Sq { escaped } => {
                let next = if !escaped && ch == '\'' {
                    StripState::Normal
                } else {
                    StripState::Sq { escaped: ch == '\\' && !escaped }
                };
                lemma_scan_same(line, p, q, fnw, next, idx + 1, false);
            },
            StripState::Raw { hashes } => {
                if ch == '"' && idx + 1 + hashes <= line.len() && all_hashes(line, idx + 1, idx + 1 + hashes) {
                    lemma_scan_same(line, p, q, fnw, StripState::Normal, idx + hashes + 1, false);
                } else {
                    lemma_scan_same(line, p, q, fnw, st, idx + 1, false);
                }
            },
            StripState::TripleDq => {
                if occurs_at(line, idx, dq3()) {
                    lemma_scan_same(line, p, q, fnw, StripState::Normal, idx + 3, false);
                } else {
                    lemma_scan_same(line, p, q, fnw, st, idx + 1, false);
                }
            },
            StripState::TripleSq => {
                if occurs_at(line, idx, sq3()) {
                    lemma_scan_same(line, p, q, fnw, StripState::Normal, idx + 3, false);
                } else {
                    lemma_scan_same(line, p, q, fnw, st, idx + 1, false);
                }
            },
        }
    }
}

proof fn lemma_strip_lines_same(ls: Seq<Seq<char>>, p: Seq<Seq<char>>, q: Seq<Seq<char>>, st: StripState)
    requires
        same_nonempty_prefixes(p, q),
    ensures
        strip_lines_from(ls, p, st) == strip_lines_from(ls, q, st),
    decreases ls.len(),
{
    if ls.len() > 0 {
        let line = ls[0];
        let st1 = match st {
            StripState::Dq { .. } | StripState::Sq { .. } => StripState::Normal,
            _ => st,
        };
        let fnw = lead_ws_len(line);
        lemma_any_prefix_same(line, fnw, p, q);
        lemma_scan_same(line, p, q, fnw, st1, 0, false);
        assert(process_line_spec(line, p, st) == process_line_spec(line, q, st));
        let (_, st2) = process_line_spec(line, p, st);
        lemma_strip_lines_same(ls.drop_first(), p, q, st2);
    }
}

/// Only the non-empty prefixes of a non-empty list matter: two non-empty lists with the
/// same non-empty prefixes strip every text alike. So empty entries are ignored, and so
/// are the order and the repetition of the entries.
pub proof fn lemma_strip_ignores_empty_prefixes(contents: Seq<char>, p: Seq<Seq<char>>, q: Seq<Seq<char>>)
    requires
        p.len() > 0,
        q.len() > 0,
        same_nonempty_prefixes(p, q),
    ensures
        strip_comments_spec(contents, p) == strip_comments_spec(contents, q),
{
    lemma_strip_lines_same(lines_spec(contents), p, q, StripState::Normal);
}

} // verus!
