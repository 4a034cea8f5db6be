//! Reduction of Rust source text to function signatures: each `fn` item with a body is
//! replaced by its signature followed by `;` and a newline; comments, string, character
//! and raw-string literals are skipped while searching. Text between functions is kept.
use crate::chars::{chars_of, string_of, trim};
use crate::slint_filters::{lemma_next_newline_bounds, next_newline};
use crate::strip::{count_hashes, hashes_from};
use vstd::prelude::*;

verus! {

/// Whether `c` is ASCII whitespace (space, tab, line feed, form feed, carriage return).
pub open spec fn is_ascii_ws(c: char) -> bool {
    c == ' ' || c == '\t' || c == '\n' || c == '\x0C' || c == '\r'
}

/// Whether `c` can be part of an identifier: `_` or an ASCII letter or digit.
pub open spec fn is_ident_char(c: char) -> bool {
    c == '_' || ('0' <= c && c <= '9') || ('a' <= c && c <= 'z') || ('A' <= c && c <= 'Z')
}

/// Whether `a`, `b` stand at `i` and `i + 1`.
pub open spec fn pair_at(s: Seq<char>, i: int, a: char, b: char) -> bool {
    0 <= i && i + 1 < s.len() && s[i] == a && s[i + 1] == b
}

/// The index after a line comment whose text starts at `idx`: past its newline, or the end.
pub open spec fn skip_line(s: Seq<char>, idx: int) -> int {
    let j = next_newline(s, idx);
    if j < s.len() {
        j + 1
    } else {
        j
    }
}

/// The index after a block comment whose text starts at `idx`, at nesting `depth`.
pub open spec fn skip_block(s: Seq<char>, idx: int, depth: nat) -> int
    decreases s.len() - idx,
{
    if idx + 1 < s.len() && depth > 0 {
        if pair_at(s, idx, '/', '*') {
            skip_block(s, idx + 2, depth + 1)
        } else if pair_at(s, idx, '*', '/') {
            if depth == 1 {
                if idx + 2 < s.len() { idx + 2 } else { s.len() as int }
            } else {
                skip_block(s, idx + 2, (depth - 1) as nat)
            }
        } else {
            skip_block(s, idx + 1, depth)
        }
    } else if idx < s.len() {
        idx
    } else {
        s.len() as int
    }
}

/// The index after a quoted literal that continues at `c` (with a pending escape when
/// `esc`), closed by `q`; the end when it does not close.
pub open spec fn scan_quoted(s: Seq<char>, c: int, esc: bool, q: char) -> int
    decreases s.len() - c,
{
    if c >= s.len() {
        c
    } else if !esc && s[c] == q {
        c + 1
    } else {
        scan_quoted(s, c + 1, s[c] == '\\' && !esc, q)
    }
}

/// The index after the literal that the quote `q` at `i` opens.
pub open spec fn scan_str(s: Seq<char>, i: int, q: char) -> int {
    scan_quoted(s, i + 1, false, q)
}

/// The index after the `"` at or after `c` that is followed by `h` `#`, and those `#`; the
/// end when there is none.
pub open spec fn raw_close(s: Seq<char>, c: int, h: nat) -> int
    decreases s.len() - c,
{
    if c >= s.len() {
        c
    } else if s[c] == '"' && count_hashes(s, c + 1) >= h {
        c + 1 + h
    } else {
        raw_close(s, c + 1, h)
    }
}

/// The index after a raw string opening at the `r` at `i`; `i + 1` when none opens there.
pub open spec fn scan_raw(s: Seq<char>, i: int) -> int {
    let h = count_hashes(s, i + 1);
    let la = i + 1 + h;
    if la < s.len() && s[la] == '"' {
        raw_close(s, la + 1, h)
    } else {
        i + 1
    }
}

/// `e` moved back over the ASCII whitespace before it, but not before `start`.
pub open spec fn trim_sig_end(s: Seq<char>, start: int, e: int) -> int
    decreases e - start,
{
    if e > start && is_ascii_ws(s[e - 1]) {
        trim_sig_end(s, start, e - 1)
    } else {
        e
    }
}

/// Where a function's body opens, searching from `idx` with parenthesis depth `depth` for
/// the function whose `fn` stands at `fs`: the end of its signature (without the whitespace
/// before the brace) and the index of the brace; `None` when no body opens.
pub open spec fn locate_from(s: Seq<char>, fs: int, idx: int, depth: int) -> Option<(int, int)>
    decreases s.len() - idx,
{
    if idx < 0 || idx >= s.len() {
        None
    } else {
        proof {
            lemma_skip_bounds(s, idx);
        }
        if pair_at(s, idx, '/', '/') {
            locate_from(s, fs, skip_line(s, idx + 2), depth)
        } else if pair_at(s, idx, '/', '*') {
            locate_from(s, fs, skip_block(s, idx + 2, 1), depth)
        } else if s[idx] == '"' {
            locate_from(s, fs, scan_str(s, idx, '"'), depth)
        } else if s[idx] == '\'' {
            locate_from(s, fs, scan_str(s, idx, '\''), depth)
        } else if s[idx] == 'r' {
            locate_from(s, fs, scan_raw(s, idx), depth)
        } else if s[idx] == '(' {
            locate_from(s, fs, idx + 1, depth + 1)
        } else if s[idx] == ')' {
            locate_from(s, fs, idx + 1, depth - 1)
        } else if s[idx] == '{' && depth <= 0 {
            Some((trim_sig_end(s, fs, idx), idx))
        } else {
            locate_from(s, fs, idx + 1, depth)
        }
    }
}

/// The index after the body that continues at `idx` at brace depth `depth`.
pub open spec fn skip_body(s: Seq<char>, idx: int, depth: nat) -> int
    decreases s.len() - idx,
{
    if idx < 0 || idx >= s.len() || depth == 0 {
        idx
    } else {
        proof {
            lemma_skip_bounds(s, idx);
        }
        if pair_at(s, idx, '/', '/') {
            skip_body(s, skip_line(s, idx + 2), depth)
        } else if pair_at(s, idx, '/', '*') {
            skip_body(s, skip_block(s, idx + 2, 1), depth)
        } else if s[idx] == '"' {
            skip_body(s, scan_str(s, idx, '"'), depth)
        } else if s[idx] == '\'' {
            skip_body(s, scan_str(s, idx, '\''), depth)
        } else if s[idx] == 'r' {
            skip_body(s, scan_raw(s, idx), depth)
        } else if s[idx] == '{' {
            skip_body(s, idx + 1, depth + 1)
        } else if s[idx] == '}' {
            skip_body(s, idx + 1, (depth - 1) as nat)
        } else {
            skip_body(s, idx + 1, depth)
        }
    }
}

/// Whether the keyword `fn` stands at `i`, not inside a longer identifier.
pub open spec fn starts_fn(s: Seq<char>, i: int) -> bool {
    &&& pair_at(s, i, 'f', 'n')
    &&& (i == 0 || !is_ident_char(s[i - 1]))
    &&& (i + 2 >= s.len() || !is_ident_char(s[i + 2]))
}

/// One step of the reducer at `i` (with `i < s.len()`), where the text from `le` on is not
/// yet copied and `out` is the output so far: the next index, the next `le`, and the output.
pub open spec fn red_step(s: Seq<char>, i: int, le: int, out: Seq<char>) -> (int, int, Seq<char>) {
    if pair_at(s, i, '/', '/') {
        (skip_line(s, i + 2), le, out)
    } else if pair_at(s, i, '/', '*') {
        (skip_block(s, i + 2, 1), le, out)
    } else if s[i] == '"' {
        (scan_str(s, i, '"'), le, out)
    } else if s[i] == '\'' {
        (scan_str(s, i, '\''), le, out)
    } else if s[i] == 'r' {
        (scan_raw(s, i), le, out)
    } else if starts_fn(s, i) {
        match locate_from(s, i, i + 2, 0) {
            Some(bounds) => {
                let be = skip_body(s, bounds.1 + 1, 1);
                (be, be, out + s.subrange(le, bounds.0) + seq![';', '\n'])
            },
            None => (i + 2, le, out),
        }
    } else {
        (i + 1, le, out)
    }
}

/// The reducer's output from `i`, with the text from `le` on not yet copied and output
/// `out` so far; at the end the rest is copied unless it is all whitespace.
pub open spec fn red_run(s: Seq<char>, i: int, le: int, out: Seq<char>) -> Seq<char>
    decreases s.len() - i,
{
    if i < 0 || i >= s.len() {
        let tail = s.subrange(le, s.len() as int);
        if trim(tail).len() == 0 {
            out
        } else {
            out + tail
        }
    } else {
        let r = red_step(s, i, le, out);
        proof {
            lemma_red_step_advances(s, i, le, out);
        }
        red_run(s, r.0, r.1, r.2)
    }
}

/// `s` with each function body replaced as described in the module documentation.
pub open spec fn signatures_only(s: Seq<char>) -> Seq<char> {
    red_run(s, 0, 0, Seq::empty())
}

/* ------------------------------- bounds ------------------------------- */

pub proof fn lemma_count_hashes_bounds(s: Seq<char>, from: int)
    requires
        0 <= from <= s.len(),
    ensures
        from + count_hashes(s, from) <= s.len(),
        forall|k: int| from <= k < from + count_hashes(s, from) ==> s[k] == '#',
    decreases s.len() - from,
{
    if from < s.len() && s[from] == '#' {
        lemma_count_hashes_bounds(s, from + 1);
    }
}

pub proof fn lemma_skip_block_bounds(s: Seq<char>, idx: int, depth: nat)
    requires
        0 <= idx <= s.len(),
    ensures
        idx <= skip_block(s, idx, depth) <= s.len(),
    decreases s.len() - idx,
{
    if idx + 1 < s.len() && depth > 0 {
        if pair_at(s, idx, '/', '*') {
            lemma_skip_block_bounds(s, idx + 2, depth + 1);
        } else if pair_at(s, idx, '*', '/') {
            if depth != 1 {
                lemma_skip_block_bounds(s, idx + 2, (depth - 1) as nat);
            }
        } else {
            lemma_skip_block_bounds(s, idx + 1, depth);
        }
    }
}

pub proof fn lemma_scan_quoted_bounds(s: Seq<char>, c: int, esc: bool, q: char)
    requires
        0 <= c <= s.len(),
    ensures
        c <= scan_quoted(s, c, esc, q) <= s.len(),
    decreases s.len() - c,
{
    if c < s.len() && !(!esc && s[c] == q) {
        lemma_scan_quoted_bounds(s, c + 1, s[c] == '\\' && !esc, q);
    }
}

pub proof fn lemma_raw_close_bounds(s: Seq<char>, c: int, h: nat)
    requires
        0 <= c <= s.len(),
    ensures
        c <= raw_close(s, c, h) <= s.len(),
    decreases s.len() - c,
{
    if c < s.len() {
        if s[c] == '"' && count_hashes(s, c + 1) >= h {
            lemma_count_hashes_bounds(s, c + 1);
        } else {
            lemma_raw_close_bounds(s, c + 1, h);
        }
    }
}

/// Each scanner started at `idx` (with `idx < s.len()`) ends after `idx` and within `s`.
pub proof fn lemma_skip_bounds(s: Seq<char>, idx: int)
    requires
        0 <= idx < s.len(),
    ensures
        pair_at(s, idx, '/', '/') ==> idx + 2 <= skip_line(s, idx + 2) <= s.len(),
        pair_at(s, idx, '/', '*') ==> idx + 2 <= skip_block(s, idx + 2, 1) <= s.len(),
        idx < scan_str(s, idx, '"') <= s.len(),
        idx < scan_str(s, idx, '\'') <= s.len(),
        idx < scan_raw(s, idx) <= s.len(),
{
    if pair_at(s, idx, '/', '/') {
        lemma_next_newline_bounds(s, idx + 2);
    }
    if pair_at(s, idx, '/', '*') {
        lemma_skip_block_bounds(s, idx + 2, 1);
    }
    lemma_scan_quoted_bounds(s, idx + 1, false, '"');
    lemma_scan_quoted_bounds(s, idx + 1, false, '\'');
    lemma_count_hashes_bounds(s, idx + 1);
    let h = count_hashes(s, idx + 1);
    if idx + 1 + h < s.len() && s[idx + 1 + h] == '"' {
        lemma_raw_close_bounds(s, idx + 2 + h, h);
    }
}

pub proof fn lemma_trim_sig_end_bounds(s: Seq<char>, start: int, e: int)
    requires
        start <= e,
    ensures
        start <= trim_sig_end(s, start, e) <= e,
    decreases e - start,
{
    if e > start && is_ascii_ws(s[e - 1]) {
        lemma_trim_sig_end_bounds(s, start, e - 1);
    }
}

pub proof fn lemma_locate_bounds(s: Seq<char>, fs: int, idx: int, depth: int)
    requires
        0 <= fs <= idx,
    ensures
        locate_from(s, fs, idx, depth) matches Some(r) ==> fs <= r.0 <= r.1 && idx <= r.1 < s.len(),
    decreases s.len() - idx,
{
    if 0 <= idx < s.len() {
        lemma_skip_bounds(s, idx);
        if pair_at(s, idx, '/', '/') {
            lemma_locate_bounds(s, fs, skip_line(s, idx + 2), depth);
        } else if pair_at(s, idx, '/', '*') {
            lemma_locate_bounds(s, fs, skip_block(s, idx + 2, 1), depth);
        } else if s[idx] == '"' {
            lemma_locate_bounds(s, fs, scan_str(s, idx, '"'), depth);
        } else if s[idx] == '\'' {
            lemma_locate_bounds(s, fs, scan_str(s, idx, '\''), depth);
        } else if s[idx] == 'r' {
            lemma_locate_bounds(s, fs, scan_raw(s, idx), depth);
        } else if s[idx] == '(' {
            lemma_locate_bounds(s, fs, idx + 1, depth + 1);
        } else if s[idx] == ')' {
            lemma_locate_bounds(s, fs, idx + 1, depth - 1);
        } else if s[idx] == '{' && depth <= 0 {
            lemma_trim_sig_end_bounds(s, fs, idx);
        } else {
            lemma_locate_bounds(s, fs, idx + 1, depth);
        }
    }
}

pub proof fn lemma_skip_body_bounds(s: Seq<char>, idx: int, depth: nat)
    requires
        0 <= idx <= s.len(),
    ensures
        idx <= skip_body(s, idx, depth) <= s.len(),
    decreases s.len() - idx,
{
    if idx < s.len() && depth > 0 {
        lemma_skip_bounds(s, idx);
        if pair_at(s, idx, '/', '/') {
            lemma_skip_body_bounds(s, skip_line(s, idx + 2), depth);
        } else if pair_at(s, idx, '/', '*') {
            lemma_skip_body_bounds(s, skip_block(s, idx + 2, 1), depth);
        } else if s[idx] == '"' {
            lemma_skip_body_bounds(s, scan_str(s, idx, '"'), depth);
        } else if s[idx] == '\'' {
            lemma_skip_body_bounds(s, scan_str(s, idx, '\''), depth);
        } else if s[idx] == 'r' {
            lemma_skip_body_bounds(s, scan_raw(s, idx), depth);
        } else if s[idx] == '{' {
            lemma_skip_body_bounds(s, idx + 1, depth + 1);
        } else if s[idx] == '}' {
            lemma_skip_body_bounds(s, idx + 1, (depth - 1) as nat);
        } else {
            lemma_skip_body_bounds(s, idx + 1, depth);
        }
    }
}

pub proof fn lemma_red_step_advances(s: Seq<char>, i: int, le: int, out: Seq<char>)
    requires
        0 <= i < s.len(),
    ensures
        i < red_step(s, i, le, out).0 <= s.len(),
        le <= i ==> red_step(s, i, le, out).1 <= red_step(s, i, le, out).0,
{
    lemma_skip_bounds(s, i);
    if starts_fn(s, i) && !pair_at(s, i, '/', '/') && !pair_at(s, i, '/', '*') {
        lemma_locate_bounds(s, i, i + 2, 0);
        if let Some(bounds) = locate_from(s, i, i + 2, 0) {
            lemma_skip_body_bounds(s, bounds.1 + 1, 1);
        }
    }
}

/* ------------------------------ execution ------------------------------ */

fn is_ident_exec(c: char) -> (b: bool)
    ensures
        b == is_ident_char(c),
{
    c == '_' || ('0' <= c && c <= '9') || ('a' <= c && c <= 'z') || ('A' <= c && c <= 'Z')
}

fn pair_at_exec(s: &Vec<char>, i: usize, a: char, b: char) -> (r: bool)
    ensures
        r == pair_at(s@, i as int, a, b),
{
    i < s.len() && s.len() - i >= 2 && s[i] == a && s[i + 1] == b
}

fn skip_line_exec(s: &Vec<char>, idx: usize) -> (r: usize)
    requires
        idx <= s@.len(),
    ensures
        r == skip_line(s@, idx as int),
{
    let mut j = idx;
    while j < s.len() && s[j] != '\n'
        invariant
            idx <= j <= s@.len(),
            next_newline(s@, j as int) == next_newline(s@, idx as int),
        decreases s@.len() - j,
    {
        j = j + 1;
    }
    if j < s.len() {
        j + 1
    } else {
        j
    }
}

fn skip_block_exec(s: &Vec<char>, idx: usize) -> (r: usize)
    requires
        idx <= s@.len(),
    ensures
        r == skip_block(s@, idx as int, 1),
{
    let n = s.len();
    let mut i = idx;
    let mut depth: usize = 1;
    while i < n && n - i >= 2 && depth > 0
        invariant
            idx <= i <= n,
            n == s@.len(),
            1 <= depth <= i + 1,
            skip_block(s@, i as int, depth as nat) == skip_block(s@, idx as int, 1),
        decreases n - i,
    {
        if s[i] == '/' && s[i + 1] == '*' {
            depth = depth + 1;
            i = i + 2;
        } else if s[i] == '*' && s[i + 1] == '/' {
            if depth == 1 {
                return if n - i > 2 { i + 2 } else { n };
            }
            depth = depth - 1;
            i = i + 2;
        } else {
            i = i + 1;
        }
    }
    if i < n {
        i
    } else {
        n
    }
}

fn scan_str_exec(s: &Vec<char>, i: usize, q: char) -> (r: usize)
    requires
        i < s@.len(),
    ensures
        r == scan_str(s@, i as int, q),
{
    let n = s.len();
    let mut c = i + 1;
    let mut esc = false;
    while c < n
        invariant
            i + 1 <= c <= s@.len(),
            n == s@.len(),
            scan_quoted(s@, c as int, esc, q) == scan_str(s@, i as int, q),
        decreases s@.len() - c,
    {
        let ch = s[c];
        if !esc && ch == q {
            return c + 1;
        }
        esc = ch == '\\' && !esc;
        c = c + 1;
    }
    c
}

/// Whether at least `h` consecutive `#` start at `from`.
fn hashes_at_least(s: &Vec<char>, from: usize, h: usize) -> (r: bool)
    requires
        from <= s@.len(),
    ensures
        r == (count_hashes(s@, from as int) >= h),
{
    let mut k: usize = from;
    while k - from < h && k < s.len() && s[k] == '#'
        invariant
            from <= k <= s@.len(),
            k - from <= h,
            count_hashes(s@, from as int) == (k - from) + count_hashes(s@, k as int),
        decreases h - (k - from),
    {
        k = k + 1;
    }
    k - from == h
}

fn scan_raw_exec(s: &Vec<char>, i: usize) -> (r: usize)
    requires
        i < s@.len(),
    ensures
        r == scan_raw(s@, i as int),
{
    let n = s.len();
    let h = hashes_from(s, i + 1);
    let la = i + 1 + h;
    if la < n && s[la] == '"' {
        let mut c = la + 1;
        while c < n
            invariant
                la + 1 <= c <= n,
                n == s@.len(),
                h == count_hashes(s@, i + 1),
                la == i + 1 + h,
                la < n,
                s@[la as int] == '"',
                raw_close(s@, c as int, h as nat) == raw_close(s@, la + 1, h as nat),
            decreases n - c,
        {
            if s[c] == '"' && hashes_at_least(s, c + 1, h) {
                proof {
                    lemma_count_hashes_bounds(s@, c + 1);
                }
                assert(raw_close(s@, c as int, h as nat) == c + 1 + h);
                assert(scan_raw(s@, i as int) == raw_close(s@, la + 1, h as nat));
                return c + 1 + h;
            }
            c = c + 1;
        }
        c
    } else {
        i + 1
    }
}

fn trim_sig_end_exec(s: &Vec<char>, start: usize, e: usize) -> (r: usize)
    requires
        start <= e <= s@.len(),
    ensures
        r == trim_sig_end(s@, start as int, e as int),
{
    let mut k = e;
    while k > start && (s[k - 1] == ' ' || s[k - 1] == '\t' || s[k - 1] == '\n' || s[k - 1] == '\x0C'
        || s[k - 1] == '\r')
        invariant
            start <= k <= e,
            e <= s@.len(),
            trim_sig_end(s@, start as int, k as int) == trim_sig_end(s@, start as int, e as int),
        decreases k - start,
    {
        k = k - 1;
    }
    k
}

fn locate_exec(s: &Vec<char>, fs: usize) -> (r: Option<(usize, usize)>)
    requires
        fs + 2 <= s@.len(),
    ensures
        match r {
            Some(b) => locate_from(s@, fs as int, fs + 2, 0) == Some((b.0 as int, b.1 as int)),
            None => locate_from(s@, fs as int, fs + 2, 0) is None,
        },
{
    let n = s.len();
    let mut idx = fs + 2;
    let mut opens: usize = 0;
    let mut closes: usize = 0;
    while idx < n
        invariant
            fs + 2 <= idx <= n,
            n == s@.len(),
            opens <= idx,
            closes <= idx,
            locate_from(s@, fs as int, idx as int, opens - closes) == locate_from(s@, fs as int, fs + 2, 0),
        decreases n - idx,
    {
        proof {
            lemma_skip_bounds(s@, idx as int);
        }
        if pair_at_exec(s, idx, '/', '/') {
            idx = skip_line_exec(s, idx + 2);
        } else if pair_at_exec(s, idx, '/', '*') {
            idx = skip_block_exec(s, idx + 2);
        } else if s[idx] == '"' {
            idx = scan_str_exec(s, idx, '"');
        } else if s[idx] == '\'' {
            idx = scan_str_exec(s, idx, '\'');
        } else if s[idx] == 'r' {
            idx = scan_raw_exec(s, idx);
        } else if s[idx] == '(' {
            opens = opens + 1;
            idx = idx + 1;
        } else if s[idx] == ')' {
            closes = closes + 1;
            idx = idx + 1;
        } else if s[idx] == '{' && opens <= closes {
            let e = trim_sig_end_exec(s, fs, idx);
            return Some((e, idx));
        } else {
            idx = idx + 1;
        }
    }
    None
}

fn skip_body_exec(s: &Vec<char>, idx: usize) -> (r: usize)
    requires
        1 <= idx <= s@.len(),
    ensures
        r == skip_body(s@, idx as int, 1),
{
    let n = s.len();
    let mut i = idx;
    let mut depth: usize = 1;
    while i < n && depth > 0
        invariant
            idx <= i <= n,
            n == s@.len(),
            depth <= i,
            skip_body(s@, i as int, depth as nat) == skip_body(s@, idx as int, 1),
        decreases n - i,
    {
        proof {
            lemma_skip_bounds(s@, i as int);
        }
        if pair_at_exec(s, i, '/', '/') {
            i = skip_line_exec(s, i + 2);
        } else if pair_at_exec(s, i, '/', '*') {
            i = skip_block_exec(s, i + 2);
        } else if s[i] == '"' {
            i = scan_str_exec(s, i, '"');
        } else if s[i] == '\'' {
            i = scan_str_exec(s, i, '\'');
        } else if s[i] == 'r' {
            i = scan_raw_exec(s, i);
        } else if s[i] == '{' {
            depth = depth + 1;
            i = i + 1;
        } else if s[i] == '}' {
            depth = depth - 1;
            i = i + 1;
        } else {
            i = i + 1;
        }
    }
    i
}

fn starts_fn_exec(s: &Vec<char>, i: usize) -> (b: bool)
    ensures
        b == starts_fn(s@, i as int),
{
    if !pair_at_exec(s, i, 'f', 'n') {
        return false;
    }
    let prev_ok = i == 0 || !is_ident_exec(s[i - 1]);
    let next_ok = s.len() - i <= 2 || !is_ident_exec(s[i + 2]);
    prev_ok && next_ok
}

fn push_range(out: &mut Vec<char>, s: &Vec<char>, from: usize, to: usize)
    requires
        from <= to <= s@.len(),
    ensures
        final(out)@ == old(out)@ + s@.subrange(from as int, to as int),
{
    let ghost o = out@;
    let mut k = from;
    while k < to
        invariant
            from <= k <= to <= s@.len(),
            out@ == o + s@.subrange(from as int, k as int),
        decreases to - k,
    {
        out.push(s[k]);
        k = k + 1;
        assert(out@ =~= o + s@.subrange(from as int, k as int));
    }
}

/// One step of the reducer; see [`red_step`].
fn red_step_exec(s: &Vec<char>, i: usize, le: usize, out: &mut Vec<char>) -> (res: (usize, usize))
    requires
        le <= i < s@.len(),
    ensures
        res.0 == red_step(s@, i as int, le as int, old(out)@).0,
        res.1 == red_step(s@, i as int, le as int, old(out)@).1,
        final(out)@ == red_step(s@, i as int, le as int, old(out)@).2,
{
    let n = s.len();
    proof {
        lemma_skip_bounds(s@, i as int);
    }
    if pair_at_exec(s, i, '/', '/') {
        (skip_line_exec(s, i + 2), le)
    } else if pair_at_exec(s, i, '/', '*') {
        (skip_block_exec(s, i + 2), le)
    } else if s[i] == '"' {
        (scan_str_exec(s, i, '"'), le)
    } else if s[i] == '\'' {
        (scan_str_exec(s, i, '\''), le)
    } else if s[i] == 'r' {
        (scan_raw_exec(s, i), le)
    } else if starts_fn_exec(s, i) {
        proof {
            lemma_locate_bounds(s@, i as int, i + 2, 0);
        }
        match locate_exec(s, i) {
            Some(bounds) => {
                proof {
                    lemma_skip_body_bounds(s@, bounds.1 + 1, 1);
                }
                push_range(out, s, le, bounds.0);
                out.push(';');
                out.push('\n');
                let be = skip_body_exec(s, bounds.1 + 1);
                (be, be)
            },
            None => (i + 2, le),
        }
    } else {
        assert(i < n);
        (i + 1, le)
    }
}

/// Replaces the body of every `fn` item by `;` and a newline, keeping the signature up to
/// its last non-whitespace character before the body's brace. Comments and string,
/// character and raw-string literals are skipped while searching; the text after the last
/// body is kept unless it is all whitespace.
pub fn transform_functions_to_signatures(src: &str) -> (res: String)
    ensures
        res@ == signatures_only(src@),
{
    let s = chars_of(src);
    let n = s.len();
    let mut out: Vec<char> = Vec::new();
    let mut i: usize = 0;
    let mut le: usize = 0;
    while i < n
        invariant
            le <= i <= n,
            n == s@.len(),
            s@ == src@,
            red_run(s@, i as int, le as int, out@) == signatures_only(s@),
        decreases n - i,
    {
        proof {
            lemma_red_step_advances(s@, i as int, le as int, out@);
        }
        let r = red_step_exec(&s, i, le, &mut out);
        i = r.0;
        le = r.1;
    }
    let t = crate::chars::trim_range(&s, le, n);
    if t.len() > 0 {
        push_range(&mut out, &s, le, n);
    }
    string_of(&out)
}

} // verus!
