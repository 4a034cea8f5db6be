//! Removal of ordinary and doc comments from Rust source text, aware of string, character
//! and raw-string literals and of nested block comments. The scan runs over the characters
//! of the source; every decision looks at ASCII characters only, and the characters it keeps
//! are copied unchanged.
use crate::chars::string_of;
use crate::strip::trim_space_tab_end;
use vstd::prelude::*;

verus! {

/// Where the comment scanner stands: in code, inside a block comment (whether it is being
/// removed, and how deeply nested it is), inside a string or character literal (with its
/// pending escape), or inside a raw string with its number of `#`.
#[derive(Clone, Copy, PartialEq, Eq, Structural, Debug)]
pub enum CommentState {
    Code,
    Block { remove: bool, depth: usize },
    Dq { escaped: bool },
    Sq { escaped: bool },
    Raw { hashes: usize },
}

/// Index of the first newline in `b` at or after `from`, or `b.len()` when there is none.
pub open spec fn next_newline_at(b: Seq<char>, from: int) -> int
    decreases b.len() - from,
{
    if from >= b.len() {
        b.len() as int
    } else if from >= 0 && b[from] == '\n' {
        from
    } else {
        next_newline_at(b, from + 1)
    }
}

/// The number of consecutive `#` characters in `b` starting at `from`.
pub open spec fn count_hash_chars(b: Seq<char>, from: int) -> nat
    decreases b.len() - from,
{
    if 0 <= from < b.len() && b[from] == '#' {
        1 + count_hash_chars(b, from + 1)
    } else {
        0
    }
}


/// `h` characters `#`.
pub open spec fn hash_chars(h: nat) -> Seq<char> {
    Seq::new(h, |k: int| '#')
}

/// Whether a raw string (`r`, some `#`, then `"`) opens at index `i`.
pub open spec fn raw_string_opens(b: Seq<char>, i: int) -> bool {
    b[i] == 'r' && i + 1 + count_hash_chars(b, i + 1) < b.len() && b[i + 1 + count_hash_chars(b, i + 1)]
        == '"'
}

/// Whether the characters at `i` and `i + 1` are `x` and `y`.
pub open spec fn pair_at(b: Seq<char>, i: int, x: char, y: char) -> bool {
    i + 1 < b.len() && b[i] == x && b[i + 1] == y
}

/// One step of the scanner at index `i` (with `i < b.len()`) in state `st`, with output `out`
/// so far: the next state, the next index, and the output after the step.
pub open spec fn rm_step(b: Seq<char>, ri: bool, rd: bool, st: CommentState, i: int, out: Seq<char>) -> (
    CommentState,
    int,
    Seq<char>,
) {
    let n = b.len() as int;
    match st {
        CommentState::Code => {
            if pair_at(b, i, '/', '/') {
                let is_doc = i + 2 < n && (b[i + 2] == '/' || b[i + 2] == '!');
                let remove = if is_doc { rd } else { ri };
                let j = next_newline_at(b, i + 2);
                let o = if remove { trim_space_tab_end(out) } else { out + b.subrange(i, j) };
                if j < n {
                    (CommentState::Code, j + 1, o.push('\n'))
                } else {
                    (CommentState::Code, j, o)
                }
            } else if pair_at(b, i, '/', '*') {
                let is_doc = i + 2 < n && (b[i + 2] == '*' || b[i + 2] == '!');
                let remove = if is_doc { rd } else { ri };
                (
                    CommentState::Block { remove, depth: 1 },
                    i + 2,
                    if remove { out } else { out + seq!['/', '*'] },
                )
            } else if b[i] == '"' {
                (CommentState::Dq { escaped: false }, i + 1, out.push('"'))
            } else if b[i] == '\'' {
                (CommentState::Sq { escaped: false }, i + 1, out.push('\''))
            } else if raw_string_opens(b, i) {
                let h = count_hash_chars(b, i + 1);
                (CommentState::Raw { hashes: h as usize }, i + 2 + h, out + seq!['r'] + hash_chars(h) + seq!['"'])
            } else {
                (CommentState::Code, i + 1, out.push(b[i]))
            }
        },
        CommentState::Block { remove, depth } => {
            if pair_at(b, i, '/', '*') {
                (
                    CommentState::Block { remove, depth: (depth + 1) as usize },
                    i + 2,
                    if remove { out } else { out + seq!['/', '*'] },
                )
            } else if pair_at(b, i, '*', '/') {
                let d: usize = if depth > 0 { (depth - 1) as usize } else { 0 };
                let o = if remove { out } else { out + seq!['*', '/'] };
                if d == 0 {
                    let skip_nl = remove && i + 2 < n && b[i + 2] == '\n';
                    (CommentState::Code, if skip_nl { i + 3 } else { i + 2 }, o)
                } else {
                    (CommentState::Block { remove, depth: d }, i + 2, o)
                }
            } else {
                (st, i + 1, if remove { out } else { out.push(b[i]) })
            }
        },
        CommentState::Dq { escaped } => {
            let c = b[i];
            if !escaped && c == '"' {
                (CommentState::Code, i + 1, out.push(c))
            } else {
                (CommentState::Dq { escaped: c == '\\' && !escaped }, i + 1, out.push(c))
            }
        },
        CommentState::Sq { escaped } => {
            let c = b[i];
            if !escaped && c == '\'' {
                (CommentState::Code, i + 1, out.push(c))
            } else {
                (CommentState::Sq { escaped: c == '\\' && !escaped }, i + 1, out.push(c))
            }
        },
        CommentState::Raw { hashes } => {
            let c = b[i];
            if c == '"' && count_hash_chars(b, i + 1) >= hashes {
                (CommentState::Code, i + 1 + hashes, out.push(c) + hash_chars(hashes as nat))
            } else {
                (st, i + 1, out.push(c))
            }
        },
    }
}

/// The output of the scanner run from index `i` in state `st` with output `out` so far.
pub open spec fn rm_run(b: Seq<char>, ri: bool, rd: bool, st: CommentState, i: int, out: Seq<char>) -> Seq<char>
    decreases b.len() - i,
{
    if i < 0 || i >= b.len() {
        out
    } else {
        let r = rm_step(b, ri, rd, st, i, out);
        proof {
            lemma_rm_step_advances(b, ri, rd, st, i, out);
        }
        rm_run(b, ri, rd, r.0, r.1, r.2)
    }
}

/// The text `b` with ordinary comments removed when `ri`, and doc comments when `rd`.
pub open spec fn comments_removed(b: Seq<char>, ri: bool, rd: bool) -> Seq<char> {
    rm_run(b, ri, rd, CommentState::Code, 0, Seq::empty())
}

pub proof fn lemma_next_newline_at(b: Seq<char>, from: int)
    requires
        0 <= from <= b.len(),
    ensures
        from <= next_newline_at(b, from) <= b.len(),
        next_newline_at(b, from) < b.len() ==> b[next_newline_at(b, from)] == '\n',
        forall|k: int| from <= k < next_newline_at(b, from) ==> b[k] != '\n',
    decreases b.len() - from,
{
    if from < b.len() && b[from] != '\n' {
        lemma_next_newline_at(b, from + 1);
    }
}

pub proof fn lemma_count_hash_chars(b: Seq<char>, from: int)
    requires
        0 <= from <= b.len(),
    ensures
        from + count_hash_chars(b, from) <= b.len(),
        forall|k: int| from <= k < from + count_hash_chars(b, from) ==> b[k] == '#',
        from + count_hash_chars(b, from) < b.len() ==> b[from + count_hash_chars(b, from)] != '#',
    decreases b.len() - from,
{
    if from < b.len() && b[from] == '#' {
        lemma_count_hash_chars(b, from + 1);
    }
}

pub proof fn lemma_rm_step_advances(b: Seq<char>, ri: bool, rd: bool, st: CommentState, i: int, out: Seq<char>)
    requires
        0 <= i < b.len(),
    ensures
        i < rm_step(b, ri, rd, st, i, out).1 <= b.len(),
{
    if i + 1 < b.len() {
        lemma_next_newline_at(b, i + 2);
    }
    lemma_count_hash_chars(b, i + 1);
}

/// Bounds that the scanner's state keeps: a block depth or a raw string's `#` count is at
/// most the number of characters read.
pub open spec fn st_bounded(st: CommentState, i: int) -> bool {
    match st {
        CommentState::Block { depth, .. } => depth <= i,
        CommentState::Raw { hashes } => hashes <= i,
        _ => true,
    }
}

fn find_newline(b: &[char], from: usize) -> (j: usize)
    requires
        from <= b@.len(),
    ensures
        j == next_newline_at(b@, from as int),
{
    let mut j = from;
    while j < b.len() && b[j] != '\n'
        invariant
            from <= j <= b@.len(),
            next_newline_at(b@, j as int) == next_newline_at(b@, from as int),
        decreases b@.len() - j,
    {
        j = j + 1;
    }
    j
}

fn count_hash_exec(b: &[char], from: usize) -> (h: usize)
    requires
        from <= b@.len(),
    ensures
        h == count_hash_chars(b@, from as int),
{
    let mut j = from;
    while j < b.len() && b[j] == '#'
        invariant
            from <= j <= b@.len(),
            count_hash_chars(b@, from as int) == (j - from) + count_hash_chars(b@, j as int),
        decreases b@.len() - j,
    {
        j = j + 1;
    }
    j - from
}

/// Whether at least `h` consecutive `#` characters start at `from`.
fn hashes_at_least(b: &[char], from: usize, h: usize) -> (r: bool)
    requires
        from <= b@.len(),
    ensures
        r == (count_hash_chars(b@, from as int) >= h),
{
    let mut k: usize = from;
    while k - from < h && k < b.len() && b[k] == '#'
        invariant
            from <= k <= b@.len(),
            k - from <= h,
            count_hash_chars(b@, from as int) == (k - from) + count_hash_chars(b@, k as int),
        decreases h - (k - from),
    {
        k = k + 1;
    }
    k - from == h
}

fn push_chars_range(out: &mut Vec<char>, b: &[char], from: usize, to: usize)
    requires
        from <= to <= b@.len(),
    ensures
        final(out)@ == old(out)@ + b@.subrange(from as int, to as int),
{
    let ghost o = out@;
    let mut k = from;
    while k < to
        invariant
            from <= k <= to <= b@.len(),
            out@ == o + b@.subrange(from as int, k as int),
        decreases to - k,
    {
        out.push(b[k]);
        k = k + 1;
        assert(out@ =~= o + b@.subrange(from as int, k as int));
    }
}

fn push_hashes(out: &mut Vec<char>, h: usize)
    ensures
        final(out)@ == old(out)@ + hash_chars(h as nat),
{
    let ghost o = out@;
    let mut k: usize = 0;
    while k < h
        invariant
            k <= h,
            out@ == o + hash_chars(k as nat),
        decreases h - k,
    {
        out.push('#');
        k = k + 1;
        assert(out@ =~= o + hash_chars(k as nat));
    }
}

fn trim_space_tab_vec(out: &mut Vec<char>)
    ensures
        final(out)@ == trim_space_tab_end(old(out)@),
{
    while out.len() > 0 && (out[out.len() - 1] == ' ' || out[out.len() - 1] == '\t')
        invariant
            trim_space_tab_end(out@) == trim_space_tab_end(old(out)@),
        decreases out@.len(),
    {
        out.pop();
    }
}

/// One step of the scanner; see [`rm_step`].
fn rm_step_exec(b: &[char], ri: bool, rd: bool, st: CommentState, i: usize, out: &mut Vec<char>) -> (res: (
    CommentState,
    usize,
))
    requires
        i < b@.len(),
        st_bounded(st, i as int),
    ensures
        res.0 == rm_step(b@, ri, rd, st, i as int, old(out)@).0,
        res.1 == rm_step(b@, ri, rd, st, i as int, old(out)@).1,
        final(out)@ == rm_step(b@, ri, rd, st, i as int, old(out)@).2,
        st_bounded(res.0, res.1 as int),
        i < res.1 <= b@.len(),
{
    proof {
        lemma_rm_step_advances(b@, ri, rd, st, i as int, out@);
        lemma_count_hash_chars(b@, i + 1);
    }
    let n = b.len();
    match st {
        CommentState::Code => {
            if i + 1 < n && b[i] == '/' && b[i + 1] == '/' {
                let is_doc = i + 2 < n && (b[i + 2] == '/' || b[i + 2] == '!');
                let remove = if is_doc { rd } else { ri };
                let j = find_newline(b, i + 2);
                if remove {
                    trim_space_tab_vec(out);
                } else {
                    push_chars_range(out, b, i, j);
                }
                if j < n {
                    out.push('\n');
                    (CommentState::Code, j + 1)
                } else {
                    (CommentState::Code, j)
                }
            } else if i + 1 < n && b[i] == '/' && b[i + 1] == '*' {
                let is_doc = i + 2 < n && (b[i + 2] == '*' || b[i + 2] == '!');
                let remove = if is_doc { rd } else { ri };
                if !remove {
                    out.push('/');
                    out.push('*');
                }
                (CommentState::Block { remove, depth: 1 }, i + 2)
            } else if b[i] == '"' {
                out.push('"');
                (CommentState::Dq { escaped: false }, i + 1)
            } else if b[i] == '\'' {
                out.push('\'');
                (CommentState::Sq { escaped: false }, i + 1)
            } else {
                let h = if b[i] == 'r' { count_hash_exec(b, i + 1) } else { 0 };
                if b[i] == 'r' && i + 1 + h < n && b[i + 1 + h] == '"' {
                    out.push('r');
                    push_hashes(out, h);
                    out.push('"');
                    (CommentState::Raw { hashes: h }, i + 2 + h)
                } else {
                    out.push(b[i]);
                    (CommentState::Code, i + 1)
                }
            }
        },
        CommentState::Block { remove, depth } => {
            if i + 1 < n && b[i] == '/' && b[i + 1] == '*' {
                if !remove {
                    out.push('/');
                    out.push('*');
                }
                (CommentState::Block { remove, depth: depth + 1 }, i + 2)
            } else if i + 1 < n && b[i] == '*' && b[i + 1] == '/' {
                let d: usize = if depth > 0 { depth - 1 } else { 0 };
                if !remove {
                    out.push('*');
                    out.push('/');
                }
                if d == 0 {
                    if remove && i + 2 < n && b[i + 2] == '\n' {
                        (CommentState::Code, i + 3)
                    } else {
                        (CommentState::Code, i + 2)
                    }
                } else {
                    (CommentState::Block { remove, depth: d }, i + 2)
                }
            } else {
                if !remove {
                    out.push(b[i]);
                }
                (st, i + 1)
            }
        },
        CommentState::Dq { escaped } => {
            let c = b[i];
            out.push(c);
            if !escaped && c == '"' {
                (CommentState::Code, i + 1)
            } else {
                (CommentState::Dq { escaped: c == '\\' && !escaped }, i + 1)
            }
        },
        CommentState::Sq { escaped } => {
            let c = b[i];
            out.push(c);
            if !escaped && c == '\'' {
                (CommentState::Code, i + 1)
            } else {
                (CommentState::Sq { escaped: c == '\\' && !escaped }, i + 1)
            }
        },
        CommentState::Raw { hashes } => {
            let c = b[i];
            out.push(c);
            if c == '"' && hashes_at_least(b, i + 1, hashes) {
                push_hashes(out, hashes);
                (CommentState::Code, i + 1 + hashes)
            } else {
                (st, i + 1)
            }
        },
    }
}

/// Removes ordinary comments (`//`, `/* */`) when `remove_inline`, and doc comments (`///`,
/// `//!`, `/** */`, `/*! */`) when `remove_doc`, from Rust source text. A removed line
/// comment takes the spaces and tabs before it on its line too, and keeps its newline; a
/// removed block comment takes one newline right after it. Text inside string, character
/// and raw-string literals is kept as it is, and every kept character, non-ASCII ones
/// included, is copied unchanged.
pub fn remove_comments_textual(input: &str, remove_inline: bool, remove_doc: bool) -> (res: String)
    ensures
        res@ == comments_removed(input@, remove_inline, remove_doc),
{
    let cs = crate::chars::chars_of(input);
    let b = cs.as_slice();
    let mut out: Vec<char> = Vec::new();
    let mut st = CommentState::Code;
    let mut i: usize = 0;
    while i < b.len()
        invariant
            i <= b@.len(),
            b@ == input@,
            st_bounded(st, i as int),
            rm_run(b@, remove_inline, remove_doc, st, i as int, out@) == comments_removed(b@, remove_inline, remove_doc),
        decreases b@.len() - i,
    {
        let r = rm_step_exec(b, remove_inline, remove_doc, st, i, &mut out);
        st = r.0;
        i = r.1;
    }
    string_of(&out)
}

} // verus!
