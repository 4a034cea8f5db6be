//! Comment removal for Slint sources.
use crate::chars::{chars_of, occurs_at, string_of};
use crate::paths::{extension_spec, path_extension};
use vstd::prelude::*;

verus! {

/// Which Slint comments to remove.
#[derive(Clone, Copy, Debug)]
pub struct SlintFilterOptions {
    pub remove_line_comments: bool,
    pub remove_block_comments: bool,
}

impl Default for SlintFilterOptions {
    fn default() -> (res: Self)
        ensures
            !res.remove_line_comments,
            !res.remove_block_comments,
    {
        SlintFilterOptions { remove_line_comments: false, remove_block_comments: false }
    }
}

/// Whether a path's extension is exactly `slint` (case-sensitive).
pub open spec fn is_slint_path_spec(path: Seq<char>) -> bool {
    extension_spec(path) == Some(seq!['s', 'l', 'i', 'n', 't'])
}

/// Whether the path names a Slint source: its extension is exactly `slint`.
pub fn is_slint_file_path(path: &str) -> (b: bool)
    ensures
        b == is_slint_path_spec(path@),
{
    let ext = path_extension(path);
    match ext {
        Some(e) => {
            let want = vec!['s', 'l', 'i', 'n', 't'];
            let r = crate::chars::chars_eq(&e, &want);
            assert(want@ =~= seq!['s', 'l', 'i', 'n', 't']);
            r
        },
        None => false,
    }
}

/// The lexical mode of the Slint scanner.
#[derive(Clone, Copy, PartialEq, Eq, Structural)]
pub enum SlintMode {
    Code,
    Block,
    Dq { escaped: bool },
    Sq { escaped: bool },
}

/// Index of the first `\n` in `s` at or after `from`, or `s.len()` when there is none.
pub open spec fn next_newline(s: Seq<char>, from: int) -> int
    decreases s.len() - from,
{
    if from >= s.len() {
        s.len() as int
    } else if s[from] == '\n' {
        from
    } else {
        next_newline(s, from + 1)
    }
}

pub proof fn lemma_next_newline_bounds(s: Seq<char>, from: int)
    ensures
        next_newline(s, from) >= from || next_newline(s, from) == s.len(),
        next_newline(s, from) <= s.len() || next_newline(s, from) == from,
        next_newline(s, from) < s.len() ==> s[next_newline(s, from)] == '\n',
    decreases s.len() - from,
{
    if from < s.len() && s[from] != '\n' {
        lemma_next_newline_bounds(s, from + 1);
    }
}

pub open spec fn slash2() -> Seq<char> {
    seq!['/', '/']
}

pub open spec fn slash_star() -> Seq<char> {
    seq!['/', '*']
}

pub open spec fn star_slash() -> Seq<char> {
    seq!['*', '/']
}

/// The output produced from position `i` on, in mode `m`, with `lhc` telling whether the
/// current output line has content and `sup` whether the next newline is to be dropped
/// (set when a block comment closes on an otherwise empty line).
pub open spec fn slint_scan(
    s: Seq<char>,
    rl: bool,
    rb: bool,
    m: SlintMode,
    i: int,
    lhc: bool,
    sup: bool,
) -> Seq<char>
    decreases s.len() - i,
{
    if i < 0 || i >= s.len() {
        Seq::empty()
    } else {
        let ch = s[i];
        match m {
            SlintMode::Code => {
                if rl && occurs_at(s, i, slash2()) {
                    let j = next_newline(s, i + 2);
                    proof {
                        lemma_next_newline_bounds(s, i + 2);
                    }
                    if j < s.len() {
                        (if lhc {
                            seq!['\n']
                        } else {
                            Seq::empty()
                        }) + slint_scan(s, rl, rb, m, j + 1, false, false)
                    } else {
                        Seq::empty()
                    }
                } else if rb && occurs_at(s, i, slash_star()) {
                    slint_scan(s, rl, rb, SlintMode::Block, i + 2, lhc, sup)
                } else if ch == '"' {
                    seq!['"'] + slint_scan(s, rl, rb, SlintMode::Dq { escaped: false }, i + 1, true, sup)
                } else if ch == '\'' {
                    seq!['\''] + slint_scan(s, rl, rb, SlintMode::Sq { escaped: false }, i + 1, true, sup)
                } else if ch == '\n' {
                    if sup {
                        slint_scan(s, rl, rb, m, i + 1, false, false)
                    } else {
                        seq!['\n'] + slint_scan(s, rl, rb, m, i + 1, false, sup)
                    }
                } else {
                    seq![ch] + slint_scan(s, rl, rb, m, i + 1, true, sup)
                }
            },
            SlintMode::Block => {
                if occurs_at(s, i, star_slash()) {
                    slint_scan(s, rl, rb, SlintMode::Code, i + 2, lhc, if !lhc { true } else { sup })
                } else {
                    slint_scan(s, rl, rb, m, i + 1, lhc, sup)
                }
            },
            SlintMode::Dq { escaped } => {
                if escaped {
                    seq![ch] + slint_scan(s, rl, rb, SlintMode::Dq { escaped: false }, i + 1, ch != '\n', sup)
                } else if ch == '\\' {
                    seq![ch] + slint_scan(s, rl, rb, SlintMode::Dq { escaped: true }, i + 1, true, sup)
                } else if ch == '"' {
                    seq![ch] + slint_scan(s, rl, rb, SlintMode::Code, i + 1, true, sup)
                } else {
                    seq![ch] + slint_scan(s, rl, rb, m, i + 1, ch != '\n', sup)
                }
            },
            SlintMode::Sq { escaped } => {
                if escaped {
                    seq![ch] + slint_scan(s, rl, rb, SlintMode::Sq { escaped: false }, i + 1, ch != '\n', sup)
                } else if ch == '\\' {
                    seq![ch] + slint_scan(s, rl, rb, SlintMode::Sq { escaped: true }, i + 1, true, sup)
                } else if ch == '\'' {
                    seq![ch] + slint_scan(s, rl, rb, SlintMode::Code, i + 1, true, sup)
                } else {
                    seq![ch] + slint_scan(s, rl, rb, m, i + 1, ch != '\n', sup)
                }
            },
        }
    }
}

/// The source with the selected comments removed; unchanged when none is selected.
pub open spec fn slint_filter_spec(source: Seq<char>, opts: SlintFilterOptions) -> Seq<char> {
    if !(opts.remove_line_comments || opts.remove_block_comments) {
        source
    } else {
        slint_scan(source, opts.remove_line_comments, opts.remove_block_comments, SlintMode::Code, 0, false, false)
    }
}

fn at2(s: &Vec<char>, i: usize, a: char, b: char) -> (r: bool)
    requires
        i <= s.len(),
    ensures
        r == occurs_at(s@, i as int, seq![a, b]),
{
    if s.len() - i < 2 {
        return false;
    }
    let r = s[i] == a && s[i + 1] == b;
    assert(r == (s@.subrange(i as int, i + 2) =~= seq![a, b]));
    r
}

/// Removes `//` line comments and/or `/* */` block comments (not nested) from Slint
/// source, leaving string literals intact. A line comment's newline is kept only when the
/// line had content before it. When a block comment closes on a line with nothing before
/// it, the next newline outside string literals (and outside a line comment) is dropped,
/// even when text follows the comment on that line: `/* c */ x\ny` gives ` xy`.
#[verifier::rlimit(60)]
pub fn apply_slint_filters(source: &str, opts: &SlintFilterOptions) -> (res: String)
    ensures
        res@ == slint_filter_spec(source@, *opts),
{
    if !(opts.remove_line_comments || opts.remove_block_comments) {
        return source.to_owned();
    }
    let rl = opts.remove_line_comments;
    let rb = opts.remove_block_comments;
    let s = chars_of(source);
    let n = s.len();
    let ghost goal = slint_scan(s@, rl, rb, SlintMode::Code, 0, false, false);
    let mut out: Vec<char> = Vec::new();
    let mut i: usize = 0;
    let mut m = SlintMode::Code;
    let mut lhc = false;
    let mut sup = false;
    while i < n
        invariant
            n == s.len(),
            i <= n,
            goal == slint_scan(s@, rl, rb, SlintMode::Code, 0, false, false),
            out@ + slint_scan(s@, rl, rb, m, i as int, lhc, sup) == goal,
        decreases n - i,
    {
        let ghost o = out@;
        let ch = s[i];
        match m {
            SlintMode::Code => {
                if rl && at2(&s, i, '/', '/') {
                    let mut j = i + 2;
                    while j < n && s[j] != '\n'
                        invariant
                            i + 2 <= j <= n,
                            n == s.len(),
                            next_newline(s@, i + 2) == next_newline(s@, j as int),
                        decreases n - j,
                    {
                        j = j + 1;
                    }
                    assert(next_newline(s@, j as int) == j);
                    if j < n {
                        if lhc {
                            out.push('\n');
                        }
                        assert(out@ =~= o + (if lhc {
                            seq!['\n']
                        } else {
                            Seq::<char>::empty()
                        }));
                        i = j + 1;
                        lhc = false;
                        sup = false;
                    } else {
                        i = j;
                        assert(out@ =~= o + Seq::<char>::empty());
                    }
                    continue;
                }
                if rb && at2(&s, i, '/', '*') {
                    i = i + 2;
                    m = SlintMode::Block;
                    continue;
                }
                if ch == '"' {
                    out.push('"');
                    i = i + 1;
                    m = SlintMode::Dq { escaped: false };
                    lhc = true;
                    assert(out@ =~= o + seq!['"']);
                    continue;
                }
                if ch == '\'' {
                    out.push('\'');
                    i = i + 1;
                    m = SlintMode::Sq { escaped: false };
                    lhc = true;
                    assert(out@ =~= o + seq!['\'']);
                    continue;
                }
                if ch == '\n' {
                    if sup {
                        sup = false;
                        lhc = false;
                        i = i + 1;
                        continue;
                    }
                    out.push('\n');
                    lhc = false;
                } else {
                    out.push(ch);
                    lhc = true;
                }
                i = i + 1;
                assert(out@ =~= o + seq![ch]);
            },
            SlintMode::Block => {
                if at2(&s, i, '*', '/') {
                    i = i + 2;
                    m = SlintMode::Code;
                    if !lhc {
                        sup = true;
                    }
                    continue;
                }
                i = i + 1;
            },
            SlintMode::Dq { escaped } => {
                out.push(ch);
                i = i + 1;
                assert(out@ =~= o + seq![ch]);
                if escaped {
                    m = SlintMode::Dq { escaped: false };
                    lhc = ch != '\n';
                } else if ch == '\\' {
                    m = SlintMode::Dq { escaped: true };
                    lhc = true;
                } else if ch == '"' {
                    m = SlintMode::Code;
                    lhc = true;
                } else {
                    lhc = ch != '\n';
                }
            },
            SlintMode::Sq { escaped } => {
                out.push(ch);
                i = i + 1;
                assert(out@ =~= o + seq![ch]);
                if escaped {
                    m = SlintMode::Sq { escaped: false };
                    lhc = ch != '\n';
                } else if ch == '\\' {
                    m = SlintMode::Sq { escaped: true };
                    lhc = true;
                } else if ch == '\'' {
                    m = SlintMode::Code;
                    lhc = true;
                } else {
                    lhc = ch != '\n';
                }
            },
        }
    }
    assert(out@ =~= goal);
    string_of(out.as_slice())
}

} // verus!
