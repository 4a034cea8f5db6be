//! The box-drawing file hierarchy: rendering a set of relative paths as a tree, and
//! reading such a tree back into the set of paths it shows.
use crate::chars::{
    append_chars, chars_lt, chars_of, compare_chars, is_whitespace_char, is_ws, join_chars,
    join_with, lines_of, lines_spec, skip_ws_backward, split_chars, split_on, string_of, trim,
    trim_end, trim_range,
};
use crate::text::StringSet;
use vstd::prelude::*;

verus! {

/// The box-drawing characters of the tree, plus whitespace: what may stand before a name.
pub open spec fn is_tree_glyph_or_ws(c: char) -> bool {
    c == '│' || c == '└' || c == '├' || c == '─' || is_ws(c)
}

/// Index of the first character of `line` that is neither a tree glyph nor whitespace,
/// or `line.len()` when there is none.
pub open spec fn name_start(line: Seq<char>) -> int
    decreases line.len(),
{
    if line.len() == 0 {
        0
    } else if is_tree_glyph_or_ws(line[0]) {
        1 + name_start(line.drop_first())
    } else {
        0
    }
}

/// What one body line of a hierarchy says: `None` for a line with no name, else the
/// nesting level (one per four characters before the name, after the first) and the name.
pub open spec fn line_entry(raw: Seq<char>) -> Option<(nat, Seq<char>)> {
    let line = trim_end(raw);
    let i = name_start(line);
    if line.len() == 0 || i >= line.len() {
        None
    } else {
        let level: nat = if i > 0 {
            ((i - 1) / 4) as nat
        } else {
            0
        };
        let name = trim(line.subrange(i, line.len() as int));
        if name.len() == 0 {
            None
        } else {
            Some((level, name))
        }
    }
}

/// The ancestor stack after an entry: cut to `level` entries, then the name pushed.
pub open spec fn stack_after(stack: Seq<Seq<char>>, level: nat, name: Seq<char>) -> Seq<Seq<char>> {
    (if stack.len() > level {
        stack.subrange(0, level as int)
    } else {
        stack
    }).push(name)
}

/// The paths named by the body lines `ls`, read with ancestor stack `stack`: each named
/// line contributes its ancestors and its name joined with `/`.
pub open spec fn hier_paths(ls: Seq<Seq<char>>, stack: Seq<Seq<char>>) -> Set<Seq<char>>
    decreases ls.len(),
{
    if ls.len() == 0 {
        Set::empty()
    } else {
        match line_entry(ls[0]) {
            None => hier_paths(ls.drop_first(), stack),
            Some((level, name)) => {
                let st2 = stack_after(stack, level, name);
                hier_paths(ls.drop_first(), st2).insert(join_with(st2, seq!['/']))
            },
        }
    }
}

/// The paths that a hierarchy text shows; `None` when it has no line at all (the first
/// line names the root and is not itself a path).
pub open spec fn parse_hierarchy_spec(text: Seq<char>) -> Option<Set<Seq<char>>> {
    let ls = lines_spec(text);
    if ls.len() == 0 {
        None
    } else {
        Some(hier_paths(ls.drop_first(), Seq::empty()))
    }
}

fn is_tree_glyph_or_ws_exec(c: char) -> (b: bool)
    ensures
        b == is_tree_glyph_or_ws(c),
{
    c == '│' || c == '└' || c == '├' || c == '─' || is_whitespace_char(c)
}

pub proof fn lemma_name_start_is(s: Seq<char>, k: int)
    requires
        0 <= k <= s.len(),
        forall|i: int| 0 <= i < k ==> is_tree_glyph_or_ws(#[trigger] s[i]),
        k < s.len() ==> !is_tree_glyph_or_ws(s[k]),
    ensures
        name_start(s) == k,
    decreases k,
{
    if k > 0 {
        assert forall|i: int| 0 <= i < k - 1 implies is_tree_glyph_or_ws(#[trigger] s.drop_first()[i]) by {
            assert(s.drop_first()[i] == s[i + 1]);
        }
        if k - 1 < s.len() - 1 {
            assert(s.drop_first()[k - 1] == s[k]);
        }
        lemma_name_start_is(s.drop_first(), k - 1);
    }
}

/// Reads one body line: its level and name, if it names anything.
fn read_line_entry(raw: &Vec<char>) -> (res: Option<(usize, Vec<char>)>)
    ensures
        match res {
            None => line_entry(raw@) is None,
            Some((lv, nm)) => line_entry(raw@) == Some((lv as nat, nm@)),
        },
{
    let end = skip_ws_backward(raw, 0, raw.len());
    proof {
        crate::chars::lemma_trim_end_of_range(raw@, 0, end as int, raw.len() as int);
        assert(raw@.subrange(0, raw.len() as int) =~= raw@);
    }
    let line = crate::chars::slice_to_vec(raw, 0, end);
    let mut i: usize = 0;
    while i < line.len() && is_tree_glyph_or_ws_exec(line[i])
        invariant
            i <= line.len(),
            forall|j: int| 0 <= j < i ==> is_tree_glyph_or_ws(#[trigger] line@[j]),
        decreases line.len() - i,
    {
        i = i + 1;
    }
    proof {
        lemma_name_start_is(line@, i as int);
    }
    if line.len() == 0 || i >= line.len() {
        return None;
    }
    let level: usize = if i > 0 {
        (i - 1) / 4
    } else {
        0
    };
    let name = trim_range(&line, i, line.len());
    if name.len() == 0 {
        return None;
    }
    Some((level, name))
}

/// Parses a box-drawing hierarchy (as rendered by `render_unicode_tree_from_paths`) into
/// the set of relative paths it shows, intermediate directories included. The first line
/// is the root and is skipped; lines without a name are ignored; `None` for empty text.
pub fn parse_hierarchy_text(text: &str) -> (res: Option<StringSet>)
    ensures
        match res {
            None => parse_hierarchy_spec(text@) is None,
            Some(set) => set.wf() && parse_hierarchy_spec(text@) == Some(set@),
        },
{
    let cs = chars_of(text);
    let lines = lines_of(&cs);
    let ghost ls = lines_spec(text@);
    if lines.len() == 0 {
        return None;
    }
    let ghost body = ls.drop_first();
    let mut paths = StringSet::new();
    let mut parts: Vec<Vec<char>> = Vec::new();
    let sep = vec!['/'];
    assert(sep@ =~= seq!['/']);
    let mut i: usize = 1;
    assert(ls.subrange(1, ls.len() as int) =~= body);
    assert(paths@.union(hier_paths(body, parts@.map_values(|v: Vec<char>| v@))) =~= hier_paths(
        body,
        Seq::empty(),
    )) by {
        assert(parts@.map_values(|v: Vec<char>| v@) =~= Seq::<Seq<char>>::empty());
    }
    while i < lines.len()
        invariant
            1 <= i <= lines.len(),
            lines@.map_values(|v: Vec<char>| v@) == ls,
            body == ls.drop_first(),
            sep@ == seq!['/'],
            paths.wf(),
            paths@.union(
                hier_paths(ls.subrange(i as int, ls.len() as int), parts@.map_values(|v: Vec<char>| v@)),
            ) == hier_paths(body, Seq::empty()),
        decreases lines.len() - i,
    {
        assert(lines@[i as int]@ == ls[i as int]) by {
            assert(lines@.map_values(|v: Vec<char>| v@)[i as int] == lines@[i as int]@);
        }
        let ghost rest = ls.subrange(i as int, ls.len() as int);
        assert(rest[0] == ls[i as int]);
        assert(rest.drop_first() =~= ls.subrange(i + 1, ls.len() as int));
        let ghost st0 = parts@.map_values(|v: Vec<char>| v@);
        let ghost p0 = paths@;
        match read_line_entry(&lines[i]) {
            None => {},
            Some((level, name)) => {
                if parts.len() > level {
                    parts.truncate(level);
                }
                parts.push(name);
                let ghost st2 = stack_after(st0, level as nat, name@);
                assert(parts@.map_values(|v: Vec<char>| v@) =~= st2);
                let rel = join_chars(&parts, &sep);
                let rs = string_of(rel.as_slice());
                paths.insert(rs);
                assert(paths@.union(hier_paths(rest.drop_first(), st2)) =~= p0.union(
                    hier_paths(rest.drop_first(), st2).insert(join_with(st2, seq!['/'])),
                ));
            },
        }
        i = i + 1;
    }
    assert(ls.subrange(i as int, ls.len() as int).len() == 0);
    assert(paths@ =~= hier_paths(body, Seq::empty()));
    Some(paths)
}


/* ------------------------------- rendering -------------------------------- */

/// The non-empty `/`-separated parts of a relative path.
pub open spec fn path_parts(p: Seq<char>) -> Seq<Seq<char>> {
    split_on(p, '/').filter(|x: Seq<char>| x.len() > 0)
}

/// The first parts of the non-empty part lists.
pub open spec fn heads_set(ps: Seq<Seq<Seq<char>>>) -> Set<Seq<char>> {
    Set::new(|h: Seq<char>| exists|i: int| 0 <= i < ps.len() && ps[i].len() > 0 && ps[i][0] == h)
}

/// Strictly increasing in `str` order.
pub open spec fn strictly_sorted(s: Seq<Seq<char>>) -> bool {
    forall|i: int, j: int| 0 <= i < j < s.len() ==> chars_lt(#[trigger] s[i], #[trigger] s[j])
}

/// The first parts in increasing order, each once.
pub open spec fn sorted_heads(ps: Seq<Seq<Seq<char>>>) -> Seq<Seq<char>> {
    choose|s: Seq<Seq<char>>| strictly_sorted(s) && s.to_set() == heads_set(ps)
}

/// The remainders of the part lists that start with `name`, in order.
pub open spec fn children_of(ps: Seq<Seq<Seq<char>>>, name: Seq<char>) -> Seq<Seq<Seq<char>>>
    decreases ps.len(),
{
    if ps.len() == 0 {
        ps
    } else {
        let c = children_of(ps.drop_last(), name);
        if ps.last().len() > 0 && ps.last()[0] == name {
            c.push(ps.last().drop_first())
        } else {
            c
        }
    }
}

/// The length of the longest part list.
pub open spec fn height(ps: Seq<Seq<Seq<char>>>) -> nat
    decreases ps.len(),
{
    if ps.len() == 0 {
        0
    } else {
        let h = height(ps.drop_last());
        if ps.last().len() > h {
            ps.last().len()
        } else {
            h
        }
    }
}

/// Whether some part list is non-empty.
pub open spec fn has_nonempty(ps: Seq<Seq<Seq<char>>>) -> bool {
    exists|i: int| 0 <= i < ps.len() && ps[i].len() > 0
}

pub open spec fn branch_conn(last: bool) -> Seq<char> {
    if last {
        seq!['└', '─', '─', ' ']
    } else {
        seq!['├', '─', '─', ' ']
    }
}

pub open spec fn branch_ext(last: bool) -> Seq<char> {
    if last {
        seq![' ', ' ', ' ', ' ']
    } else {
        seq!['│', ' ', ' ', ' ']
    }
}

pub proof fn lemma_children_height(ps: Seq<Seq<Seq<char>>>, name: Seq<char>)
    ensures
        children_of(ps, name).len() > 0 ==> height(children_of(ps, name)) + 1 <= height(ps),
    decreases ps.len(),
{
    if ps.len() > 0 {
        lemma_children_height(ps.drop_last(), name);
        let c = children_of(ps.drop_last(), name);
        if ps.last().len() > 0 && ps.last()[0] == name {
            assert(c.push(ps.last().drop_first()).drop_last() =~= c);
        }
    }
}

/// The tree lines for part lists `ps` below a node whose lines start with `prefix`.
pub open spec fn render_level_spec(ps: Seq<Seq<Seq<char>>>, prefix: Seq<char>) -> Seq<char>
    decreases height(ps), 1nat, 0nat,
{
    render_heads(ps, prefix, sorted_heads(ps), 0)
}

/// The lines for the entries `hs[k..]` of one level.
pub open spec fn render_heads(
    ps: Seq<Seq<Seq<char>>>,
    prefix: Seq<char>,
    hs: Seq<Seq<char>>,
    k: int,
) -> Seq<char>
    decreases height(ps), 0nat, (if k < hs.len() { hs.len() - k } else { 0 }) as nat,
{
    if k < 0 || k >= hs.len() {
        Seq::empty()
    } else {
        let last = k + 1 == hs.len();
        let line = prefix + branch_conn(last) + hs[k] + seq!['\n'];
        let ch = children_of(ps, hs[k]);
        let sub = if has_nonempty(ch) {
            proof {
                lemma_children_height(ps, hs[k]);
            }
            render_level_spec(ch, prefix + branch_ext(last))
        } else {
            Seq::empty()
        };
        line + sub + render_heads(ps, prefix, hs, k + 1)
    }
}

/// The rendered tree: the root name line when given, then the tree of all paths.
pub open spec fn render_tree_spec(paths: Seq<Seq<char>>, root: Option<Seq<char>>) -> Seq<char> {
    let ps = paths.map_values(|p: Seq<char>| path_parts(p));
    (match root {
        Some(r) => r + seq!['\n'],
        None => Seq::empty(),
    }) + render_level_spec(ps, Seq::empty())
}

pub proof fn lemma_sorted_unique(a: Seq<Seq<char>>, b: Seq<Seq<char>>)
    requires
        strictly_sorted(a),
        strictly_sorted(b),
        a.to_set() == b.to_set(),
    ensures
        a == b,
    decreases a.len(),
{
    if a.len() == 0 {
        if b.len() > 0 {
            assert(b.to_set().contains(b[0]));
        }
        assert(a =~= b);
    } else {
        assert(a.to_set().contains(a[0]));
        assert(b.len() > 0);
        assert(b.to_set().contains(b[0]));
        let ia = choose|i: int| 0 <= i < a.len() && a[i] == b[0];
        let ib = choose|i: int| 0 <= i < b.len() && b[i] == a[0];
        if ia > 0 {
            assert(chars_lt(a[0], a[ia]));
            if ib > 0 {
                assert(chars_lt(b[0], b[ib]));
                crate::chars::lemma_chars_lt_asym(a[0], b[0]);
            } else {
                crate::chars::lemma_chars_lt_irreflexive(a[0]);
            }
        } else if ib > 0 {
            assert(chars_lt(b[0], b[ib]));
            crate::chars::lemma_chars_lt_irreflexive(b[0]);
        }
        assert(a[0] == b[0]);
        let a1 = a.drop_first();
        let b1 = b.drop_first();
        assert forall|x: Seq<char>| a1.to_set().contains(x) implies b1.to_set().contains(x) by {
            let i = choose|i: int| 0 <= i < a1.len() && a1[i] == x;
            assert(a.to_set().contains(a[i + 1]));
            let j = choose|j: int| 0 <= j < b.len() && b[j] == x;
            if j == 0 {
                assert(chars_lt(a[0], a[i + 1]));
                crate::chars::lemma_chars_lt_irreflexive(a[0]);
            }
            assert(b1[j - 1] == x);
        }
        assert forall|x: Seq<char>| b1.to_set().contains(x) implies a1.to_set().contains(x) by {
            let i = choose|i: int| 0 <= i < b1.len() && b1[i] == x;
            assert(b.to_set().contains(b[i + 1]));
            let j = choose|j: int| 0 <= j < a.len() && a[j] == x;
            if j == 0 {
                assert(chars_lt(b[0], b[i + 1]));
                crate::chars::lemma_chars_lt_irreflexive(b[0]);
            }
            assert(a1[j - 1] == x);
        }
        assert(a1.to_set() =~= b1.to_set());
        lemma_sorted_unique(a1, b1);
        assert(a =~= seq![a[0]] + a1);
        assert(b =~= seq![b[0]] + b1);
    }
}

/// Adds `x` to a strictly sorted vector unless present, keeping it strictly sorted.
pub(crate) fn insert_sorted(hs: &mut Vec<Vec<char>>, x: Vec<char>)
    requires
        strictly_sorted(old(hs)@.map_values(|v: Vec<char>| v@)),
    ensures
        strictly_sorted(final(hs)@.map_values(|v: Vec<char>| v@)),
        final(hs)@.map_values(|v: Vec<char>| v@).to_set() == old(hs)@.map_values(|v: Vec<char>| v@).to_set().insert(x@),
{
    let ghost hv = hs@.map_values(|v: Vec<char>| v@);
    let mut k: usize = 0;
    while k < hs.len() && compare_chars(&hs[k], &x) == -1
        invariant
            k <= hs.len(),
            hv == hs@.map_values(|v: Vec<char>| v@),
            forall|j: int| 0 <= j < k ==> chars_lt(#[trigger] hv[j], x@),
        decreases hs.len() - k,
    {
        assert(hv[k as int] == hs@[k as int]@);
        k = k + 1;
    }
    if k < hs.len() {
        assert(hv[k as int] == hs@[k as int]@);
        if compare_chars(&hs[k], &x) == 0 {
            assert(hv.to_set().insert(x@) =~= hv.to_set()) by {
                assert(hv.to_set().contains(hv[k as int]));
            }
            return;
        }
    }
    proof {
        if k < hv.len() {
            assert(!chars_lt(hv[k as int], x@));
            assert(hv[k as int] != x@);
            crate::chars::lemma_chars_lt_total(hv[k as int], x@);
        }
    }
    hs.insert(k, x);
    let ghost nv = hs@.map_values(|v: Vec<char>| v@);
    assert(nv =~= hv.insert(k as int, x@));
    assert forall|i: int, j: int| 0 <= i < j < nv.len() implies chars_lt(#[trigger] nv[i], #[trigger] nv[j]) by {
        if i < k && j == k {
        } else if i < k && j > k {
            assert(nv[j] == hv[j - 1]);
            if k < hv.len() {
                crate::chars::lemma_chars_lt_asym(hv[k as int], x@);
            }
            if j - 1 > i {
                assert(chars_lt(hv[i], hv[j - 1]));
            }
        } else if i == k {
            assert(nv[j] == hv[j - 1]);
            if j - 1 > k {
                assert(chars_lt(hv[k as int], hv[j - 1]));
                crate::chars::lemma_chars_lt_trans(x@, hv[k as int], hv[j - 1]);
            }
        } else if i > k {
            assert(nv[i] == hv[i - 1]);
            assert(nv[j] == hv[j - 1]);
        } else {
            assert(nv[i] == hv[i]);
            assert(nv[j] == hv[j]);
        }
    }
    assert(nv.to_set() =~= hv.to_set().insert(x@)) by {
        assert forall|y: Seq<char>| hv.to_set().insert(x@).contains(y) implies nv.to_set().contains(y) by {
            if y == x@ {
                assert(nv[k as int] == x@);
            } else {
                let i = choose|i: int| 0 <= i < hv.len() && hv[i] == y;
                if i < k {
                    assert(nv[i] == y);
                } else {
                    assert(nv[i + 1] == y);
                }
            }
        }
        assert forall|y: Seq<char>| nv.to_set().contains(y) implies hv.to_set().insert(x@).contains(y) by {
            let i = choose|i: int| 0 <= i < nv.len() && nv[i] == y;
            if i < k {
                assert(hv[i] == y);
            } else if i > k {
                assert(hv[i - 1] == y);
            }
        }
    }
}

/// The views of a vector of part lists.
pub open spec fn parts_view(ps: Seq<Vec<Vec<char>>>) -> Seq<Seq<Seq<char>>> {
    ps.map_values(|p: Vec<Vec<char>>| p@.map_values(|v: Vec<char>| v@))
}

/// The distinct first parts, sorted.
fn sorted_distinct_heads(ps: &Vec<Vec<Vec<char>>>) -> (hs: Vec<Vec<char>>)
    ensures
        strictly_sorted(hs@.map_values(|v: Vec<char>| v@)),
        hs@.map_values(|v: Vec<char>| v@).to_set() == heads_set(parts_view(ps@)),
        hs@.map_values(|v: Vec<char>| v@) == sorted_heads(parts_view(ps@)),
{
    let ghost pv = parts_view(ps@);
    let mut hs: Vec<Vec<char>> = Vec::new();
    let mut i: usize = 0;
    assert(hs@.map_values(|v: Vec<char>| v@).to_set() =~= Set::<Seq<char>>::empty());
    while i < ps.len()
        invariant
            i <= ps.len(),
            pv == parts_view(ps@),
            strictly_sorted(hs@.map_values(|v: Vec<char>| v@)),
            hs@.map_values(|v: Vec<char>| v@).to_set() == Set::new(
                |h: Seq<char>| exists|j: int| 0 <= j < i && pv[j].len() > 0 && pv[j][0] == h,
            ),
        decreases ps.len() - i,
    {
        let ghost before = hs@.map_values(|v: Vec<char>| v@).to_set();
        assert(pv[i as int] == ps@[i as int]@.map_values(|v: Vec<char>| v@));
        if ps[i].len() > 0 {
            let h = crate::chars::slice_to_vec(&ps[i][0], 0, ps[i][0].len());
            assert(h@ =~= pv[i as int][0]);
            insert_sorted(&mut hs, h);
        }
        i = i + 1;
        let ghost cur = hs@.map_values(|v: Vec<char>| v@).to_set();
        assert(cur =~= Set::new(
            |h: Seq<char>| exists|j: int| 0 <= j < i && pv[j].len() > 0 && pv[j][0] == h,
        )) by {
            assert forall|h: Seq<char>|
                (exists|j: int| 0 <= j < i && pv[j].len() > 0 && pv[j][0] == h) implies #[trigger] cur.contains(h) by {
                let j = choose|j: int| 0 <= j < i && pv[j].len() > 0 && pv[j][0] == h;
                if j < i - 1 {
                    assert(before.contains(h));
                }
            }
        }
    }
    let ghost hv = hs@.map_values(|v: Vec<char>| v@);
    assert(hv.to_set() =~= heads_set(pv));
    proof {
        assert(strictly_sorted(hv) && hv.to_set() == heads_set(pv));
        let c = sorted_heads(pv);
        lemma_sorted_unique(c, hv);
    }
    hs
}

/// The remainders of the part lists that start with `name`.
fn children_exec(ps: &Vec<Vec<Vec<char>>>, name: &Vec<char>) -> (res: Vec<Vec<Vec<char>>>)
    ensures
        parts_view(res@) == children_of(parts_view(ps@), name@),
{
    let ghost pv = parts_view(ps@);
    let mut res: Vec<Vec<Vec<char>>> = Vec::new();
    let mut i: usize = 0;
    while i < ps.len()
        invariant
            i <= ps.len(),
            pv == parts_view(ps@),
            parts_view(res@) == children_of(pv.subrange(0, i as int), name@),
        decreases ps.len() - i,
    {
        let ghost sub = pv.subrange(0, i + 1);
        assert(sub.drop_last() =~= pv.subrange(0, i as int));
        assert(pv[i as int] == ps@[i as int]@.map_values(|v: Vec<char>| v@));
        if ps[i].len() > 0 && crate::chars::chars_eq(&ps[i][0], name) {
            let mut rest: Vec<Vec<char>> = Vec::new();
            let mut j: usize = 1;
            while j < ps[i].len()
                invariant
                    1 <= j <= ps@[i as int].len(),
                    i < ps.len(),
                    rest@.map_values(|v: Vec<char>| v@) == ps@[i as int]@.map_values(|v: Vec<char>| v@).subrange(1, j as int),
                decreases ps@[i as int].len() - j,
            {
                let x = crate::chars::slice_to_vec(&ps[i][j], 0, ps[i][j].len());
                assert(x@ =~= ps@[i as int]@[j as int]@);
                let ghost r0 = rest@.map_values(|v: Vec<char>| v@);
                rest.push(x);
                assert(rest@.map_values(|v: Vec<char>| v@) =~= r0.push(x@));
                assert(ps@[i as int]@.map_values(|v: Vec<char>| v@).subrange(1, j + 1) =~= ps@[i as int]@.map_values(|v: Vec<char>| v@).subrange(1, j as int).push(x@));
                j = j + 1;
                assert(rest@.map_values(|v: Vec<char>| v@) =~= ps@[i as int]@.map_values(|v: Vec<char>| v@).subrange(1, j as int));
            }
            let ghost r0 = parts_view(res@);
            res.push(rest);
            assert(parts_view(res@) =~= r0.push(pv[i as int].drop_first()));
        }
        i = i + 1;
    }
    assert(pv.subrange(0, ps.len() as int) =~= pv);
    res
}

fn has_nonempty_exec(ps: &Vec<Vec<Vec<char>>>) -> (b: bool)
    ensures
        b == has_nonempty(parts_view(ps@)),
{
    let mut i: usize = 0;
    while i < ps.len()
        invariant
            i <= ps.len(),
            forall|j: int| 0 <= j < i ==> ps@[j]@.len() == 0,
        decreases ps.len() - i,
    {
        if ps[i].len() > 0 {
            assert(parts_view(ps@)[i as int].len() > 0);
            return true;
        }
        i = i + 1;
    }
    false
}

/// Appends the tree lines for `ps` below a node whose lines start with `prefix`.
fn render_level(ps: &Vec<Vec<Vec<char>>>, prefix: &Vec<char>, out: &mut Vec<char>)
    ensures
        final(out)@ == old(out)@ + render_level_spec(parts_view(ps@), prefix@),
    decreases height(parts_view(ps@)), 1nat, 0nat,
{
    let hs = sorted_distinct_heads(ps);
    render_heads_exec(ps, prefix, &hs, 0, out);
}

/// Appends the lines for the entries `hs[k..]` of one level.
fn render_heads_exec(
    ps: &Vec<Vec<Vec<char>>>,
    prefix: &Vec<char>,
    hs: &Vec<Vec<char>>,
    k: usize,
    out: &mut Vec<char>,
)
    requires
        k <= hs.len(),
    ensures
        final(out)@ == old(out)@ + render_heads(parts_view(ps@), prefix@, hs@.map_values(|v: Vec<char>| v@), k as int),
    decreases height(parts_view(ps@)), 0nat, hs.len() - k,
{
    let ghost hv = hs@.map_values(|v: Vec<char>| v@);
    let ghost pv = parts_view(ps@);
    if k >= hs.len() {
        assert(old(out)@ + render_heads(pv, prefix@, hv, k as int) =~= old(out)@);
        return;
    }
    assert(hv[k as int] == hs@[k as int]@);
    let last = k + 1 == hs.len();
    let ghost o = out@;
    append_chars(out, prefix);
    let conn = if last {
        vec!['└', '─', '─', ' ']
    } else {
        vec!['├', '─', '─', ' ']
    };
    assert(conn@ =~= branch_conn(last));
    append_chars(out, &conn);
    append_chars(out, &hs[k]);
    out.push('\n');
    let ghost line = prefix@ + branch_conn(last) + hv[k as int] + seq!['\n'];
    assert(out@ =~= o + line);
    let ch = children_exec(ps, &hs[k]);
    let ghost o2 = out@;
    if has_nonempty_exec(&ch) {
        let ext = if last {
            vec![' ', ' ', ' ', ' ']
        } else {
            vec!['│', ' ', ' ', ' ']
        };
        assert(ext@ =~= branch_ext(last));
        let mut p2 = crate::chars::slice_to_vec(prefix, 0, prefix.len());
        append_chars(&mut p2, &ext);
        assert(p2@ =~= prefix@ + branch_ext(last));
        proof {
            lemma_children_height(pv, hv[k as int]);
        }
        render_level(&ch, &p2, out);
    }
    let ghost o3 = out@;
    render_heads_exec(ps, prefix, hs, k + 1, out);
    assert(out@ =~= o + render_heads(pv, prefix@, hv, k as int));
}

/// The parts of each path, computed.
fn parts_of_paths(paths: &[String]) -> (res: Vec<Vec<Vec<char>>>)
    ensures
        parts_view(res@) == paths@.map_values(|s: String| s@).map_values(|p: Seq<char>| path_parts(p)),
{
    let ghost want = paths@.map_values(|s: String| s@).map_values(|p: Seq<char>| path_parts(p));
    let mut res: Vec<Vec<Vec<char>>> = Vec::new();
    let mut i: usize = 0;
    while i < paths.len()
        invariant
            i <= paths.len(),
            want == paths@.map_values(|s: String| s@).map_values(|p: Seq<char>| path_parts(p)),
            parts_view(res@) == want.subrange(0, i as int),
        decreases paths.len() - i,
    {
        let cs = chars_of(paths[i].as_str());
        let pieces = split_chars(&cs, '/');
        let ghost pcs = split_on(cs@, '/');
        let mut parts: Vec<Vec<char>> = Vec::new();
        let mut j: usize = 0;
        while j < pieces.len()
            invariant
                j <= pieces.len(),
                pieces@.map_values(|v: Vec<char>| v@) == pcs,
                parts@.map_values(|v: Vec<char>| v@) == pcs.subrange(0, j as int).filter(|x: Seq<char>| x.len() > 0),
            decreases pieces.len() - j,
        {
            assert(pieces@[j as int]@ == pcs[j as int]) by {
                assert(pieces@.map_values(|v: Vec<char>| v@)[j as int] == pieces@[j as int]@);
            }
            assert(pcs.subrange(0, j + 1).drop_last() =~= pcs.subrange(0, j as int));
            reveal_with_fuel(Seq::filter, 1);
            let ghost q0 = parts@.map_values(|v: Vec<char>| v@);
            if pieces[j].len() > 0 {
                let x = crate::chars::slice_to_vec(&pieces[j], 0, pieces[j].len());
                assert(x@ =~= pcs[j as int]);
                parts.push(x);
                assert(parts@.map_values(|v: Vec<char>| v@) =~= q0.push(pcs[j as int]));
            }
            j = j + 1;
        }
        assert(pcs.subrange(0, pieces.len() as int) =~= pcs);
        assert(cs@ == paths@[i as int]@);
        let ghost r0 = parts_view(res@);
        res.push(parts);
        assert(parts_view(res@) =~= r0.push(want[i as int]));
        assert(want.subrange(0, i + 1) =~= want.subrange(0, i as int).push(want[i as int]));
        i = i + 1;
    }
    assert(want.subrange(0, paths.len() as int) =~= want);
    res
}

/// Renders relative paths as a box-drawing tree: entries sorted and de-duplicated at
/// every level, `├── ` before all but the last entry of a level and `└── ` before the
/// last, children indented by `│   ` (or four spaces below a last entry); the root name,
/// when given, is the first line.
pub fn render_unicode_tree_from_paths(paths: &[String], root_name: Option<&str>) -> (res: String)
    ensures
        res@ == render_tree_spec(
            paths@.map_values(|s: String| s@),
            match root_name {
                Some(r) => Some(r@),
                None => None,
            },
        ),
{
    let ps = parts_of_paths(paths);
    let mut out: Vec<char> = Vec::new();
    match root_name {
        Some(r) => {
            let rc = chars_of(r);
            append_chars(&mut out, &rc);
            out.push('\n');
        },
        None => {},
    }
    let ghost o = out@;
    let empty: Vec<char> = Vec::new();
    render_level(&ps, &empty, &mut out);
    assert(empty@ =~= Seq::<char>::empty());
    string_of(out.as_slice())
}

} // verus!
