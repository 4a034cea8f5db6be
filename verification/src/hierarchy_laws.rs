//! Laws of the hierarchy rendering and parsing.
use crate::chars::{chars_lt, is_ws, join_with, lines_spec, strip_cr, trim, trim_end};
use crate::hierarchy::{
    branch_conn, branch_ext, children_of, has_nonempty, heads_set, height, hier_paths,
    is_tree_glyph_or_ws, lemma_children_height, line_entry, parse_hierarchy_spec, path_parts,
    render_heads, render_level_spec, render_tree_spec, sorted_heads, stack_after, strictly_sorted,
};
use crate::text::{lemma_lines_of_terminated, lemma_terminated_concat, terminated_lines};
use vstd::prelude::*;

verus! {

/// Membership in `children_of`: the remainders of the part lists that start with `name`.
proof fn lemma_children_of_contains(ps: Seq<Seq<Seq<char>>>, name: Seq<char>, x: Seq<Seq<char>>)
    ensures
        children_of(ps, name).contains(x) <==> exists|i: int|
            0 <= i < ps.len() && ps[i].len() > 0 && ps[i][0] == name && #[trigger] ps[i].drop_first() == x,
    decreases ps.len(),
{
    if ps.len() > 0 {
        let c = children_of(ps.drop_last(), name);
        lemma_children_of_contains(ps.drop_last(), name, x);
        let l = ps.last();
        if l.len() > 0 && l[0] == name {
            assert(children_of(ps, name) == c.push(l.drop_first()));
            if c.push(l.drop_first()).contains(x) {
                if x == l.drop_first() {
                    assert(ps[ps.len() - 1] == l);
                } else {
                    let j = choose|j: int| 0 <= j < c.push(l.drop_first()).len() && c.push(l.drop_first())[j] == x;
                    assert(c[j] == x);
                    let i = choose|i: int| 0 <= i < ps.drop_last().len() && ps.drop_last()[i].len() > 0 && ps.drop_last()[i][0] == name && #[trigger] ps.drop_last()[i].drop_first() == x;
                    assert(ps[i] == ps.drop_last()[i]);
                }
            }
            if exists|i: int| 0 <= i < ps.len() && ps[i].len() > 0 && ps[i][0] == name && #[trigger] ps[i].drop_first() == x {
                let i = choose|i: int| 0 <= i < ps.len() && ps[i].len() > 0 && ps[i][0] == name && #[trigger] ps[i].drop_first() == x;
                if i == ps.len() - 1 {
                    assert(c.push(l.drop_first())[c.len() as int] == x);
                } else {
                    assert(ps.drop_last()[i] == ps[i]);
                    assert(ps.drop_last()[i].drop_first() == x);
                    let j = choose|j: int| 0 <= j < c.len() && c[j] == x;
                    assert(c.push(l.drop_first())[j] == x);
                }
            }
        } else {
            if c.contains(x) {
                let i = choose|i: int| 0 <= i < ps.drop_last().len() && ps.drop_last()[i].len() > 0 && ps.drop_last()[i][0] == name && #[trigger] ps.drop_last()[i].drop_first() == x;
                assert(ps[i] == ps.drop_last()[i]);
            }
            if exists|i: int| 0 <= i < ps.len() && ps[i].len() > 0 && ps[i][0] == name && #[trigger] ps[i].drop_first() == x {
                let i = choose|i: int| 0 <= i < ps.len() && ps[i].len() > 0 && ps[i][0] == name && #[trigger] ps[i].drop_first() == x;
                assert(i != ps.len() - 1);
                assert(ps.drop_last()[i] == ps[i]);
                assert(ps.drop_last()[i].drop_first() == x);
            }
        }
    }
}

/// Part lists with the same elements have children with the same elements.
proof fn lemma_children_same_set(ps1: Seq<Seq<Seq<char>>>, ps2: Seq<Seq<Seq<char>>>, name: Seq<char>)
    requires
        ps1.to_set() == ps2.to_set(),
    ensures
        children_of(ps1, name).to_set() == children_of(ps2, name).to_set(),
{
    assert forall|x: Seq<Seq<char>>| children_of(ps1, name).to_set().contains(x) implies children_of(ps2, name).to_set().contains(x) by {
        lemma_children_of_contains(ps1, name, x);
        lemma_children_of_contains(ps2, name, x);
        let i = choose|i: int| 0 <= i < ps1.len() && ps1[i].len() > 0 && ps1[i][0] == name && #[trigger] ps1[i].drop_first() == x;
        assert(ps1.to_set().contains(ps1[i]));
        let j = choose|j: int| 0 <= j < ps2.len() && ps2[j] == ps1[i];
        assert(ps2[j].drop_first() == x);
    }
    assert forall|x: Seq<Seq<char>>| children_of(ps2, name).to_set().contains(x) implies children_of(ps1, name).to_set().contains(x) by {
        lemma_children_of_contains(ps1, name, x);
        lemma_children_of_contains(ps2, name, x);
        let i = choose|i: int| 0 <= i < ps2.len() && ps2[i].len() > 0 && ps2[i][0] == name && #[trigger] ps2[i].drop_first() == x;
        assert(ps2.to_set().contains(ps2[i]));
        let j = choose|j: int| 0 <= j < ps1.len() && ps1[j] == ps2[i];
        assert(ps1[j].drop_first() == x);
    }
    assert(children_of(ps1, name).to_set() =~= children_of(ps2, name).to_set());
}

proof fn lemma_heads_same_set(ps1: Seq<Seq<Seq<char>>>, ps2: Seq<Seq<Seq<char>>>)
    requires
        ps1.to_set() == ps2.to_set(),
    ensures
        heads_set(ps1) == heads_set(ps2),
        has_nonempty(ps1) == has_nonempty(ps2),
{
    assert forall|h: Seq<char>| heads_set(ps1).contains(h) implies heads_set(ps2).contains(h) by {
        let i = choose|i: int| 0 <= i < ps1.len() && ps1[i].len() > 0 && ps1[i][0] == h;
        assert(ps1.to_set().contains(ps1[i]));
        let j = choose|j: int| 0 <= j < ps2.len() && ps2[j] == ps1[i];
    }
    assert forall|h: Seq<char>| heads_set(ps2).contains(h) implies heads_set(ps1).contains(h) by {
        let i = choose|i: int| 0 <= i < ps2.len() && ps2[i].len() > 0 && ps2[i][0] == h;
        assert(ps2.to_set().contains(ps2[i]));
        let j = choose|j: int| 0 <= j < ps1.len() && ps1[j] == ps2[i];
    }
    assert(heads_set(ps1) =~= heads_set(ps2));
    if has_nonempty(ps1) {
        let i = choose|i: int| 0 <= i < ps1.len() && ps1[i].len() > 0;
        assert(ps1.to_set().contains(ps1[i]));
        let j = choose|j: int| 0 <= j < ps2.len() && ps2[j] == ps1[i];
    }
    if has_nonempty(ps2) {
        let i = choose|i: int| 0 <= i < ps2.len() && ps2[i].len() > 0;
        assert(ps2.to_set().contains(ps2[i]));
        let j = choose|j: int| 0 <= j < ps1.len() && ps1[j] == ps2[i];
    }
}

proof fn lemma_level_same_set(ps1: Seq<Seq<Seq<char>>>, ps2: Seq<Seq<Seq<char>>>, prefix: Seq<char>)
    requires
        ps1.to_set() == ps2.to_set(),
    ensures
        render_level_spec(ps1, prefix) == render_level_spec(ps2, prefix),
    decreases height(ps1), 1nat, 0nat,
{
    lemma_heads_same_set(ps1, ps2);
    assert(sorted_heads(ps1) == sorted_heads(ps2));
    lemma_render_heads_same_set(ps1, ps2, prefix, sorted_heads(ps1), 0);
}

proof fn lemma_render_heads_same_set(
    ps1: Seq<Seq<Seq<char>>>,
    ps2: Seq<Seq<Seq<char>>>,
    prefix: Seq<char>,
    hs: Seq<Seq<char>>,
    k: int,
)
    requires
        ps1.to_set() == ps2.to_set(),
    ensures
        render_heads(ps1, prefix, hs, k) == render_heads(ps2, prefix, hs, k),
    decreases height(ps1), 0nat, (if k < hs.len() { hs.len() - k } else { 0 }) as nat,
{
    if 0 <= k < hs.len() {
        let last = k + 1 == hs.len();
        let ch1 = children_of(ps1, hs[k]);
        let ch2 = children_of(ps2, hs[k]);
        lemma_children_same_set(ps1, ps2, hs[k]);
        lemma_heads_same_set(ch1, ch2);
        if has_nonempty(ch1) {
            lemma_children_height(ps1, hs[k]);
            lemma_level_same_set(ch1, ch2, prefix + crate::hierarchy::branch_ext(last));
        }
        lemma_render_heads_same_set(ps1, ps2, prefix, hs, k + 1);
    }
}

/// The rendered tree depends only on the set of input paths: their order and repetitions
/// do not change it.
pub proof fn lemma_render_depends_on_path_set(a: Seq<Seq<char>>, b: Seq<Seq<char>>, root: Option<Seq<char>>)
    requires
        a.to_set() == b.to_set(),
    ensures
        render_tree_spec(a, root) == render_tree_spec(b, root),
{
    let pa = a.map_values(|p: Seq<char>| path_parts(p));
    let pb = b.map_values(|p: Seq<char>| path_parts(p));
    assert forall|x: Seq<Seq<char>>| pa.to_set().contains(x) implies pb.to_set().contains(x) by {
        let i = choose|i: int| 0 <= i < pa.len() && pa[i] == x;
        assert(a.to_set().contains(a[i]));
        let j = choose|j: int| 0 <= j < b.len() && b[j] == a[i];
        assert(pb[j] == x);
    }
    assert forall|x: Seq<Seq<char>>| pb.to_set().contains(x) implies pa.to_set().contains(x) by {
        let i = choose|i: int| 0 <= i < pb.len() && pb[i] == x;
        assert(b.to_set().contains(b[i]));
        let j = choose|j: int| 0 <= j < a.len() && a[j] == b[i];
        assert(pa[j] == x);
    }
    assert(pa.to_set() =~= pb.to_set());
    lemma_level_same_set(pa, pb, Seq::empty());
}

/* ------------------------- the rendered lines ------------------------- */

/// The lines (without their newlines) that `render_level_spec` writes.
pub open spec fn tree_lines(ps: Seq<Seq<Seq<char>>>, prefix: Seq<char>) -> Seq<Seq<char>>
    decreases height(ps), 1nat, 0nat,
{
    heads_lines(ps, prefix, sorted_heads(ps), 0)
}

/// The lines that `render_heads` writes.
pub open spec fn heads_lines(ps: Seq<Seq<Seq<char>>>, prefix: Seq<char>, hs: Seq<Seq<char>>, k: int) -> Seq<
    Seq<char>,
>
    decreases height(ps), 0nat, (if k < hs.len() { hs.len() - k } else { 0 }) as nat,
{
    if k < 0 || k >= hs.len() {
        Seq::empty()
    } else {
        let last = k + 1 == hs.len();
        let ch = children_of(ps, hs[k]);
        let sub = if has_nonempty(ch) {
            proof {
                lemma_children_height(ps, hs[k]);
            }
            tree_lines(ch, prefix + branch_ext(last))
        } else {
            Seq::empty()
        };
        seq![prefix + branch_conn(last) + hs[k]] + sub + heads_lines(ps, prefix, hs, k + 1)
    }
}


proof fn lemma_level_text(ps: Seq<Seq<Seq<char>>>, prefix: Seq<char>)
    ensures
        render_level_spec(ps, prefix) == terminated_lines(tree_lines(ps, prefix)),
    decreases height(ps), 1nat, 0nat,
{
    lemma_heads_text(ps, prefix, sorted_heads(ps), 0);
}

proof fn lemma_heads_text(ps: Seq<Seq<Seq<char>>>, prefix: Seq<char>, hs: Seq<Seq<char>>, k: int)
    ensures
        render_heads(ps, prefix, hs, k) == terminated_lines(heads_lines(ps, prefix, hs, k)),
    decreases height(ps), 0nat, (if k < hs.len() { hs.len() - k } else { 0 }) as nat,
{
    if 0 <= k < hs.len() {
        let last = k + 1 == hs.len();
        let ch = children_of(ps, hs[k]);
        let line = prefix + branch_conn(last) + hs[k];
        let sub = if has_nonempty(ch) {
            tree_lines(ch, prefix + branch_ext(last))
        } else {
            Seq::empty()
        };
        if has_nonempty(ch) {
            lemma_children_height(ps, hs[k]);
            lemma_level_text(ch, prefix + branch_ext(last));
        } else {
            assert(terminated_lines(sub) =~= Seq::<char>::empty());
        }
        lemma_heads_text(ps, prefix, hs, k + 1);
        let rest = heads_lines(ps, prefix, hs, k + 1);
        lemma_terminated_concat(seq![line] + sub, rest);
        lemma_terminated_concat(seq![line], sub);
        assert(seq![line].drop_last() =~= Seq::<Seq<char>>::empty());
        assert(seq![line].last() == line);
        assert(terminated_lines(Seq::<Seq<char>>::empty()) =~= Seq::<char>::empty());
        assert(terminated_lines(seq![line]) =~= line + seq!['\n']);
        assert(terminated_lines(heads_lines(ps, prefix, hs, k)) =~= line + seq!['\n'] + terminated_lines(sub)
            + terminated_lines(rest));
    } else {
        assert(terminated_lines(heads_lines(ps, prefix, hs, k)) =~= Seq::<char>::empty());
    }
}

/* ------------------------- reading lines back ------------------------- */




/* ------------------------- what a line says ------------------------- */

/// Whether `prefix` is the indentation of nesting level `d`: four characters per level, each
/// a vertical bar or a space.
pub open spec fn good_prefix(prefix: Seq<char>, d: nat) -> bool {
    &&& prefix.len() == 4 * d
    &&& forall|i: int| 0 <= i < prefix.len() ==> (#[trigger] prefix[i] == '│' || prefix[i] == ' ')
}

/// Whether a path part reads back as itself from a tree line: not empty, no newline, not
/// starting with a tree glyph or whitespace, not ending with whitespace.
pub open spec fn good_name(x: Seq<char>) -> bool {
    &&& x.len() > 0
    &&& !x.contains('\n')
    &&& !is_tree_glyph_or_ws(x[0])
    &&& !is_ws(x.last())
}

proof fn lemma_trim_good_name(h: Seq<char>)
    requires
        good_name(h),
    ensures
        trim(h) == h,
        trim_end(h) == h,
{
    crate::chars::lemma_trim_end_of_range(h, 0, h.len() as int, h.len() as int);
    assert(h.subrange(0, h.len() as int) =~= h);
    crate::chars::lemma_trim_start_of_range(h, 0, 0, h.len() as int);
}

/// A rendered line reads back as its level and its name.
proof fn lemma_line_entry(prefix: Seq<char>, d: nat, last: bool, h: Seq<char>)
    requires
        good_prefix(prefix, d),
        good_name(h),
    ensures
        line_entry(prefix + branch_conn(last) + h) == Some((d, h)),
        !(prefix + branch_conn(last) + h).contains('\n'),
        (prefix + branch_conn(last) + h).last() == h.last(),
{
    let line = prefix + branch_conn(last) + h;
    let n = line.len() as int;
    let k: int = 4 * (d as int) + 4;
    assert(line.last() == h.last());
    crate::chars::lemma_trim_end_of_range(line, 0, n, n);
    assert(line.subrange(0, n) =~= line);
    assert forall|i: int| 0 <= i < k implies is_tree_glyph_or_ws(#[trigger] line[i]) && line[i] != '\n' by {
        if i < prefix.len() {
            assert(line[i] == prefix[i]);
        } else {
            assert(line[i] == branch_conn(last)[i - prefix.len()]);
        }
    }
    assert(line[k] == h[0]);
    crate::hierarchy::lemma_name_start_is(line, k);
    assert(line.subrange(k, n) =~= h);
    lemma_trim_good_name(h);
    assert(((k - 1) / 4) as nat == d);
    assert(!line.contains('\n')) by {
        if line.contains('\n') {
            let i = choose|i: int| 0 <= i < line.len() && line[i] == '\n';
            if i >= k {
                assert(h[i - k] == '\n');
            } else {
                assert(line[i] != '\n');
            }
        }
    }
}

/* ------------------------- reading lines in sequence ------------------------- */

/// The ancestor stack after reading the lines `ls` with stack `st`.
pub open spec fn stack_end(ls: Seq<Seq<char>>, st: Seq<Seq<char>>) -> Seq<Seq<char>>
    decreases ls.len(),
{
    if ls.len() == 0 {
        st
    } else {
        match line_entry(ls[0]) {
            None => stack_end(ls.drop_first(), st),
            Some((level, name)) => stack_end(ls.drop_first(), stack_after(st, level, name)),
        }
    }
}

proof fn lemma_hier_paths_concat(a: Seq<Seq<char>>, b: Seq<Seq<char>>, st: Seq<Seq<char>>)
    ensures
        hier_paths(a + b, st) == hier_paths(a, st).union(hier_paths(b, stack_end(a, st))),
        stack_end(a + b, st) == stack_end(b, stack_end(a, st)),
    decreases a.len(),
{
    if a.len() == 0 {
        assert(a + b =~= b);
        assert(hier_paths(a, st) =~= Set::<Seq<char>>::empty());
        assert(hier_paths(a, st).union(hier_paths(b, st)) =~= hier_paths(b, st));
    } else {
        assert((a + b)[0] == a[0]);
        assert((a + b).drop_first() =~= a.drop_first() + b);
        match line_entry(a[0]) {
            None => {
                lemma_hier_paths_concat(a.drop_first(), b, st);
            },
            Some((level, name)) => {
                let st2 = stack_after(st, level, name);
                lemma_hier_paths_concat(a.drop_first(), b, st2);
                assert(hier_paths(a + b, st) =~= hier_paths(a, st).union(hier_paths(b, stack_end(a, st))));
            },
        }
    }
}

/* ------------------------- the heads, sorted ------------------------- */

proof fn sorted_insert(s: Seq<Seq<char>>, x: Seq<char>) -> (r: Seq<Seq<char>>)
    requires
        strictly_sorted(s),
    ensures
        strictly_sorted(r),
        r.to_set() == s.to_set().insert(x),
    decreases s.len(),
{
    if s.len() == 0 {
        assert(seq![x].to_set() =~= s.to_set().insert(x)) by {
            assert(seq![x][0] == x);
        }
        seq![x]
    } else if s.last() == x {
        assert(s.to_set() =~= s.to_set().insert(x)) by {
            assert(s[s.len() - 1] == x);
        }
        s
    } else if chars_lt(s.last(), x) {
        let r = s.push(x);
        assert forall|i: int, j: int| 0 <= i < j < r.len() implies chars_lt(#[trigger] r[i], #[trigger] r[j]) by {
            if j == s.len() {
                if i < s.len() - 1 {
                    assert(chars_lt(s[i], s[s.len() - 1]));
                    crate::chars::lemma_chars_lt_trans(s[i], s.last(), x);
                }
            } else {
                assert(r[i] == s[i] && r[j] == s[j]);
            }
        }
        assert(r.to_set() =~= s.to_set().insert(x)) by {
            assert forall|y: Seq<char>| r.to_set().contains(y) implies s.to_set().insert(x).contains(y) by {
                let i = choose|i: int| 0 <= i < r.len() && r[i] == y;
                if i < s.len() {
                    assert(s[i] == y);
                }
            }
            assert forall|y: Seq<char>| s.to_set().insert(x).contains(y) implies r.to_set().contains(y) by {
                if y == x {
                    assert(r[s.len() as int] == x);
                } else {
                    let i = choose|i: int| 0 <= i < s.len() && s[i] == y;
                    assert(r[i] == y);
                }
            }
        }
        r
    } else {
        let l = s.last();
        crate::chars::lemma_chars_lt_total(l, x);
        let s0 = s.drop_last();
        assert(strictly_sorted(s0)) by {
            assert forall|i: int, j: int| 0 <= i < j < s0.len() implies chars_lt(#[trigger] s0[i], #[trigger] s0[j]) by {
                assert(s0[i] == s[i] && s0[j] == s[j]);
            }
        }
        let r0 = sorted_insert(s0, x);
        let r = r0.push(l);
        assert forall|i: int| 0 <= i < r0.len() implies chars_lt(#[trigger] r0[i], l) by {
            assert(r0.to_set().contains(r0[i]));
            if r0[i] != x {
                assert(s0.to_set().contains(r0[i]));
                let j = choose|j: int| 0 <= j < s0.len() && s0[j] == r0[i];
                assert(s[j] == r0[i]);
                assert(chars_lt(s[j], s[s.len() - 1]));
            }
        }
        assert forall|i: int, j: int| 0 <= i < j < r.len() implies chars_lt(#[trigger] r[i], #[trigger] r[j]) by {
            if j == r0.len() {
                assert(r[i] == r0[i]);
            } else {
                assert(r[i] == r0[i] && r[j] == r0[j]);
            }
        }
        assert(r.to_set() =~= s.to_set().insert(x)) by {
            assert forall|y: Seq<char>| r.to_set().contains(y) implies s.to_set().insert(x).contains(y) by {
                let i = choose|i: int| 0 <= i < r.len() && r[i] == y;
                if i < r0.len() {
                    assert(r0.to_set().contains(y));
                    if y != x {
                        let j = choose|j: int| 0 <= j < s0.len() && s0[j] == y;
                        assert(s[j] == y);
                    }
                } else {
                    assert(s[s.len() - 1] == y);
                }
            }
            assert forall|y: Seq<char>| s.to_set().insert(x).contains(y) implies r.to_set().contains(y) by {
                if y == x {
                    assert(r0.to_set().contains(x));
                    let i = choose|i: int| 0 <= i < r0.len() && r0[i] == x;
                    assert(r[i] == x);
                } else {
                    let i = choose|i: int| 0 <= i < s.len() && s[i] == y;
                    if i == s.len() - 1 {
                        assert(r[r0.len() as int] == y);
                    } else {
                        assert(s0[i] == y);
                        assert(s0.to_set().contains(y));
                        assert(r0.to_set().contains(y));
                        let k = choose|k: int| 0 <= k < r0.len() && r0[k] == y;
                        assert(r[k] == y);
                    }
                }
            }
        }
        r
    }
}

/// The heads of part lists can be listed in increasing order, each once.
proof fn lemma_sorted_heads(ps: Seq<Seq<Seq<char>>>)
    ensures
        strictly_sorted(sorted_heads(ps)),
        sorted_heads(ps).to_set() == heads_set(ps),
{
    let w = sorted_heads_witness(ps);
}

proof fn sorted_heads_witness(ps: Seq<Seq<Seq<char>>>) -> (s: Seq<Seq<char>>)
    ensures
        strictly_sorted(s),
        s.to_set() == heads_set(ps),
    decreases ps.len(),
{
    if ps.len() == 0 {
        let e = Seq::<Seq<char>>::empty();
        assert(e.to_set() =~= heads_set(ps));
        e
    } else {
        let p0 = ps.drop_last();
        let s0 = sorted_heads_witness(p0);
        let l = ps.last();
        if l.len() > 0 {
            let r = sorted_insert(s0, l[0]);
            assert(r.to_set() =~= heads_set(ps)) by {
                assert forall|h: Seq<char>| heads_set(ps).contains(h) implies r.to_set().contains(h) by {
                    let i = choose|i: int| 0 <= i < ps.len() && ps[i].len() > 0 && ps[i][0] == h;
                    if i < ps.len() - 1 {
                        assert(p0[i] == ps[i]);
                        assert(heads_set(p0).contains(h));
                    }
                }
                assert forall|h: Seq<char>| r.to_set().contains(h) implies heads_set(ps).contains(h) by {
                    if h != l[0] {
                        assert(heads_set(p0).contains(h));
                        let i = choose|i: int| 0 <= i < p0.len() && p0[i].len() > 0 && p0[i][0] == h;
                        assert(ps[i] == p0[i]);
                    } else {
                        assert(ps[ps.len() - 1] == l);
                    }
                }
            }
            r
        } else {
            assert(s0.to_set() =~= heads_set(ps)) by {
                assert forall|h: Seq<char>| heads_set(ps).contains(h) implies heads_set(p0).contains(h) by {
                    let i = choose|i: int| 0 <= i < ps.len() && ps[i].len() > 0 && ps[i][0] == h;
                    assert(i < ps.len() - 1);
                    assert(p0[i] == ps[i]);
                }
                assert forall|h: Seq<char>| heads_set(p0).contains(h) implies heads_set(ps).contains(h) by {
                    let i = choose|i: int| 0 <= i < p0.len() && p0[i].len() > 0 && p0[i][0] == h;
                    assert(ps[i] == p0[i]);
                }
            }
            s0
        }
    }
}

/* ------------------------- reading the rendered tree ------------------------- */

/// The ancestors `anc` followed by the first `j` parts of `l`, joined with `/`.
pub open spec fn path_below(anc: Seq<Seq<char>>, l: Seq<Seq<char>>, j: int) -> Seq<char> {
    join_with(anc + l.subrange(0, j), seq!['/'])
}

/// The paths that the part lists `ps` give below the ancestors `anc`: one for each
/// non-empty leading run of each list.
pub open spec fn level_paths(ps: Seq<Seq<Seq<char>>>, anc: Seq<Seq<char>>) -> Set<Seq<char>> {
    Set::new(
        |x: Seq<char>|
            exists|i: int, j: int|
                0 <= i < ps.len() && 1 <= j <= ps[i].len() && x == #[trigger] path_below(anc, ps[i], j),
    )
}

/// Whether `h` is one of `hs[k..]`.
pub open spec fn head_from(hs: Seq<Seq<char>>, k: int, h: Seq<char>) -> bool {
    exists|m: int| k <= m < hs.len() && hs[m] == h
}

/// The paths of `level_paths` whose list starts with one of `hs[k..]`.
pub open spec fn heads_paths(ps: Seq<Seq<Seq<char>>>, anc: Seq<Seq<char>>, hs: Seq<Seq<char>>, k: int) -> Set<Seq<char>> {
    Set::new(
        |x: Seq<char>|
            exists|i: int, j: int|
                0 <= i < ps.len() && 1 <= j <= ps[i].len() && head_from(hs, k, ps[i][0]) && x
                    == #[trigger] path_below(anc, ps[i], j),
    )
}

/// Whether every part of every list reads back as itself.
pub open spec fn good_parts(ps: Seq<Seq<Seq<char>>>) -> bool {
    forall|i: int, k: int| 0 <= i < ps.len() && 0 <= k < ps[i].len() ==> good_name(#[trigger] ps[i][k])
}

/// Whether a line is read as it stands: not empty, no newline, no whitespace at its end.
pub open spec fn line_ok(l: Seq<char>) -> bool {
    l.len() > 0 && !l.contains('\n') && !is_ws(l.last())
}

proof fn lemma_children_good(ps: Seq<Seq<Seq<char>>>, h: Seq<char>)
    requires
        good_parts(ps),
    ensures
        good_parts(children_of(ps, h)),
{
    let ch = children_of(ps, h);
    assert forall|i: int, k: int| 0 <= i < ch.len() && 0 <= k < ch[i].len() implies good_name(#[trigger] ch[i][k]) by {
        assert(ch.contains(ch[i]));
        lemma_children_of_contains(ps, h, ch[i]);
        let a = choose|a: int| 0 <= a < ps.len() && ps[a].len() > 0 && ps[a][0] == h && #[trigger] ps[a].drop_first() == ch[i];
        assert(ch[i][k] == ps[a][k + 1]);
    }
}

proof fn lemma_stack_after_level(st: Seq<Seq<char>>, d: nat, anc: Seq<Seq<char>>, h: Seq<char>)
    requires
        anc.len() == d,
        st.len() >= d,
        st.subrange(0, d as int) == anc,
    ensures
        stack_after(st, d, h) == anc.push(h),
{
    if st.len() == d {
        assert(st =~= st.subrange(0, d as int));
    }
}

proof fn lemma_read_level(ps: Seq<Seq<Seq<char>>>, prefix: Seq<char>, d: nat, anc: Seq<Seq<char>>, st: Seq<Seq<char>>)
    requires
        good_prefix(prefix, d),
        good_parts(ps),
        anc.len() == d,
        st.len() >= d,
        st.subrange(0, d as int) == anc,
    ensures
        hier_paths(tree_lines(ps, prefix), st) == level_paths(ps, anc),
        stack_end(tree_lines(ps, prefix), st).len() >= d,
        stack_end(tree_lines(ps, prefix), st).subrange(0, d as int) == anc,
        forall|i: int| 0 <= i < tree_lines(ps, prefix).len() ==> line_ok(#[trigger] tree_lines(ps, prefix)[i]),
    decreases height(ps), 1nat, 0nat,
{
    let hs = sorted_heads(ps);
    lemma_sorted_heads(ps);
    assert forall|m: int| 0 <= m < hs.len() implies heads_set(ps).contains(#[trigger] hs[m]) by {
        assert(hs.to_set().contains(hs[m]));
    }
    lemma_read_heads(ps, prefix, d, anc, st, hs, 0);
    assert(heads_paths(ps, anc, hs, 0) =~= level_paths(ps, anc)) by {
        assert forall|x: Seq<char>| level_paths(ps, anc).contains(x) implies heads_paths(ps, anc, hs, 0).contains(x) by {
            let (i, j) = choose|i: int, j: int| 0 <= i < ps.len() && 1 <= j <= ps[i].len() && x == #[trigger] path_below(anc, ps[i], j);
            assert(heads_set(ps).contains(ps[i][0]));
            assert(hs.to_set().contains(ps[i][0]));
            let m = choose|m: int| 0 <= m < hs.len() && hs[m] == ps[i][0];
            assert(head_from(hs, 0, ps[i][0]));
        }
    }
}

proof fn lemma_read_heads(
    ps: Seq<Seq<Seq<char>>>,
    prefix: Seq<char>,
    d: nat,
    anc: Seq<Seq<char>>,
    st: Seq<Seq<char>>,
    hs: Seq<Seq<char>>,
    k: int,
)
    requires
        good_prefix(prefix, d),
        good_parts(ps),
        anc.len() == d,
        st.len() >= d,
        st.subrange(0, d as int) == anc,
        0 <= k,
        forall|m: int| 0 <= m < hs.len() ==> heads_set(ps).contains(#[trigger] hs[m]),
    ensures
        hier_paths(heads_lines(ps, prefix, hs, k), st) == heads_paths(ps, anc, hs, k),
        stack_end(heads_lines(ps, prefix, hs, k), st).len() >= d,
        stack_end(heads_lines(ps, prefix, hs, k), st).subrange(0, d as int) == anc,
        forall|i: int| 0 <= i < heads_lines(ps, prefix, hs, k).len() ==> line_ok(#[trigger] heads_lines(ps, prefix, hs, k)[i]),
    decreases height(ps), 0nat, (if k < hs.len() { hs.len() - k } else { 0 }) as nat,
{
    let lines = heads_lines(ps, prefix, hs, k);
    if k >= hs.len() {
        assert(hier_paths(lines, st) =~= Set::<Seq<char>>::empty());
        assert(heads_paths(ps, anc, hs, k) =~= Set::<Seq<char>>::empty());
    } else {
        let h = hs[k];
        let last = k + 1 == hs.len();
        let line = prefix + branch_conn(last) + h;
        let ch = children_of(ps, h);
        let ext = prefix + branch_ext(last);
        let sub = if has_nonempty(ch) { tree_lines(ch, ext) } else { Seq::empty() };
        let rest = heads_lines(ps, prefix, hs, k + 1);
        assert(lines == seq![line] + sub + rest);
        // The head's own line.
        assert(heads_set(ps).contains(h));
        let i0 = choose|i: int| 0 <= i < ps.len() && ps[i].len() > 0 && ps[i][0] == h;
        assert(good_name(ps[i0][0]));
        lemma_line_entry(prefix, d, last, h);
        lemma_stack_after_level(st, d, anc, h);
        let st2 = anc.push(h);
        assert((seq![line] + sub + rest)[0] == line);
        assert((seq![line] + sub + rest).drop_first() =~= sub + rest);
        assert(hier_paths(lines, st) == hier_paths(sub + rest, st2).insert(join_with(st2, seq!['/'])));
        assert(stack_end(lines, st) == stack_end(sub + rest, st2));
        lemma_hier_paths_concat(sub, rest, st2);
        let st3 = stack_end(sub, st2);
        // The children.
        assert(st2.subrange(0, d as int) =~= anc);
        if has_nonempty(ch) {
            lemma_children_height(ps, h);
            lemma_children_good(ps, h);
            assert(good_prefix(ext, d + 1)) by {
                assert forall|i: int| 0 <= i < ext.len() implies (#[trigger] ext[i] == '│' || ext[i] == ' ') by {
                    if i >= prefix.len() {
                        assert(ext[i] == branch_ext(last)[i - prefix.len()]);
                    } else {
                        assert(ext[i] == prefix[i]);
                    }
                }
            }
            assert(st2.subrange(0, d as int + 1) =~= st2);
            lemma_read_level(ch, ext, d + 1, st2, st2);
            assert(st3.subrange(0, d as int) =~= st3.subrange(0, d as int + 1).subrange(0, d as int));
        } else {
            assert(hier_paths(sub, st2) =~= Set::<Seq<char>>::empty());
        }
        // The later heads.
        lemma_read_heads(ps, prefix, d, anc, st3, hs, k + 1);
        // Lines read as they stand.
        assert forall|i: int| 0 <= i < lines.len() implies line_ok(#[trigger] lines[i]) by {
            if i == 0 {
                assert(lines[0] == line);
            } else if i < 1 + sub.len() {
                assert(lines[i] == sub[i - 1]);
            } else {
                assert(lines[i] == rest[i - 1 - sub.len()]);
            }
        }
        // The paths.
        let sub_paths = if has_nonempty(ch) { level_paths(ch, st2) } else { Set::<Seq<char>>::empty() };
        assert(hier_paths(lines, st) == heads_paths(ps, anc, hs, k + 1).union(sub_paths).insert(join_with(st2, seq!['/'])));
        assert(path_below(anc, ps[i0], 1) == join_with(st2, seq!['/'])) by {
            assert(anc + ps[i0].subrange(0, 1) =~= st2);
        }
        assert(heads_paths(ps, anc, hs, k) =~= heads_paths(ps, anc, hs, k + 1).union(sub_paths).insert(join_with(st2, seq!['/']))) by {
            // Every path of this head and the later ones is on one side.
            assert forall|x: Seq<char>| heads_paths(ps, anc, hs, k).contains(x) implies heads_paths(ps, anc, hs, k + 1).union(sub_paths).insert(join_with(st2, seq!['/'])).contains(x) by {
                let (i, j) = choose|i: int, j: int| 0 <= i < ps.len() && 1 <= j <= ps[i].len() && head_from(hs, k, ps[i][0]) && x == #[trigger] path_below(anc, ps[i], j);
                if ps[i][0] == h {
                    if j == 1 {
                        assert(anc + ps[i].subrange(0, 1) =~= st2);
                    } else {
                        let c = ps[i].drop_first();
                        lemma_children_of_contains(ps, h, c);
                        assert(ch.contains(c));
                        let i2 = choose|i2: int| 0 <= i2 < ch.len() && ch[i2] == c;
                        assert(has_nonempty(ch)) by {
                            assert(ch[i2].len() > 0);
                        }
                        assert(anc + ps[i].subrange(0, j) =~= st2 + ch[i2].subrange(0, j - 1));
                        assert(x == path_below(st2, ch[i2], j - 1));
                        assert(level_paths(ch, st2).contains(x));
                    }
                } else {
                    let m = choose|m: int| k <= m < hs.len() && hs[m] == ps[i][0];
                    assert(m != k);
                    assert(head_from(hs, k + 1, ps[i][0]));
                    assert(heads_paths(ps, anc, hs, k + 1).contains(x));
                }
            }
            assert forall|x: Seq<char>| heads_paths(ps, anc, hs, k + 1).union(sub_paths).insert(join_with(st2, seq!['/'])).contains(x) implies heads_paths(ps, anc, hs, k).contains(x) by {
                if x == join_with(st2, seq!['/']) {
                    assert(head_from(hs, k, ps[i0][0]));
                    assert(x == path_below(anc, ps[i0], 1));
                } else if heads_paths(ps, anc, hs, k + 1).contains(x) {
                    let (i, j) = choose|i: int, j: int| 0 <= i < ps.len() && 1 <= j <= ps[i].len() && head_from(hs, k + 1, ps[i][0]) && x == #[trigger] path_below(anc, ps[i], j);
                    let m = choose|m: int| k + 1 <= m < hs.len() && hs[m] == ps[i][0];
                    assert(head_from(hs, k, ps[i][0]));
                } else {
                    assert(has_nonempty(ch));
                    let (i2, j2) = choose|i2: int, j2: int| 0 <= i2 < ch.len() && 1 <= j2 <= ch[i2].len() && x == #[trigger] path_below(st2, ch[i2], j2);
                    assert(ch.contains(ch[i2]));
                    lemma_children_of_contains(ps, h, ch[i2]);
                    let a = choose|a: int| 0 <= a < ps.len() && ps[a].len() > 0 && ps[a][0] == h && #[trigger] ps[a].drop_first() == ch[i2];
                    assert(anc + ps[a].subrange(0, j2 + 1) =~= st2 + ch[i2].subrange(0, j2));
                    assert(x == path_below(anc, ps[a], j2 + 1));
                    assert(head_from(hs, k, ps[a][0]));
                }
            }
        }
    }
}

/* ------------------------- render, then parse ------------------------- */

/// Whether every part of a path reads back as itself from a rendered tree.
pub open spec fn good_path(p: Seq<char>) -> bool {
    forall|k: int| 0 <= k < path_parts(p).len() ==> good_name(#[trigger] path_parts(p)[k])
}

/// The paths that a tree of `paths` shows: for each path, each non-empty leading run of its
/// parts, joined with `/` (so every intermediate directory too).
pub open spec fn shown_paths(paths: Seq<Seq<char>>) -> Set<Seq<char>> {
    Set::new(
        |x: Seq<char>|
            exists|i: int, j: int|
                0 <= i < paths.len() && 1 <= j <= path_parts(paths[i]).len() && x == join_with(
                    #[trigger] path_parts(paths[i]).subrange(0, j),
                    seq!['/'],
                ),
    )
}

/// Reading back a rendered tree gives every path it shows: each input path's non-empty
/// leading runs of parts, intermediate directories included, and nothing else. This
/// holds when the root name is one line and every part reads back as itself (it does not
/// start with a tree glyph or whitespace, does not end with whitespace, and holds no
/// newline).
pub proof fn lemma_render_then_parse(paths: Seq<Seq<char>>, root: Seq<char>)
    requires
        !root.contains('\n'),
        forall|i: int| 0 <= i < paths.len() ==> good_path(#[trigger] paths[i]),
    ensures
        parse_hierarchy_spec(render_tree_spec(paths, Some(root))) == Some(shown_paths(paths)),
{
    let ps = paths.map_values(|p: Seq<char>| path_parts(p));
    assert(good_parts(ps)) by {
        assert forall|i: int, k: int| 0 <= i < ps.len() && 0 <= k < ps[i].len() implies good_name(#[trigger] ps[i][k]) by {
            assert(ps[i] == path_parts(paths[i]));
            assert(good_path(paths[i]));
        }
    }
    let t = tree_lines(ps, Seq::empty());
    let e = Seq::<Seq<char>>::empty();
    assert(good_prefix(Seq::<char>::empty(), 0));
    assert(e.subrange(0, 0) =~= e);
    lemma_read_level(ps, Seq::empty(), 0, e, e);
    lemma_level_text(ps, Seq::empty());
    let all = seq![root] + t;
    lemma_terminated_concat(seq![root], t);
    assert(terminated_lines(seq![root]) =~= root + seq!['\n']) by {
        assert(seq![root].drop_last() =~= Seq::<Seq<char>>::empty());
        assert(terminated_lines(Seq::<Seq<char>>::empty()) =~= Seq::<char>::empty());
    }
    assert(render_tree_spec(paths, Some(root)) == terminated_lines(all));
    assert forall|i: int| 0 <= i < all.len() implies !(#[trigger] all[i]).contains('\n') by {
        if i > 0 {
            assert(all[i] == t[i - 1]);
            assert(line_ok(t[i - 1]));
        }
    }
    lemma_lines_of_terminated(all);
    let ls = lines_spec(terminated_lines(all));
    assert(ls.drop_first() =~= t) by {
        assert forall|i: int| 0 <= i < t.len() implies ls.drop_first()[i] == t[i] by {
            assert(ls[i + 1] == strip_cr(all[i + 1]));
            assert(all[i + 1] == t[i]);
            assert(line_ok(t[i]));
        }
    }
    assert(level_paths(ps, e) =~= shown_paths(paths)) by {
        assert forall|x: Seq<char>| level_paths(ps, e).contains(x) implies shown_paths(paths).contains(x) by {
            let (i, j) = choose|i: int, j: int| 0 <= i < ps.len() && 1 <= j <= ps[i].len() && x == #[trigger] path_below(e, ps[i], j);
            assert(e + ps[i].subrange(0, j) =~= path_parts(paths[i]).subrange(0, j));
        }
        assert forall|x: Seq<char>| shown_paths(paths).contains(x) implies level_paths(ps, e).contains(x) by {
            let (i, j) = choose|i: int, j: int| 0 <= i < paths.len() && 1 <= j <= path_parts(paths[i]).len() && x == join_with(#[trigger] path_parts(paths[i]).subrange(0, j), seq!['/']);
            assert(ps[i] == path_parts(paths[i]));
            assert(e + ps[i].subrange(0, j) =~= path_parts(paths[i]).subrange(0, j));
            assert(x == path_below(e, ps[i], j));
        }
    }
}

/// Reading back a rendered tree gives back every input path that is written in its
/// canonical form (its non-empty parts joined with single `/`), under the conditions of
/// `lemma_render_then_parse`.
pub proof fn lemma_render_then_parse_contains_inputs(paths: Seq<Seq<char>>, root: Seq<char>)
    requires
        !root.contains('\n'),
        forall|i: int| 0 <= i < paths.len() ==> good_path(#[trigger] paths[i]),
        forall|i: int| 0 <= i < paths.len() ==> path_parts(#[trigger] paths[i]).len() > 0 && paths[i]
            == join_with(path_parts(paths[i]), seq!['/']),
    ensures
        parse_hierarchy_spec(render_tree_spec(paths, Some(root))) is Some,
        forall|i: int| 0 <= i < paths.len() ==> parse_hierarchy_spec(render_tree_spec(paths, Some(root))).unwrap().contains(#[trigger] paths[i]),
{
    lemma_render_then_parse(paths, root);
    assert forall|i: int| 0 <= i < paths.len() implies shown_paths(paths).contains(#[trigger] paths[i]) by {
        let pp = path_parts(paths[i]);
        assert(pp.subrange(0, pp.len() as int) =~= pp);
        assert(paths[i] == join_with(path_parts(paths[i]).subrange(0, pp.len() as int), seq!['/']));
    }
}

/// A rendered tree with a root name is that name on a line of its own, then the tree
/// rendered without a root.
pub proof fn lemma_render_root_line(paths: Seq<Seq<char>>, root: Seq<char>)
    ensures
        render_tree_spec(paths, Some(root)) == root + seq!['\n'] + render_tree_spec(paths, None),
{
    let ps = paths.map_values(|p: Seq<char>| path_parts(p));
    assert(Seq::<char>::empty() + render_level_spec(ps, Seq::empty()) =~= render_level_spec(ps, Seq::empty()));
}

/// A tree rendered without a root is empty (no paths) or ends with a newline: every line
/// it writes is terminated.
pub proof fn lemma_render_ends_with_newline(paths: Seq<Seq<char>>)
    ensures
        render_tree_spec(paths, None).len() == 0 || render_tree_spec(paths, None).last() == '\n',
        paths.len() == 0 ==> render_tree_spec(paths, None).len() == 0,
{
    let ps = paths.map_values(|p: Seq<char>| path_parts(p));
    let e = Seq::<char>::empty();
    lemma_level_text(ps, e);
    let t = tree_lines(ps, e);
    assert(render_tree_spec(paths, None) =~= terminated_lines(t));
    if t.len() > 0 {
        assert(terminated_lines(t) == terminated_lines(t.drop_last()) + t.last() + seq!['\n']);
    }
    if paths.len() == 0 {
        lemma_sorted_heads(ps);
        let hs = sorted_heads(ps);
        assert(heads_set(ps) =~= Set::<Seq<char>>::empty());
        if hs.len() > 0 {
            assert(hs.to_set().contains(hs[0]));
        }
        assert(t =~= Seq::<Seq<char>>::empty());
    }
}

/* ------------------------------ line count ------------------------------ */

/// The nodes of a tree of part lists: each non-empty leading run of each list, once.
pub open spec fn node_lists(ps: Seq<Seq<Seq<char>>>) -> Set<Seq<Seq<char>>> {
    Set::new(
        |x: Seq<Seq<char>>|
            exists|i: int, j: int| 0 <= i < ps.len() && 1 <= j <= ps[i].len() && x == #[trigger] ps[i].subrange(0, j),
    )
}

/// The nodes whose first part is one of `hs[k..]`.
pub open spec fn nodes_from(ps: Seq<Seq<Seq<char>>>, hs: Seq<Seq<char>>, k: int) -> Set<Seq<Seq<char>>> {
    node_lists(ps).filter(|x: Seq<Seq<char>>| head_from(hs, k, x[0]))
}

proof fn lemma_node_first(ps: Seq<Seq<Seq<char>>>, x: Seq<Seq<char>>)
    requires
        node_lists(ps).contains(x),
    ensures
        x.len() >= 1,
        heads_set(ps).contains(x[0]),
{
    let (i, j) = choose|i: int, j: int| 0 <= i < ps.len() && 1 <= j <= ps[i].len() && x == #[trigger] ps[i].subrange(0, j);
    assert(x[0] == ps[i][0]);
}

proof fn lemma_level_count(ps: Seq<Seq<Seq<char>>>, prefix: Seq<char>)
    ensures
        node_lists(ps).finite(),
        tree_lines(ps, prefix).len() == node_lists(ps).len(),
    decreases height(ps), 1nat, 0nat,
{
    let hs = sorted_heads(ps);
    lemma_sorted_heads(ps);
    lemma_heads_count(ps, prefix, hs, 0);
    assert(node_lists(ps) =~= nodes_from(ps, hs, 0)) by {
        assert forall|x: Seq<Seq<char>>| node_lists(ps).contains(x) implies head_from(hs, 0, x[0]) by {
            lemma_node_first(ps, x);
            assert(hs.to_set().contains(x[0]));
            let m = choose|m: int| 0 <= m < hs.len() && hs[m] == x[0];
        }
    }
}

proof fn lemma_heads_count(ps: Seq<Seq<Seq<char>>>, prefix: Seq<char>, hs: Seq<Seq<char>>, k: int)
    requires
        strictly_sorted(hs),
        hs.to_set() == heads_set(ps),
        0 <= k,
    ensures
        nodes_from(ps, hs, k).finite(),
        heads_lines(ps, prefix, hs, k).len() == nodes_from(ps, hs, k).len(),
    decreases height(ps), 0nat, (if k < hs.len() { hs.len() - k } else { 0 }) as nat,
{
    if k >= hs.len() {
        assert(nodes_from(ps, hs, k) =~= Set::<Seq<Seq<char>>>::empty());
    } else {
        let h = hs[k];
        let last = k + 1 == hs.len();
        let ch = children_of(ps, h);
        lemma_heads_count(ps, prefix, hs, k + 1);
        let rest = nodes_from(ps, hs, k + 1);
        let sub = if has_nonempty(ch) {
            tree_lines(ch, prefix + branch_ext(last))
        } else {
            Seq::empty()
        };
        if has_nonempty(ch) {
            lemma_children_height(ps, h);
            lemma_level_count(ch, prefix + branch_ext(last));
        } else {
            assert(node_lists(ch) =~= Set::<Seq<Seq<char>>>::empty()) by {
                assert forall|x: Seq<Seq<char>>| !node_lists(ch).contains(x) by {
                    if node_lists(ch).contains(x) {
                        let (i, j) = choose|i: int, j: int| 0 <= i < ch.len() && 1 <= j <= ch[i].len() && x == #[trigger] ch[i].subrange(0, j);
                        assert(ch[i].len() > 0);
                    }
                }
            }
        }
        assert(sub.len() == node_lists(ch).len());
        let f = |y: Seq<Seq<char>>| seq![h] + y;
        let img = node_lists(ch).map(f);
        assert(vstd::relations::injective_on(f, node_lists(ch))) by {
            assert forall|a: Seq<Seq<char>>, b: Seq<Seq<char>>|
                node_lists(ch).contains(a) && node_lists(ch).contains(b) && #[trigger] f(a) == #[trigger] f(b) implies a == b by {
                assert(f(a).drop_first() =~= a);
                assert(f(b).drop_first() =~= b);
            }
        }
        vstd::set_lib::lemma_map_size(node_lists(ch), img, f);
        let one = Set::<Seq<Seq<char>>>::empty().insert(seq![h]);
        let g = one + img;
        assert(one.disjoint(img)) by {
            assert forall|x: Seq<Seq<char>>| img.contains(x) implies !one.contains(x) by {
                let y = choose|y: Seq<Seq<char>>| node_lists(ch).contains(y) && f(y) == x;
                let (i, j) = choose|i: int, j: int| 0 <= i < ch.len() && 1 <= j <= ch[i].len() && y == #[trigger] ch[i].subrange(0, j);
                assert(x.len() >= 2);
            }
        }
        vstd::set_lib::lemma_set_disjoint_lens(one, img);
        assert(one.len() == 1);
        assert(g.disjoint(rest)) by {
            assert forall|x: Seq<Seq<char>>| g.contains(x) implies !rest.contains(x) by {
                assert(x[0] == h) by {
                    if img.contains(x) {
                        let y = choose|y: Seq<Seq<char>>| node_lists(ch).contains(y) && f(y) == x;
                    }
                }
                if rest.contains(x) {
                    let m = choose|m: int| k + 1 <= m < hs.len() && hs[m] == x[0];
                    assert(chars_lt(hs[k], hs[m]));
                    crate::chars::lemma_chars_lt_irreflexive(hs[k]);
                }
            }
        }
        vstd::set_lib::lemma_set_disjoint_lens(g, rest);
        assert(nodes_from(ps, hs, k) =~= g + rest) by {
            assert forall|x: Seq<Seq<char>>| #[trigger] nodes_from(ps, hs, k).contains(x) implies (g + rest).contains(x) by {
                let (i, j) = choose|i: int, j: int| 0 <= i < ps.len() && 1 <= j <= ps[i].len() && x == #[trigger] ps[i].subrange(0, j);
                assert(x[0] == ps[i][0]);
                if x[0] == h {
                    if j == 1 {
                        assert(x =~= seq![h]);
                    } else {
                        let d = ps[i].drop_first();
                        lemma_children_of_contains(ps, h, d);
                        assert(ch.contains(d));
                        let c = choose|c: int| 0 <= c < ch.len() && ch[c] == d;
                        let y = ch[c].subrange(0, j - 1);
                        assert(node_lists(ch).contains(y));
                        assert(f(y) =~= x);
                        assert(img.contains(x));
                    }
                } else {
                    let m = choose|m: int| k <= m < hs.len() && hs[m] == x[0];
                    assert(m != k);
                    assert(rest.contains(x));
                }
            }
            assert forall|x: Seq<Seq<char>>| (g + rest).contains(x) implies #[trigger] nodes_from(ps, hs, k).contains(x) by {
                if one.contains(x) {
                    assert(heads_set(ps).contains(h)) by {
                        assert(hs.to_set().contains(hs[k]));
                    }
                    let i = choose|i: int| 0 <= i < ps.len() && ps[i].len() > 0 && ps[i][0] == h;
                    assert(ps[i].subrange(0, 1) =~= x);
                    assert(node_lists(ps).contains(x));
                    assert(head_from(hs, k, x[0]));
                } else if img.contains(x) {
                    let y = choose|y: Seq<Seq<char>>| node_lists(ch).contains(y) && f(y) == x;
                    let (c, j) = choose|c: int, j: int| 0 <= c < ch.len() && 1 <= j <= ch[c].len() && y == #[trigger] ch[c].subrange(0, j);
                    assert(ch.contains(ch[c]));
                    lemma_children_of_contains(ps, h, ch[c]);
                    let i = choose|i: int| 0 <= i < ps.len() && ps[i].len() > 0 && ps[i][0] == h && #[trigger] ps[i].drop_first() == ch[c];
                    assert(ps[i].subrange(0, j + 1) =~= x);
                    assert(node_lists(ps).contains(x));
                    assert(head_from(hs, k, x[0]));
                } else {
                    let m = choose|m: int| k + 1 <= m < hs.len() && hs[m] == x[0];
                    assert(head_from(hs, k, x[0]));
                }
            }
        }
    }
}

proof fn lemma_level_plain(ps: Seq<Seq<Seq<char>>>, prefix: Seq<char>)
    requires
        !prefix.contains('\n'),
        forall|i: int, k: int| 0 <= i < ps.len() && 0 <= k < ps[i].len() ==> !(#[trigger] ps[i][k]).contains('\n'),
    ensures
        forall|i: int| 0 <= i < tree_lines(ps, prefix).len() ==> !(#[trigger] tree_lines(ps, prefix)[i]).contains('\n'),
    decreases height(ps), 1nat, 0nat,
{
    let hs = sorted_heads(ps);
    lemma_sorted_heads(ps);
    assert forall|m: int| 0 <= m < hs.len() implies !(#[trigger] hs[m]).contains('\n') by {
        assert(hs.to_set().contains(hs[m]));
        assert(heads_set(ps).contains(hs[m]));
        let i = choose|i: int| 0 <= i < ps.len() && ps[i].len() > 0 && ps[i][0] == hs[m];
        assert(!ps[i][0].contains('\n'));
    }
    lemma_heads_plain(ps, prefix, hs, 0);
    assert(tree_lines(ps, prefix) == heads_lines(ps, prefix, hs, 0));
}

proof fn lemma_no_nl_concat(a: Seq<char>, b: Seq<char>)
    requires
        !a.contains('\n'),
        !b.contains('\n'),
    ensures
        !(a + b).contains('\n'),
{
    if (a + b).contains('\n') {
        let x = choose|x: int| 0 <= x < (a + b).len() && (a + b)[x] == '\n';
        if x < a.len() {
            assert(a[x] == '\n');
        } else {
            assert(b[x - a.len()] == '\n');
        }
    }
}

proof fn lemma_heads_plain(ps: Seq<Seq<Seq<char>>>, prefix: Seq<char>, hs: Seq<Seq<char>>, k: int)
    requires
        !prefix.contains('\n'),
        forall|i: int, k: int| 0 <= i < ps.len() && 0 <= k < ps[i].len() ==> !(#[trigger] ps[i][k]).contains('\n'),
        forall|m: int| 0 <= m < hs.len() ==> !(#[trigger] hs[m]).contains('\n'),
    ensures
        forall|i: int| 0 <= i < heads_lines(ps, prefix, hs, k).len() ==> !(#[trigger] heads_lines(ps, prefix, hs, k)[i]).contains('\n'),
    decreases height(ps), 0nat, (if k < hs.len() { hs.len() - k } else { 0 }) as nat,
{
    if 0 <= k < hs.len() {
        let h = hs[k];
        let last = k + 1 == hs.len();
        let ch = children_of(ps, h);
        let line = prefix + branch_conn(last) + h;
        assert(!branch_conn(last).contains('\n')) by {
            if branch_conn(last).contains('\n') {
                let x = choose|x: int| 0 <= x < branch_conn(last).len() && branch_conn(last)[x] == '\n';
            }
        }
        assert(!branch_ext(last).contains('\n')) by {
            if branch_ext(last).contains('\n') {
                let x = choose|x: int| 0 <= x < branch_ext(last).len() && branch_ext(last)[x] == '\n';
            }
        }
        lemma_no_nl_concat(prefix, branch_conn(last));
        lemma_no_nl_concat(prefix + branch_conn(last), h);
        lemma_no_nl_concat(prefix, branch_ext(last));
        lemma_heads_plain(ps, prefix, hs, k + 1);
        let sub = if has_nonempty(ch) {
            tree_lines(ch, prefix + branch_ext(last))
        } else {
            Seq::empty()
        };
        if has_nonempty(ch) {
            lemma_children_height(ps, h);
            assert forall|i: int, q: int| 0 <= i < ch.len() && 0 <= q < ch[i].len() implies !(#[trigger] ch[i][q]).contains('\n') by {
                assert(ch.contains(ch[i]));
                lemma_children_of_contains(ps, h, ch[i]);
                let j = choose|j: int| 0 <= j < ps.len() && ps[j].len() > 0 && ps[j][0] == h && #[trigger] ps[j].drop_first() == ch[i];
                assert(ch[i][q] == ps[j][q + 1]);
            }
            lemma_level_plain(ch, prefix + branch_ext(last));
        }
        let all = seq![line] + sub + heads_lines(ps, prefix, hs, k + 1);
        assert(heads_lines(ps, prefix, hs, k) == all);
        assert forall|i: int| 0 <= i < all.len() implies !(#[trigger] all[i]).contains('\n') by {
            if i == 0 {
            } else if i < 1 + sub.len() {
                assert(all[i] == sub[i - 1]);
            } else {
                assert(all[i] == heads_lines(ps, prefix, hs, k + 1)[i - 1 - sub.len()]);
            }
        }
    }
}

/// A tree rendered without a root has one line per node: one for each distinct non-empty
/// leading run of the parts of the paths (so a path given twice prints once), when no part
/// holds a newline.
pub proof fn lemma_render_line_count(paths: Seq<Seq<char>>)
    requires
        forall|i: int, k: int| 0 <= i < paths.len() && 0 <= k < path_parts(paths[i]).len() ==> !(#[trigger] path_parts(paths[i])[k]).contains('\n'),
    ensures
        node_lists(paths.map_values(|p: Seq<char>| path_parts(p))).finite(),
        lines_spec(render_tree_spec(paths, None)).len() == node_lists(paths.map_values(|p: Seq<char>| path_parts(p))).len(),
{
    let ps = paths.map_values(|p: Seq<char>| path_parts(p));
    let e = Seq::<char>::empty();
    lemma_level_count(ps, e);
    lemma_level_text(ps, e);
    assert forall|i: int, k: int| 0 <= i < ps.len() && 0 <= k < ps[i].len() implies !(#[trigger] ps[i][k]).contains('\n') by {
        assert(ps[i] == path_parts(paths[i]));
        assert(!path_parts(paths[i])[k].contains('\n'));
    }
    lemma_level_plain(ps, e);
    let t = tree_lines(ps, e);
    assert(render_tree_spec(paths, None) =~= terminated_lines(t));
    lemma_lines_of_terminated(t);
}

} // verus!
