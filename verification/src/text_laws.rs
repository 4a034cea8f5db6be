//! Laws of the blank-line collapse.
use crate::chars::{has_crlf, is_ws, join_with, lines_spec, split_on, strip_cr};
use crate::text::{
    collapse_blank_lines_spec, is_blank, kept_lines, lemma_lines_of_terminated,
    lemma_split_terminated, lemma_terminated_concat, lemma_terminated_is_join, terminated_lines,
};
use vstd::prelude::*;

verus! {

/// Whether no line of `ls` holds a newline.
pub open spec fn no_newlines(ls: Seq<Seq<char>>) -> bool {
    forall|i: int| 0 <= i < ls.len() ==> !(#[trigger] ls[i]).contains('\n')
}

proof fn lemma_split_pieces(s: Seq<char>, c: char)
    ensures
        forall|i: int| 0 <= i < split_on(s, c).len() ==> !(#[trigger] split_on(s, c)[i]).contains(c),
    decreases s.len(),
{
    if s.len() > 0 {
        let p = split_on(s.drop_last(), c);
        lemma_split_pieces(s.drop_last(), c);
        crate::chars::lemma_split_on_nonempty(s.drop_last(), c);
        let q = split_on(s, c);
        assert forall|i: int| 0 <= i < q.len() implies !(#[trigger] q[i]).contains(c) by {
            if s.last() == c {
                if i < p.len() {
                    assert(q[i] == p[i]);
                } else {
                    assert(q[i] =~= Seq::<char>::empty());
                }
            } else if i < p.len() - 1 {
                assert(q[i] == p[i]);
            } else {
                let w = p.last().push(s.last());
                assert(q[i] == w);
                if w.contains(c) {
                    let j = choose|j: int| 0 <= j < w.len() && w[j] == c;
                    assert(j < w.len() - 1);
                    assert(p.last()[j] == c);
                    assert(p[p.len() - 1] == p.last());
                }
            }
        }
    }
}

proof fn lemma_lines_no_newlines(s: Seq<char>)
    ensures
        no_newlines(lines_spec(s)),
{
    lemma_split_pieces(s, '\n');
    let ls = lines_spec(s);
    assert forall|i: int| 0 <= i < ls.len() implies !(#[trigger] ls[i]).contains('\n') by {
        let p = split_on(s, '\n');
        assert(!p[i].contains('\n'));
        if ls[i] != p[i] {
            let w = p[i];
            assert(ls[i] == w.drop_last());
            if w.drop_last().contains('\n') {
                let j = choose|j: int| 0 <= j < w.drop_last().len() && w.drop_last()[j] == '\n';
                assert(w[j] == '\n');
            }
        }
    }
}

proof fn lemma_kept_no_newlines(ls: Seq<Seq<char>>)
    requires
        no_newlines(ls),
    ensures
        no_newlines(kept_lines(ls)),
        kept_lines(ls).len() <= ls.len(),
        ls.len() > 0 ==> kept_lines(ls).len() > 0 && is_blank(kept_lines(ls).last()) == is_blank(ls.last()),
    decreases ls.len(),
{
    if ls.len() > 0 {
        let l0 = ls.drop_last();
        assert(no_newlines(l0)) by {
            assert forall|i: int| 0 <= i < l0.len() implies !(#[trigger] l0[i]).contains('\n') by {
                assert(l0[i] == ls[i]);
            }
        }
        lemma_kept_no_newlines(l0);
        let k0 = kept_lines(l0);
        if ls.len() >= 2 && is_blank(ls.last()) && is_blank(ls[ls.len() - 2]) {
            assert(l0.last() == ls[ls.len() - 2]);
        } else {
            let k = k0.push(ls.last());
            assert forall|i: int| 0 <= i < k.len() implies !(#[trigger] k[i]).contains('\n') by {
                if i == k0.len() {
                    assert(ls[ls.len() - 1] == ls.last());
                } else {
                    assert(k[i] == k0[i]);
                }
            }
        }
    }
}

/// Collapsing kept lines again keeps them all.
proof fn lemma_kept_idempotent(ls: Seq<Seq<char>>)
    requires
        no_newlines(ls),
    ensures
        kept_lines(kept_lines(ls)) == kept_lines(ls),
    decreases ls.len(),
{
    if ls.len() > 0 {
        let l0 = ls.drop_last();
        assert(no_newlines(l0)) by {
            assert forall|i: int| 0 <= i < l0.len() implies !(#[trigger] l0[i]).contains('\n') by {
                assert(l0[i] == ls[i]);
            }
        }
        lemma_kept_idempotent(l0);
        lemma_kept_no_newlines(l0);
        let k0 = kept_lines(l0);
        if !(ls.len() >= 2 && is_blank(ls.last()) && is_blank(ls[ls.len() - 2])) {
            let k = k0.push(ls.last());
            assert(k.drop_last() =~= k0);
            assert(k.last() == ls.last());
            if k.len() >= 2 {
                assert(k[k.len() - 2] == k0.last());
                assert(l0.last() == ls[ls.len() - 2]);
            }
        }
    }
}

/// A line list that collapsing keeps whole is kept whole without its last line too.
proof fn lemma_kept_fixed_prefix(k0: Seq<Seq<char>>, x: Seq<char>)
    requires
        no_newlines(k0),
        kept_lines(k0.push(x)) == k0.push(x),
    ensures
        kept_lines(k0) == k0,
{
    let k = k0.push(x);
    assert(k.drop_last() =~= k0);
    lemma_kept_no_newlines(k0);
    if k.len() >= 2 && is_blank(k.last()) && is_blank(k[k.len() - 2]) {
        assert(kept_lines(k) == kept_lines(k0));
        assert(false);
    } else {
        assert(kept_lines(k) == kept_lines(k0).push(x));
        assert(kept_lines(k0) =~= kept_lines(k).drop_last());
    }
}

/// A line that ends with `\r` puts `\r\n` into the terminated lines.
proof fn lemma_terminated_crlf(k: Seq<Seq<char>>, m: int)
    requires
        0 <= m < k.len(),
        k[m].len() > 0,
        k[m].last() == '\r',
    ensures
        has_crlf(terminated_lines(k)),
{
    let a = k.subrange(0, m + 1);
    let b = k.subrange(m + 1, k.len() as int);
    assert(a + b =~= k);
    lemma_terminated_concat(a, b);
    assert(a.drop_last() =~= k.subrange(0, m));
    assert(a.last() == k[m]);
    let t0 = terminated_lines(k.subrange(0, m));
    let t = terminated_lines(k);
    assert(terminated_lines(a) == t0 + k[m] + seq!['\n']);
    let i = t0.len() + k[m].len() - 1;
    assert(t[i] == '\r');
    assert(t[i + 1] == '\n');
}

/// Lines without newlines, terminated, read back as themselves when no `\r\n` arises.
proof fn lemma_lines_of_terminated_plain(k: Seq<Seq<char>>)
    requires
        no_newlines(k),
        !has_crlf(terminated_lines(k)),
    ensures
        lines_spec(terminated_lines(k)) == k,
{
    lemma_lines_of_terminated(k);
    assert forall|m: int| 0 <= m < k.len() implies strip_cr(#[trigger] k[m]) == k[m] by {
        if k[m].len() > 0 && k[m].last() == '\r' {
            lemma_terminated_crlf(k, m);
        }
    }
    assert(k.map_values(|l: Seq<char>| strip_cr(l)) =~= k);
}

/// Lines without newlines, joined, read back as themselves when the last is not empty and
/// no `\r\n` arises.
proof fn lemma_lines_of_joined_plain(k: Seq<Seq<char>>)
    requires
        no_newlines(k),
        k.len() > 0,
        k.last().len() > 0,
        !has_crlf(join_with(k, seq!['\n'])),
    ensures
        lines_spec(join_with(k, seq!['\n'])) == k,
{
    let j = join_with(k, seq!['\n']);
    lemma_terminated_is_join(k);
    lemma_split_terminated(k);
    assert((j + seq!['\n']).drop_last() =~= j);
    assert(split_on(j + seq!['\n'], '\n') == split_on(j, '\n').push(Seq::<char>::empty()));
    assert(split_on(j, '\n') =~= split_on(j + seq!['\n'], '\n').drop_last());
    assert(split_on(j, '\n') == k);
    assert(!k.last().contains('\n')) by {
        assert(k[k.len() - 1] == k.last());
    }
    if k.len() > 1 {
        let k0 = k.drop_last();
        assert(j == join_with(k0, seq!['\n']) + seq!['\n'] + k.last());
        lemma_terminated_is_join(k0);
        assert(j == terminated_lines(k0) + k.last());
    } else {
        assert(j == k[0]);
    }
    assert(j.last() == k.last().last());
    assert(k.last()[k.last().len() - 1] != '\n');
    assert forall|m: int| 0 <= m < k.len() - 1 implies strip_cr(#[trigger] k[m]) == k[m] by {
        let k0 = k.drop_last();
        if k[m].len() > 0 && k[m].last() == '\r' {
            assert(k0[m] == k[m]);
            lemma_terminated_crlf(k0, m);
            let i = choose|i: int| #![trigger terminated_lines(k0)[i]] 0 <= i < terminated_lines(k0).len() - 1 && terminated_lines(k0)[i] == '\r' && terminated_lines(k0)[i + 1] == '\n';
            assert(j[i] == '\r' && j[i + 1] == '\n');
        }
    }
    assert(lines_spec(j) =~= k);
}

/// Collapsing twice gives what collapsing once gives, unless the collapsed text holds a
/// `\r\n` (which reading its lines again would drop).
pub proof fn lemma_collapse_idempotent(s: Seq<char>)
    requires
        !has_crlf(collapse_blank_lines_spec(s)),
    ensures
        collapse_blank_lines_spec(collapse_blank_lines_spec(s)) == collapse_blank_lines_spec(s),
{
    let ls = lines_spec(s);
    let k = kept_lines(ls);
    let t = collapse_blank_lines_spec(s);
    lemma_lines_no_newlines(s);
    lemma_kept_no_newlines(ls);
    lemma_kept_idempotent(ls);
    if k.len() == 0 {
        assert(t =~= Seq::<char>::empty());
        assert(lines_spec(t) =~= Seq::<Seq<char>>::empty());
        assert(kept_lines(Seq::<Seq<char>>::empty()) =~= Seq::<Seq<char>>::empty());
    } else if s.len() > 0 && s.last() == '\n' {
        lemma_terminated_is_join(k);
        assert(t == terminated_lines(k));
        lemma_lines_of_terminated_plain(k);
        assert(t.last() == '\n');
    } else if k.last().len() > 0 {
        assert(t == join_with(k, seq!['\n']));
        lemma_lines_of_joined_plain(k);
        assert(!k.last().contains('\n')) by {
            assert(k[k.len() - 1] == k.last());
        }
        if k.len() > 1 {
            assert(t == join_with(k.drop_last(), seq!['\n']) + seq!['\n'] + k.last());
        }
        assert(t.last() == k.last().last());
        assert(k.last()[k.last().len() - 1] != '\n');
    } else if k.len() == 1 {
        assert(t == k[0]);
        assert(t =~= Seq::<char>::empty());
        assert(lines_spec(t) =~= Seq::<Seq<char>>::empty());
        assert(kept_lines(Seq::<Seq<char>>::empty()) =~= Seq::<Seq<char>>::empty());
    } else {
        let k0 = k.drop_last();
        assert(k0.push(k.last()) =~= k);
        assert(no_newlines(k0)) by {
            assert forall|i: int| 0 <= i < k0.len() implies !(#[trigger] k0[i]).contains('\n') by {
                assert(k0[i] == k[i]);
            }
        }
        lemma_kept_fixed_prefix(k0, k.last());
        assert(t == join_with(k0, seq!['\n']) + seq!['\n'] + k.last());
        assert(k.last() =~= Seq::<char>::empty());
        lemma_terminated_is_join(k0);
        assert(t =~= terminated_lines(k0));
        lemma_lines_of_terminated_plain(k0);
        assert(t.last() == '\n');
    }
}

/// Whether `t` holds three newlines in a row.
pub open spec fn has_triple_newline(t: Seq<char>) -> bool {
    exists|i: int| #![trigger t[i]] 0 <= i && i + 2 < t.len() && t[i] == '\n' && t[i + 1] == '\n' && t[i + 2] == '\n'
}

/// Whether no two neighbouring lines of `k` are both blank.
pub open spec fn no_blank_pair(k: Seq<Seq<char>>) -> bool {
    forall|i: int| 0 <= i < k.len() - 1 ==> !(is_blank(#[trigger] k[i]) && is_blank(k[i + 1]))
}

proof fn lemma_kept_no_blank_pair(ls: Seq<Seq<char>>)
    requires
        no_newlines(ls),
    ensures
        no_blank_pair(kept_lines(ls)),
    decreases ls.len(),
{
    if ls.len() > 0 {
        let l0 = ls.drop_last();
        assert(no_newlines(l0)) by {
            assert forall|i: int| 0 <= i < l0.len() implies !(#[trigger] l0[i]).contains('\n') by {
                assert(l0[i] == ls[i]);
            }
        }
        lemma_kept_no_blank_pair(l0);
        lemma_kept_no_newlines(l0);
        let k0 = kept_lines(l0);
        if !(ls.len() >= 2 && is_blank(ls.last()) && is_blank(ls[ls.len() - 2])) {
            let k = k0.push(ls.last());
            assert forall|i: int| 0 <= i < k.len() - 1 implies !(is_blank(#[trigger] k[i]) && is_blank(k[i + 1])) by {
                if i == k.len() - 2 {
                    assert(k[i] == k0.last());
                    assert(l0.last() == ls[ls.len() - 2]);
                } else {
                    assert(k[i] == k0[i] && k[i + 1] == k0[i + 1]);
                }
            }
        }
    }
}

/// Joined lines without newlines and without two blank neighbours hold no three newlines
/// in a row and do not end with two newlines; they end with one exactly when the last
/// line is empty and is not the only one.
proof fn lemma_join_no_triple(k: Seq<Seq<char>>)
    requires
        k.len() > 0,
        no_newlines(k),
        no_blank_pair(k),
    ensures
        !has_triple_newline(join_with(k, seq!['\n'])),
        !(join_with(k, seq!['\n']).len() >= 2 && join_with(k, seq!['\n']).last() == '\n' && join_with(k, seq!['\n'])[join_with(k, seq!['\n']).len() - 2] == '\n'),
        (join_with(k, seq!['\n']).len() > 0 && join_with(k, seq!['\n']).last() == '\n') == (k.len() >= 2 && k.last().len() == 0),
    decreases k.len(),
{
    let j = join_with(k, seq!['\n']);
    let l = k.last();
    assert(!l.contains('\n')) by {
        assert(k[k.len() - 1] == l);
    }
    if k.len() == 1 {
        assert(j == k[0]);
        if has_triple_newline(j) {
            let i = choose|i: int| #![trigger j[i]] 0 <= i && i + 2 < j.len() && j[i] == '\n' && j[i + 1] == '\n' && j[i + 2] == '\n';
            assert(l[i] == '\n');
        }
        if j.len() > 0 {
            assert(l[l.len() - 1] == j.last());
        }
    } else {
        let k0 = k.drop_last();
        assert(no_newlines(k0)) by {
            assert forall|i: int| 0 <= i < k0.len() implies !(#[trigger] k0[i]).contains('\n') by {
                assert(k0[i] == k[i]);
            }
        }
        assert(no_blank_pair(k0)) by {
            assert forall|i: int| 0 <= i < k0.len() - 1 implies !(is_blank(#[trigger] k0[i]) && is_blank(k0[i + 1])) by {
                assert(k0[i] == k[i] && k0[i + 1] == k[i + 1]);
            }
        }
        lemma_join_no_triple(k0);
        let j0 = join_with(k0, seq!['\n']);
        assert(j == j0 + seq!['\n'] + l);
        let n0 = j0.len() as int;
        // The last line is not '\n', so no run of newlines reaches into it.
        assert forall|x: int| n0 + 1 <= x < j.len() implies j[x] != '\n' by {
            assert(j[x] == l[x - n0 - 1]);
        }
        if has_triple_newline(j) {
            let i = choose|i: int| #![trigger j[i]] 0 <= i && i + 2 < j.len() && j[i] == '\n' && j[i + 1] == '\n' && j[i + 2] == '\n';
            if i + 2 < n0 {
                assert(j0[i] == j[i] && j0[i + 1] == j[i + 1] && j0[i + 2] == j[i + 2]);
            } else if i + 2 == n0 {
                assert(j0[n0 - 1] == '\n' && j0[n0 - 2] == '\n');
            } else {
                assert(j[i + 2] != '\n');
            }
        }
        if l.len() == 0 {
            assert(j =~= j0 + seq!['\n']);
            // Two newlines at the end would need an empty line before the empty last one.
            if j.len() >= 2 && j[j.len() - 2] == '\n' {
                assert(j0.last() == '\n');
                assert(k0.last().len() == 0);
                assert(k0.last() == k[k.len() - 2]);
                assert(crate::chars::all_ws(k[k.len() - 2]));
                assert(crate::chars::all_ws(k[k.len() - 1]));
            }
        } else {
            assert(j.last() == l.last());
            assert(l[l.len() - 1] == j.last());
        }
    }
}

/// After collapsing, no three newlines in a row remain.
pub proof fn lemma_collapse_no_triple_newline(s: Seq<char>)
    ensures
        !has_triple_newline(collapse_blank_lines_spec(s)),
{
    let ls = lines_spec(s);
    let k = kept_lines(ls);
    let t = collapse_blank_lines_spec(s);
    lemma_lines_no_newlines(s);
    lemma_kept_no_newlines(ls);
    lemma_kept_no_blank_pair(ls);
    if k.len() == 0 {
        assert(t =~= Seq::<char>::empty());
    } else {
        lemma_join_no_triple(k);
        let j = join_with(k, seq!['\n']);
        if s.len() > 0 && s.last() == '\n' {
            assert(t == j + seq!['\n']);
            if has_triple_newline(t) {
                let i = choose|i: int| #![trigger t[i]] 0 <= i && i + 2 < t.len() && t[i] == '\n' && t[i + 1] == '\n' && t[i + 2] == '\n';
                if i + 2 < j.len() {
                    assert(j[i] == t[i] && j[i + 1] == t[i + 1] && j[i + 2] == t[i + 2]);
                } else {
                    assert(j[j.len() - 1] == '\n' && j[j.len() - 2] == '\n');
                }
            }
        }
    }
}

/* ------------------------- texts without carriage returns ------------------------- */

proof fn lemma_split_avoids(s: Seq<char>, sep: char, c: char)
    requires
        !s.contains(c),
    ensures
        forall|i: int| 0 <= i < split_on(s, sep).len() ==> !(#[trigger] split_on(s, sep)[i]).contains(c),
    decreases s.len(),
{
    if s.len() > 0 {
        let d = s.drop_last();
        assert(!d.contains(c)) by {
            if d.contains(c) {
                let k = choose|k: int| 0 <= k < d.len() && d[k] == c;
                assert(s[k] == c);
            }
        }
        lemma_split_avoids(d, sep, c);
        crate::chars::lemma_split_on_nonempty(d, sep);
        let p = split_on(d, sep);
        assert(s.last() != c) by {
            assert(s[s.len() - 1] == s.last());
        }
        assert forall|i: int| 0 <= i < split_on(s, sep).len() implies !(#[trigger] split_on(s, sep)[i]).contains(c) by {
            if s.last() == sep {
                if i < p.len() {
                    assert(split_on(s, sep)[i] == p[i]);
                } else {
                    assert(split_on(s, sep)[i] =~= Seq::<char>::empty());
                }
            } else if i == p.len() - 1 {
                let q = p.last().push(s.last());
                assert(split_on(s, sep)[i] == q);
                if q.contains(c) {
                    let k = choose|k: int| 0 <= k < q.len() && q[k] == c;
                    if k < p.last().len() {
                        assert(p[p.len() - 1][k] == c);
                    }
                }
            } else {
                assert(split_on(s, sep)[i] == p[i]);
            }
        }
    }
}

proof fn lemma_lines_avoid(s: Seq<char>, c: char)
    requires
        !s.contains(c),
    ensures
        forall|i: int| 0 <= i < lines_spec(s).len() ==> !(#[trigger] lines_spec(s)[i]).contains(c),
{
    if s.len() > 0 {
        let p = split_on(s, '\n');
        lemma_split_avoids(s, '\n', c);
        crate::chars::lemma_split_on_nonempty(s, '\n');
        assert forall|i: int| 0 <= i < lines_spec(s).len() implies !(#[trigger] lines_spec(s)[i]).contains(c) by {
            let l = lines_spec(s)[i];
            assert(!p[i].contains(c));
            if l.contains(c) {
                let k = choose|k: int| 0 <= k < l.len() && l[k] == c;
                assert(p[i][k] == c);
            }
        }
    }
}

proof fn lemma_kept_avoid(ls: Seq<Seq<char>>, c: char)
    requires
        forall|i: int| 0 <= i < ls.len() ==> !(#[trigger] ls[i]).contains(c),
    ensures
        forall|j: int| 0 <= j < kept_lines(ls).len() ==> !(#[trigger] kept_lines(ls)[j]).contains(c),
    decreases ls.len(),
{
    if ls.len() > 0 {
        let d = ls.drop_last();
        assert forall|i: int| 0 <= i < d.len() implies !(#[trigger] d[i]).contains(c) by {
            assert(d[i] == ls[i]);
        }
        lemma_kept_avoid(d, c);
        assert(!ls[ls.len() - 1].contains(c));
        let kd = kept_lines(d);
        if !(ls.len() >= 2 && is_blank(ls.last()) && is_blank(ls[ls.len() - 2])) {
            assert(kept_lines(ls) == kd.push(ls.last()));
            assert forall|j: int| 0 <= j < kept_lines(ls).len() implies !(#[trigger] kept_lines(ls)[j]).contains(c) by {
                if j < kd.len() {
                    assert(kept_lines(ls)[j] == kd[j]);
                }
            }
        }
    }
}

proof fn lemma_join_avoids(parts: Seq<Seq<char>>, c: char)
    requires
        c != '\n',
        forall|i: int| 0 <= i < parts.len() ==> !(#[trigger] parts[i]).contains(c),
    ensures
        !join_with(parts, seq!['\n']).contains(c),
    decreases parts.len(),
{
    if parts.len() == 1 {
        assert(!parts[0].contains(c));
    } else if parts.len() > 1 {
        let d = parts.drop_last();
        assert forall|i: int| 0 <= i < d.len() implies !(#[trigger] d[i]).contains(c) by {
            assert(d[i] == parts[i]);
        }
        lemma_join_avoids(d, c);
        let jd = join_with(d, seq!['\n']);
        let last = parts[parts.len() - 1];
        assert(!last.contains(c));
        let j = jd + seq!['\n'] + last;
        assert(join_with(parts, seq!['\n']) == j);
        if j.contains(c) {
            let k = choose|k: int| 0 <= k < j.len() && j[k] == c;
            if k < jd.len() {
                assert(jd[k] == c);
            } else if k > jd.len() {
                assert(last[k - jd.len() - 1] == c);
            }
        }
    }
}

/// Collapsing a text without carriage returns gives a text without them.
proof fn lemma_collapse_avoids_cr(s: Seq<char>)
    requires
        !s.contains('\r'),
    ensures
        !collapse_blank_lines_spec(s).contains('\r'),
        !has_crlf(collapse_blank_lines_spec(s)),
{
    let k = kept_lines(lines_spec(s));
    lemma_lines_avoid(s, '\r');
    lemma_kept_avoid(lines_spec(s), '\r');
    lemma_join_avoids(k, '\r');
    let j = join_with(k, seq!['\n']);
    let t = collapse_blank_lines_spec(s);
    if t.contains('\r') {
        let x = choose|x: int| 0 <= x < t.len() && t[x] == '\r';
        if x < j.len() {
            assert(j[x] == '\r');
        }
    }
    if has_crlf(t) {
        let x = choose|x: int| #![trigger t[x]] 0 <= x < t.len() - 1 && t[x] == '\r' && t[x + 1] == '\n';
        assert(t.contains(t[x]));
    }
}

/// Collapsing blank lines is idempotent on texts without carriage returns: a second pass
/// changes nothing, and the result has no three newlines in a row.
pub proof fn lemma_collapse_idempotent_without_cr(s: Seq<char>)
    requires
        !s.contains('\r'),
    ensures
        collapse_blank_lines_spec(collapse_blank_lines_spec(s)) == collapse_blank_lines_spec(s),
{
    lemma_collapse_avoids_cr(s);
    lemma_collapse_idempotent(s);
}

/* ------------------------- whitespace-only lines ------------------------- */

/// Whether a line holds nothing but whitespace characters (an empty line included).
pub open spec fn whitespace_only(l: Seq<char>) -> bool {
    forall|k: int| 0 <= k < l.len() ==> is_ws(#[trigger] l[k])
}

/// The lines of a text: the pieces between its newlines, without the empty piece that
/// follows a final newline.
pub open spec fn text_lines(t: Seq<char>) -> Seq<Seq<char>> {
    let p = split_on(t, '\n');
    if t.len() > 0 && t.last() == '\n' {
        p.drop_last()
    } else {
        p
    }
}

/// After collapsing, no two neighbouring lines of the text are both whitespace-only: a line
/// of spaces and tabs counts as blank, and a run of blank lines leaves one.
pub proof fn lemma_collapse_no_whitespace_only_pair(s: Seq<char>)
    ensures
        forall|i: int|
            0 <= i && i + 1 < text_lines(collapse_blank_lines_spec(s)).len() ==> !(whitespace_only(
                #[trigger] text_lines(collapse_blank_lines_spec(s))[i],
            ) && whitespace_only(text_lines(collapse_blank_lines_spec(s))[i + 1])),
{
    let ls = lines_spec(s);
    let k = kept_lines(ls);
    let t = collapse_blank_lines_spec(s);
    let tl = text_lines(t);
    lemma_lines_no_newlines(s);
    lemma_kept_no_newlines(ls);
    lemma_kept_no_blank_pair(ls);
    if k.len() == 0 {
        assert(t =~= Seq::<char>::empty());
        assert(split_on(t, '\n').len() == 1);
    } else {
        let j = join_with(k, seq!['\n']);
        lemma_split_terminated(k);
        lemma_terminated_is_join(k);
        assert((j + seq!['\n']).drop_last() =~= j);
        assert((j + seq!['\n']).last() == '\n');
        assert(split_on(j + seq!['\n'], '\n') == split_on(j, '\n').push(Seq::<char>::empty()));
        assert(split_on(j, '\n').push(Seq::<char>::empty()) == k.push(Seq::<char>::empty()));
        assert(split_on(j, '\n').push(Seq::<char>::empty()).drop_last() =~= split_on(j, '\n'));
        assert(k.push(Seq::<char>::empty()).drop_last() =~= k);
        assert(split_on(j, '\n') =~= k);
        assert(tl.len() <= k.len());
        assert forall|i: int| 0 <= i < tl.len() implies tl[i] == k[i] by {
            if s.len() > 0 && s.last() == '\n' {
                assert(t == j + seq!['\n']);
            }
        }
        assert forall|i: int| 0 <= i && i + 1 < tl.len() implies !(whitespace_only(#[trigger] tl[i])
            && whitespace_only(tl[i + 1])) by {
            assert(tl[i] == k[i] && tl[i + 1] == k[i + 1]);
            assert(!(is_blank(k[i]) && is_blank(k[i + 1])));
        }
    }
}

proof fn lemma_join_split(s: Seq<char>, sep: char)
    ensures
        join_with(split_on(s, sep), seq![sep]) == s,
    decreases s.len(),
{
    if s.len() > 0 {
        let d = s.drop_last();
        let p = split_on(d, sep);
        crate::chars::lemma_split_on_nonempty(d, sep);
        lemma_join_split(d, sep);
        if s.last() == sep {
            let q = p.push(Seq::<char>::empty());
            assert(q.drop_last() =~= p);
            assert(join_with(q, seq![sep]) == join_with(p, seq![sep]) + seq![sep] + Seq::<char>::empty());
            assert(d.push(s.last()) =~= s);
            assert(join_with(p, seq![sep]) + seq![sep] + Seq::<char>::empty() =~= s);
        } else {
            let q = p.update(p.len() - 1, p.last().push(s.last()));
            if p.len() == 1 {
                assert(join_with(q, seq![sep]) == q[0]);
                assert(join_with(p, seq![sep]) == p[0]);
                assert(q[0] =~= s);
            } else {
                assert(q.drop_last() =~= p.drop_last());
                assert(q.last() == p.last().push(s.last()));
                assert(join_with(q, seq![sep]) =~= join_with(p, seq![sep]).push(s.last()));
                assert(d.push(s.last()) =~= s);
            }
        }
    } else {
        assert(split_on(s, sep) =~= seq![Seq::<char>::empty()]);
    }
}

proof fn lemma_kept_all(ls: Seq<Seq<char>>)
    requires
        forall|i: int| 0 <= i && i + 1 < ls.len() ==> !(is_blank(#[trigger] ls[i]) && is_blank(ls[i + 1])),
    ensures
        kept_lines(ls) == ls,
    decreases ls.len(),
{
    if ls.len() > 0 {
        let d = ls.drop_last();
        assert forall|i: int| 0 <= i && i + 1 < d.len() implies !(is_blank(#[trigger] d[i]) && is_blank(d[i + 1])) by {
            assert(d[i] == ls[i] && d[i + 1] == ls[i + 1]);
        }
        lemma_kept_all(d);
        if ls.len() >= 2 {
            let i = ls.len() - 2;
            assert(!(is_blank(ls[i]) && is_blank(ls[i + 1])));
            assert(ls.last() == ls[i + 1]);
        }
        assert(d.push(ls.last()) =~= ls);
    }
}

/// Collapsing changes nothing where there is nothing to collapse: a text without carriage
/// returns in which no two neighbouring lines are both whitespace-only comes out unchanged,
/// so collapsing drops only blank lines.
pub proof fn lemma_collapse_keeps_text_without_blank_runs(s: Seq<char>)
    requires
        !s.contains('\r'),
        forall|i: int|
            0 <= i && i + 1 < text_lines(s).len() ==> !(whitespace_only(#[trigger] text_lines(s)[i])
                && whitespace_only(text_lines(s)[i + 1])),
    ensures
        collapse_blank_lines_spec(s) == s,
{
    if s.len() > 0 {
        let p = split_on(s, '\n');
        let tl = text_lines(s);
        let ls = lines_spec(s);
        lemma_split_avoids(s, '\n', '\r');
        crate::chars::lemma_split_on_nonempty(s, '\n');
        assert forall|i: int| 0 <= i < ls.len() implies ls[i] == tl[i] by {
            if i < p.len() - 1 {
                assert(!p[i].contains('\r'));
                if p[i].len() > 0 && p[i].last() == '\r' {
                    assert(p[i].contains(p[i][p[i].len() - 1]));
                }
            }
        }
        assert(ls =~= tl);
        assert forall|i: int| 0 <= i && i + 1 < ls.len() implies !(is_blank(#[trigger] ls[i]) && is_blank(ls[i + 1])) by {
            assert(!(whitespace_only(tl[i]) && whitespace_only(tl[i + 1])));
        }
        lemma_kept_all(ls);
        if s.last() == '\n' {
            let d = s.drop_last();
            crate::chars::lemma_split_on_nonempty(d, '\n');
            assert(p == split_on(d, '\n').push(Seq::<char>::empty()));
            assert(tl =~= split_on(d, '\n'));
            lemma_join_split(d, '\n');
            assert(d + seq!['\n'] =~= s);
        } else {
            lemma_join_split(s, '\n');
        }
    } else {
        assert(lines_spec(s) =~= Seq::<Seq<char>>::empty());
        assert(kept_lines(lines_spec(s)) =~= Seq::<Seq<char>>::empty());
        assert(collapse_blank_lines_spec(s) =~= s);
    }
}

} // verus!
