//! Laws of lexical path normalisation.
use crate::chars::{join_with, split_on};
use crate::paths::{
    comps, cur_str, fold_parts, is_named_piece, normalize_lexically_spec, parent_str, root_str,
};
use vstd::prelude::*;

verus! {

/// Whether `x` is a piece that `comps` keeps from between separators: not empty, not `.`,
/// and without `/`.
pub open spec fn plain_piece(x: Seq<char>) -> bool {
    is_named_piece(x) && !x.contains('/')
}

/// Whether parts are in normal form: plain pieces; no `..` in a rooted path; in a relative
/// path, every `..` before every name.
pub open spec fn normal_parts(ps: Seq<Seq<char>>, rooted: bool) -> bool {
    &&& forall|i: int| 0 <= i < ps.len() ==> plain_piece(#[trigger] ps[i])
    &&& forall|i: int| 0 <= i < ps.len() && #[trigger] ps[i] == parent_str() ==> !rooted
    &&& forall|i: int, j: int| 0 <= i < j < ps.len() && #[trigger] ps[j] == parent_str() ==> #[trigger] ps[i] == parent_str()
}

proof fn lemma_split_pieces_plain(s: Seq<char>, sep: char)
    ensures
        forall|i: int| 0 <= i < split_on(s, sep).len() ==> !(#[trigger] split_on(s, sep)[i]).contains(sep),
    decreases s.len(),
{
    if s.len() > 0 {
        lemma_split_pieces_plain(s.drop_last(), sep);
        crate::chars::lemma_split_on_nonempty(s.drop_last(), sep);
        let p = split_on(s.drop_last(), sep);
        if s.last() != sep {
            let n = p.len() - 1;
            assert(!p[n].contains(sep));
            assert forall|i: int| 0 <= i < split_on(s, sep).len() implies !(#[trigger] split_on(s, sep)[i]).contains(sep) by {
                if i == n {
                    let q = p.last().push(s.last());
                    assert(split_on(s, sep)[i] == q);
                    if q.contains(sep) {
                        let k = choose|k: int| 0 <= k < q.len() && q[k] == sep;
                        if k < p.last().len() {
                            assert(p.last()[k] == sep);
                        }
                    }
                } else {
                    assert(split_on(s, sep)[i] == p[i]);
                }
            }
        } else {
            assert forall|i: int| 0 <= i < split_on(s, sep).len() implies !(#[trigger] split_on(s, sep)[i]).contains(sep) by {
                if i < p.len() {
                    assert(split_on(s, sep)[i] == p[i]);
                }
            }
        }
    }
}

proof fn lemma_filter_keeps(s: Seq<Seq<char>>, f: spec_fn(Seq<char>) -> bool, g: spec_fn(Seq<char>) -> bool)
    requires
        forall|i: int| 0 <= i < s.len() ==> g(#[trigger] s[i]),
    ensures
        forall|i: int| 0 <= i < s.filter(f).len() ==> g(#[trigger] s.filter(f)[i]),
    decreases s.len(),
{
    reveal(Seq::filter);
    if s.len() > 0 {
        lemma_filter_keeps(s.drop_last(), f, g);
        let out = s.filter(f);
        let sub = s.drop_last().filter(f);
        assert forall|i: int| 0 <= i < out.len() implies g(#[trigger] out[i]) by {
            if f(s.last()) && i == out.len() - 1 {
                assert(out[i] == s.last());
                assert(g(s[s.len() - 1]));
            } else {
                assert(out[i] == sub[i]);
            }
        }
    }
}

proof fn lemma_filter_all(s: Seq<Seq<char>>, f: spec_fn(Seq<char>) -> bool)
    requires
        forall|i: int| 0 <= i < s.len() ==> f(#[trigger] s[i]),
    ensures
        s.filter(f) == s,
    decreases s.len(),
{
    reveal(Seq::filter);
    if s.len() > 0 {
        lemma_filter_all(s.drop_last(), f);
        assert(f(s[s.len() - 1]));
        assert(s.drop_last().push(s.last()) =~= s);
    } else {
        assert(s.filter(f) =~= s);
    }
}

/// The components after the first of `comps(p)` are plain pieces, and the first is one
/// too unless it is the root or `.`.
proof fn lemma_comps_shape(p: Seq<char>)
    ensures
        forall|k: int| 0 <= k < comps(p).len() ==> (#[trigger] comps(p)[k] == root_str() || comps(p)[k] == cur_str()
            || plain_piece(comps(p)[k])),
{
    let pieces = split_on(p, '/');
    crate::chars::lemma_split_on_nonempty(p, '/');
    lemma_split_pieces_plain(p, '/');
    let f = |x: Seq<char>| is_named_piece(x);
    let g = |x: Seq<char>| !x.contains('/');
    lemma_filter_keeps(pieces, f, g);
    pieces.filter_lemma(f);
    let rooted = p.len() > 0 && p[0] == '/';
    let head = if rooted {
        seq![root_str()]
    } else if pieces[0] == cur_str() {
        seq![cur_str()]
    } else {
        Seq::<Seq<char>>::empty()
    };
    assert(comps(p) == head + pieces.filter(f));
    assert forall|k: int| 0 <= k < comps(p).len() implies (#[trigger] comps(p)[k] == root_str() || comps(p)[k]
        == cur_str() || plain_piece(comps(p)[k])) by {
        if k >= head.len() {
            let j = k - head.len();
            assert(comps(p)[k] == pieces.filter(f)[j]);
            assert(f(pieces.filter(f)[j]));
            assert(g(pieces.filter(f)[j]));
        }
    }
}

/// Folding components of the shape that `comps` gives, onto parts in normal form, gives
/// parts in normal form.
proof fn lemma_fold_normal(c: Seq<Seq<char>>, rooted: bool, acc: Seq<Seq<char>>)
    requires
        normal_parts(acc, rooted),
        forall|k: int| 0 <= k < c.len() ==> (#[trigger] c[k] == root_str() || c[k] == cur_str() || plain_piece(c[k])),
    ensures
        normal_parts(fold_parts(c, rooted, acc), rooted),
    decreases c.len(),
{
    if c.len() > 0 {
        let x = c[0];
        let acc2 = if x == root_str() || x == cur_str() {
            acc
        } else if x == parent_str() {
            if acc.len() > 0 {
                if acc.last() == parent_str() {
                    acc.push(parent_str())
                } else {
                    acc.drop_last()
                }
            } else if !rooted {
                acc.push(parent_str())
            } else {
                acc
            }
        } else {
            acc.push(x)
        };
        assert(plain_piece(parent_str())) by {
            assert(parent_str().len() == 2);
            assert(parent_str() != cur_str()) by {
                assert(parent_str().len() != cur_str().len());
            }
            if parent_str().contains('/') {
                let k = choose|k: int| 0 <= k < parent_str().len() && parent_str()[k] == '/';
            }
        }
        if x != root_str() && x != cur_str() && x != parent_str() {
            assert(plain_piece(x));
        }
        if x == parent_str() && acc.len() > 0 && acc.last() == parent_str() {
            assert forall|i: int| 0 <= i < acc.len() implies #[trigger] acc[i] == parent_str() by {
                if i < acc.len() - 1 {
                    assert(acc[acc.len() - 1] == parent_str());
                }
            }
        }
        assert(normal_parts(acc2, rooted)) by {
            if x == parent_str() && acc.len() > 0 && acc.last() != parent_str() {
                assert forall|i: int, j: int| 0 <= i < j < acc2.len() && #[trigger] acc2[j] == parent_str()
                    implies #[trigger] acc2[i] == parent_str() by {
                    assert(acc2[j] == acc[j]);
                    assert(acc2[i] == acc[i]);
                }
            }
        }
        assert forall|k: int| 0 <= k < c.drop_first().len() implies (#[trigger] c.drop_first()[k] == root_str()
            || c.drop_first()[k] == cur_str() || plain_piece(c.drop_first()[k])) by {
            assert(c.drop_first()[k] == c[k + 1]);
        }
        lemma_fold_normal(c.drop_first(), rooted, acc2);
    }
}

/// Folding parts that are already in normal form changes nothing.
proof fn lemma_fold_identity(ps: Seq<Seq<char>>, rooted: bool, acc: Seq<Seq<char>>)
    requires
        normal_parts(acc + ps, rooted),
    ensures
        fold_parts(ps, rooted, acc) == acc + ps,
    decreases ps.len(),
{
    let all = acc + ps;
    if ps.len() == 0 {
        assert(acc + ps =~= acc);
    } else {
        let x = ps[0];
        assert(all[acc.len() as int] == x);
        assert(plain_piece(x));
        assert(x != root_str()) by {
            assert(root_str().contains('/')) by {
                assert(root_str()[0] == '/');
            }
        }
        assert(x != cur_str());
        if x == parent_str() {
            assert(!rooted);
            if acc.len() > 0 {
                assert(all[acc.len() - 1] == acc.last());
                assert(acc.last() == parent_str());
            }
        }
        assert(acc.push(x) + ps.drop_first() =~= all);
        lemma_fold_identity(ps.drop_first(), rooted, acc.push(x));
    }
}

proof fn lemma_split_join(parts: Seq<Seq<char>>)
    requires
        parts.len() > 0,
        forall|i: int| 0 <= i < parts.len() ==> !(#[trigger] parts[i]).contains('/'),
    ensures
        split_on(join_with(parts, seq!['/']), '/') == parts,
    decreases parts.len(),
{
    let e = Seq::<char>::empty();
    if parts.len() == 1 {
        crate::text::lemma_split_append_plain(e, parts[0], '/');
        assert(e + parts[0] =~= parts[0]);
        assert(split_on(e, '/') =~= seq![e]);
        assert(seq![e].update(0, e + parts[0]) =~= parts);
    } else {
        let front = parts.drop_last();
        assert forall|i: int| 0 <= i < front.len() implies !(#[trigger] front[i]).contains('/') by {
            assert(front[i] == parts[i]);
        }
        lemma_split_join(front);
        let jf = join_with(front, seq!['/']);
        let x = jf + seq!['/'];
        assert(x.drop_last() =~= jf);
        assert(split_on(x, '/') == split_on(jf, '/').push(e));
        assert(!parts.last().contains('/')) by {
            assert(parts.last() == parts[parts.len() - 1]);
        }
        crate::text::lemma_split_append_plain(x, parts.last(), '/');
        assert(join_with(parts, seq!['/']) == x + parts.last());
        assert(e + parts.last() =~= parts.last());
        assert(front.push(e).update(front.len() as int, e + parts.last()) =~= parts);
    }
}

/// `[x] + rest` joined with `/` is `x`, `/`, and `rest` joined.
proof fn lemma_join_front(x: Seq<char>, rest: Seq<Seq<char>>)
    requires
        rest.len() > 0,
    ensures
        join_with(seq![x] + rest, seq!['/']) == x + seq!['/'] + join_with(rest, seq!['/']),
    decreases rest.len(),
{
    let all = seq![x] + rest;
    let sl = seq!['/'];
    if rest.len() == 1 {
        assert(all.drop_last() =~= seq![x]);
        assert(join_with(seq![x], sl) == x);
        assert(join_with(rest, sl) == rest[0]);
        assert(all.last() == rest[0]);
    } else {
        let rd = rest.drop_last();
        lemma_join_front(x, rd);
        assert(all.drop_last() =~= seq![x] + rd);
        assert(all.last() == rest.last());
        assert(join_with(rest, sl) == join_with(rd, sl) + sl + rest.last());
        assert((x + sl + join_with(rd, sl)) + sl + rest.last() =~= x + sl + (join_with(rd, sl) + sl
            + rest.last()));
    }
}

/// The components of a rendered normal form are its parts, after `/` for a rooted path.
proof fn lemma_comps_of_normal(fp: Seq<Seq<char>>, rooted: bool)
    requires
        normal_parts(fp, rooted),
    ensures
        comps((if rooted {
            seq!['/']
        } else {
            Seq::empty()
        }) + join_with(fp, seq!['/'])) == (if rooted {
            seq![root_str()]
        } else {
            Seq::<Seq<char>>::empty()
        }) + fp,
{
    let j = join_with(fp, seq!['/']);
    let f = |x: Seq<char>| is_named_piece(x);
    assert forall|i: int| 0 <= i < fp.len() implies !(#[trigger] fp[i]).contains('/') by {
        assert(plain_piece(fp[i]));
    }
    assert forall|i: int| 0 <= i < fp.len() implies f(#[trigger] fp[i]) by {
        assert(plain_piece(fp[i]));
    }
    let e = Seq::<char>::empty();
    if rooted {
        let q = seq!['/'] + j;
        assert(q[0] == '/');
        if fp.len() == 0 {
            assert(q =~= seq!['/']);
            assert(q.drop_last() =~= e);
            assert(q.last() == '/');
            assert(split_on(e, '/') =~= seq![e]);
            assert(split_on(q, '/') == split_on(q.drop_last(), '/').push(e));
            assert(split_on(q, '/') =~= seq![e, e]);
            reveal_with_fuel(Seq::filter, 3);
            assert(seq![e, e].drop_last() =~= seq![e]);
            assert(seq![e].drop_last() =~= Seq::<Seq<char>>::empty());
            assert(split_on(q, '/').filter(f) =~= Seq::<Seq<char>>::empty());
        } else {
            lemma_join_front(e, fp);
            assert(e + seq!['/'] + j =~= q);
            assert forall|i: int| 0 <= i < (seq![e] + fp).len() implies !(#[trigger] (seq![e] + fp)[i]).contains('/') by {
                if i > 0 {
                    assert((seq![e] + fp)[i] == fp[i - 1]);
                }
            }
            lemma_split_join(seq![e] + fp);
            Seq::<Seq<char>>::filter_distributes_over_add(seq![e], fp, f);
            reveal_with_fuel(Seq::filter, 2);
            assert(seq![e].drop_last() =~= Seq::<Seq<char>>::empty());
            assert(seq![e].filter(f) =~= Seq::<Seq<char>>::empty());
            lemma_filter_all(fp, f);
            assert(split_on(q, '/').filter(f) =~= fp);
        }
    } else {
        let q = Seq::<char>::empty() + j;
        assert(q =~= j);
        if fp.len() == 0 {
            assert(j =~= e);
            assert(split_on(e, '/') =~= seq![e]);
            reveal_with_fuel(Seq::filter, 2);
            assert(seq![e].drop_last() =~= Seq::<Seq<char>>::empty());
            assert(split_on(q, '/').filter(f) =~= Seq::<Seq<char>>::empty());
            assert(!(q.len() > 0 && q[0] == '/'));
        } else {
            lemma_split_join(fp);
            lemma_filter_all(fp, f);
            assert(split_on(q, '/')[0] == fp[0]);
            assert(plain_piece(fp[0]));
            if q.len() > 0 && q[0] == '/' {
                assert(fp[0].len() > 0);
                lemma_join_prefix(fp);
                assert(fp[0][0] == q[0]);
                assert(fp[0].contains('/'));
            }
            assert(fp[0] != cur_str());
        }
    }
}

/// A non-empty list joined with `/` starts with its first part.
proof fn lemma_join_prefix(fp: Seq<Seq<char>>)
    requires
        fp.len() > 0,
    ensures
        join_with(fp, seq!['/']).len() >= fp[0].len(),
        forall|k: int| 0 <= k < fp[0].len() ==> join_with(fp, seq!['/'])[k] == #[trigger] fp[0][k],
    decreases fp.len(),
{
    if fp.len() > 1 {
        lemma_join_prefix(fp.drop_last());
        assert(fp.drop_last()[0] == fp[0]);
    }
}

/// Normalising a normalised path changes nothing: the lexical normal form is a fixed point.
pub proof fn lemma_normalize_idempotent(p: Seq<char>)
    ensures
        normalize_lexically_spec(normalize_lexically_spec(p)) == normalize_lexically_spec(p),
{
    let c = comps(p);
    let rooted = c.len() > 0 && c[0] == root_str();
    lemma_comps_shape(p);
    lemma_fold_normal(c, rooted, Seq::empty());
    let fp = fold_parts(c, rooted, Seq::empty());
    lemma_comps_of_normal(fp, rooted);
    let q = normalize_lexically_spec(p);
    let c2 = comps(q);
    let head = if rooted {
        seq![root_str()]
    } else {
        Seq::<Seq<char>>::empty()
    };
    assert(c2 == head + fp);
    let rooted2 = c2.len() > 0 && c2[0] == root_str();
    assert(rooted2 == rooted) by {
        if !rooted && c2.len() > 0 {
            assert(c2[0] == fp[0]);
            assert(plain_piece(fp[0]));
            assert(root_str()[0] == '/');
            if fp[0] == root_str() {
                assert(fp[0].contains('/'));
            }
        }
    }
    if rooted {
        assert(fold_parts(c2, rooted, Seq::empty()) == fold_parts(fp, rooted, Seq::empty())) by {
            assert(c2[0] == root_str());
            assert(c2.drop_first() =~= fp);
        }
    } else {
        assert(c2 =~= fp);
    }
    assert(Seq::<Seq<char>>::empty() + fp =~= fp);
    lemma_fold_identity(fp, rooted, Seq::empty());
}

} // verus!
