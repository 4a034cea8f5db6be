//! The `*` wildcard matcher used by the signatures path filter, over bytes: glob matching
//! where a `*` stands for any run of bytes (`/` included) and every other byte for itself.
//! The matcher scans the text once, remembers the last `*` seen, and on a mismatch lets that
//! `*` take one more byte.
use vstd::prelude::*;

verus! {

/// The byte `*`.
pub open spec fn star_byte() -> u8 {
    42u8
}

/// Whether `p[from..]` consists of `*` only.
pub open spec fn only_stars_from(p: Seq<u8>, from: int) -> bool {
    forall|k: int| from <= k < p.len() ==> p[k] == star_byte()
}

/// The matcher from pattern index `pi` and text index `ti`, where `has_star` tells whether
/// a `*` was seen, `s` is the index of the last one and `sti` the text index it was last
/// tried from.
pub open spec fn wm_loop(p: Seq<u8>, t: Seq<u8>, pi: int, ti: int, has_star: bool, s: int, sti: int) -> bool
    decreases t.len() - sti, t.len() - ti, p.len() - pi,
{
    if !(0 <= pi <= p.len() && 0 <= sti <= ti <= t.len() && (has_star ==> 0 <= s < p.len())) {
        false
    } else if ti == t.len() {
        only_stars_from(p, pi)
    } else if pi < p.len() && p[pi] == star_byte() {
        wm_loop(p, t, pi + 1, ti, true, pi, ti)
    } else if pi < p.len() && p[pi] == t[ti] {
        wm_loop(p, t, pi + 1, ti + 1, has_star, s, sti)
    } else if has_star {
        wm_loop(p, t, s + 1, sti + 1, true, s, sti + 1)
    } else {
        false
    }
}

/// Whether the matcher accepts text `t` for pattern `p`.
pub open spec fn wildcard_spec(p: Seq<u8>, t: Seq<u8>) -> bool {
    wm_loop(p, t, 0, 0, false, 0, 0)
}

/// Matches `text` against the glob pattern `pat`, where `*` stands for any run of bytes
/// (`/` and `*` included) and every other byte for itself.
pub fn wildcard_match(pat: &[u8], text: &[u8]) -> (r: bool)
    ensures
        r == glob_match(pat@, text@),
{
    proof {
        lemma_wildcard_is_glob(pat@, text@);
    }
    let plen = pat.len();
    let tlen = text.len();
    let mut pi: usize = 0;
    let mut ti: usize = 0;
    let mut has_star = false;
    let mut s: usize = 0;
    let mut sti: usize = 0;
    while ti < tlen
        invariant
            plen == pat@.len(),
            tlen == text@.len(),
            pi <= plen,
            sti <= ti <= tlen,
            has_star ==> s < plen,
            wm_loop(pat@, text@, pi as int, ti as int, has_star, s as int, sti as int) == wildcard_spec(pat@, text@),
            wildcard_spec(pat@, text@) == glob_match(pat@, text@),
        decreases tlen - sti, tlen - ti, plen - pi,
    {
        if pi < plen && pat[pi] == 42u8 {
            has_star = true;
            s = pi;
            pi = pi + 1;
            sti = ti;
        } else if pi < plen && pat[pi] == text[ti] {
            pi = pi + 1;
            ti = ti + 1;
        } else if has_star {
            pi = s + 1;
            sti = sti + 1;
            ti = sti;
        } else {
            return false;
        }
    }
    while pi < plen && pat[pi] == 42u8
        invariant
            plen == pat@.len(),
            pi <= plen,
            only_stars_from(pat@, pi as int) == wildcard_spec(pat@, text@),
            wildcard_spec(pat@, text@) == glob_match(pat@, text@),
        decreases plen - pi,
    {
        pi = pi + 1;
    }
    pi == plen
}

/* ------------------------- agreement with glob matching ------------------------- */

/// Glob matching of `p[i..]` against `t[j..]`: a `*` stands for any run of bytes, every
/// other byte for itself.
pub open spec fn glob_at(p: Seq<u8>, t: Seq<u8>, i: int, j: int) -> bool
    decreases p.len() - i, t.len() - j,
{
    if i < 0 || j < 0 || i >= p.len() {
        i >= p.len() && j >= t.len()
    } else if p[i] == star_byte() {
        glob_at(p, t, i + 1, j) || (j < t.len() && glob_at(p, t, i, j + 1))
    } else {
        j < t.len() && t[j] == p[i] && glob_at(p, t, i + 1, j + 1)
    }
}

/// Whether `t` matches the glob pattern `p`.
pub open spec fn glob_match(p: Seq<u8>, t: Seq<u8>) -> bool {
    glob_at(p, t, 0, 0)
}

/// Whether `p[a..b]` holds no `*`.
pub open spec fn literal_run(p: Seq<u8>, a: int, b: int) -> bool {
    forall|k: int| a <= k < b ==> p[k] != star_byte()
}

/// Whether `p[a..a + len]` equals `t[c..c + len]`.
pub open spec fn same_run(p: Seq<u8>, a: int, t: Seq<u8>, c: int, len: int) -> bool {
    forall|x: int| a <= x < a + len ==> #[trigger] p[x] == t[c + (x - a)]
}

/// A literal run of the pattern consumes the same bytes of the text, one for one.
proof fn lemma_literal_run(p: Seq<u8>, t: Seq<u8>, a: int, c: int, len: int)
    requires
        0 <= a,
        0 <= c <= t.len(),
        0 <= len,
        a + len <= p.len(),
        literal_run(p, a, a + len),
    ensures
        glob_at(p, t, a, c) == (c + len <= t.len() && same_run(p, a, t, c, len) && glob_at(p, t, a + len, c + len)),
    decreases len,
{
    if len > 0 && c < t.len() {
        lemma_literal_run(p, t, a + 1, c + 1, len - 1);
        assert(p[a] != star_byte());
        if c + len <= t.len() && same_run(p, a, t, c, len) {
            assert(p[a] == t[c + (a - a)]);
            assert(same_run(p, a + 1, t, c + 1, len - 1)) by {
                assert forall|x: int| a + 1 <= x < a + 1 + (len - 1) implies #[trigger] p[x] == t[c + 1 + (x - (a + 1))] by {
                    assert(p[x] == t[c + (x - a)]);
                }
            }
        }
        if glob_at(p, t, a, c) {
            assert(t[c] == p[a]);
            assert(glob_at(p, t, a + 1, c + 1));
            assert(same_run(p, a, t, c, len)) by {
                assert forall|x: int| a <= x < a + len implies #[trigger] p[x] == t[c + (x - a)] by {
                    if x > a {
                        assert(p[x] == t[c + 1 + (x - (a + 1))]);
                    }
                }
            }
        }
    } else if len > 0 {
        assert(p[a] != star_byte());
    } else {
        assert(same_run(p, a, t, c, 0));
    }
}

/// A `*` at `s` may start taking bytes at any later index.
proof fn lemma_star_absorbs(p: Seq<u8>, t: Seq<u8>, s: int, m: int, k: int)
    requires
        0 <= s < p.len(),
        p[s] == star_byte(),
        0 <= m <= k <= t.len(),
        glob_at(p, t, s + 1, k),
    ensures
        glob_at(p, t, s, m),
    decreases k - m,
{
    if m < k {
        lemma_star_absorbs(p, t, s, m + 1, k);
    }
}

/// What a `*` at `s` matches from `m`: the rest of the pattern from some later index.
proof fn lemma_star_extract(p: Seq<u8>, t: Seq<u8>, s: int, m: int) -> (k: int)
    requires
        0 <= s < p.len(),
        p[s] == star_byte(),
        0 <= m <= t.len(),
        glob_at(p, t, s, m),
    ensures
        m <= k <= t.len(),
        glob_at(p, t, s + 1, k),
    decreases t.len() - m,
{
    if glob_at(p, t, s + 1, m) {
        m
    } else {
        lemma_star_extract(p, t, s, m + 1)
    }
}

/// A pattern's rest matches the end of the text iff it is all `*`.
proof fn lemma_glob_at_end(p: Seq<u8>, t: Seq<u8>, i: int)
    requires
        0 <= i <= p.len(),
    ensures
        glob_at(p, t, i, t.len() as int) == only_stars_from(p, i),
    decreases p.len() - i,
{
    if i < p.len() {
        lemma_glob_at_end(p, t, i + 1);
    }
}

/// What the matcher keeps as it runs: without a `*` seen, the pattern so far matched the
/// text so far byte for byte; with one, the pattern after the last `*` up to `pi` matches
/// the text from `sti` up to `ti` byte for byte.
pub open spec fn wm_inv(p: Seq<u8>, t: Seq<u8>, pi: int, ti: int, has_star: bool, s: int, sti: int) -> bool {
    &&& 0 <= pi <= p.len()
    &&& 0 <= sti <= ti <= t.len()
    &&& if has_star {
        &&& 0 <= s < pi
        &&& p[s] == star_byte()
        &&& literal_run(p, s + 1, pi)
        &&& pi - (s + 1) == ti - sti
        &&& same_run(p, s + 1, t, sti, pi - (s + 1))
    } else {
        &&& pi == ti
        &&& sti == 0
        &&& literal_run(p, 0, pi)
        &&& same_run(p, 0, t, 0, pi)
    }
}

/// What is left to decide: the match from the last `*` at the text index it was last tried
/// from, or, without one, the match of the rest.
pub open spec fn wm_goal(p: Seq<u8>, t: Seq<u8>, pi: int, ti: int, has_star: bool, s: int, sti: int) -> bool {
    if has_star {
        glob_at(p, t, s, sti)
    } else {
        glob_at(p, t, pi, ti)
    }
}

proof fn lemma_wm_loop_is_glob(p: Seq<u8>, t: Seq<u8>, pi: int, ti: int, has_star: bool, s: int, sti: int)
    requires
        wm_inv(p, t, pi, ti, has_star, s, sti),
    ensures
        wm_loop(p, t, pi, ti, has_star, s, sti) == wm_goal(p, t, pi, ti, has_star, s, sti),
    decreases t.len() - sti, t.len() - ti, p.len() - pi,
{
    let len = pi - (s + 1);
    if has_star {
        lemma_literal_run(p, t, s + 1, sti, len);
    }
    if ti == t.len() {
        lemma_glob_at_end(p, t, pi);
        if has_star {
            if glob_at(p, t, s, sti) {
                let k = lemma_star_extract(p, t, s, sti);
                lemma_literal_run(p, t, s + 1, k, len);
            }
            if only_stars_from(p, pi) {
                lemma_star_absorbs(p, t, s, sti, sti);
            }
        }
    } else if pi < p.len() && p[pi] == star_byte() {
        assert(same_run(p, pi + 1, t, ti, 0));
        lemma_wm_loop_is_glob(p, t, pi + 1, ti, true, pi, ti);
        if has_star {
            // The earlier star can be dropped: the latest one covers whatever it took.
            if glob_at(p, t, s, sti) {
                let k = lemma_star_extract(p, t, s, sti);
                lemma_literal_run(p, t, s + 1, k, len);
                let k2 = lemma_star_extract(p, t, pi, k + len);
                lemma_star_absorbs(p, t, pi, ti, k2);
            }
            if glob_at(p, t, pi, ti) {
                lemma_star_absorbs(p, t, s, sti, sti);
            }
        } else {
            lemma_literal_run(p, t, 0, 0, pi);
        }
    } else if pi < p.len() && p[pi] == t[ti] {
        assert(p[pi] != star_byte());
        if has_star {
            assert(same_run(p, s + 1, t, sti, len + 1)) by {
                assert forall|x: int| s + 1 <= x < s + 1 + (len + 1) implies #[trigger] p[x] == t[sti + (x - (s + 1))] by {
                    if x < pi {
                        assert(p[x] == t[sti + (x - (s + 1))]);
                    }
                }
            }
        } else {
            assert(same_run(p, 0, t, 0, pi + 1)) by {
                assert forall|x: int| 0 <= x < 0 + (pi + 1) implies #[trigger] p[x] == t[0 + (x - 0)] by {
                    if x < pi {
                        assert(p[x] == t[0 + (x - 0)]);
                    }
                }
            }
        }
        lemma_wm_loop_is_glob(p, t, pi + 1, ti + 1, has_star, s, sti);
    } else if has_star {
        assert(same_run(p, s + 1, t, sti + 1, 0));
        lemma_wm_loop_is_glob(p, t, s + 1, sti + 1, true, s, sti + 1);
        // The last `*` taking no more bytes leads to the mismatch at `pi`.
        assert(!glob_at(p, t, pi, ti));
    } else {
        lemma_literal_run(p, t, 0, 0, pi);
    }
}

/// The matcher is glob matching: a `*` in the pattern stands for any run of bytes and
/// every other byte for itself.
pub proof fn lemma_wildcard_is_glob(p: Seq<u8>, t: Seq<u8>)
    ensures
        wildcard_spec(p, t) == glob_match(p, t),
{
    assert(same_run(p, 0, t, 0, 0));
    lemma_wm_loop_is_glob(p, t, 0, 0, false, 0, 0);
}

} // verus!
