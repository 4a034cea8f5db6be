//! Small text utilities: prefix lists, extension filters, remove-regex cleanup,
//! blank-line collapsing, and a set of strings.
use crate::chars::{
    all_ws, append_chars, chars_of, join_with, lines_of, lines_spec, lowercase, matches_at,
    occurs_at, skip_ws_forward, slice_to_vec, split_chars, split_on, string_of, strip_cr,
    to_lowercase_chars, trim, trim_range,
};
use vstd::prelude::*;

verus! {

/// Whether two string slices hold the same characters (`str`'s `==`).
pub fn str_eq(a: &str, b: &str) -> (r: bool)
    ensures
        r == (a@ == b@),
{
    crate::chars::chars_eq(&chars_of(a), &chars_of(b))
}

/// A set of strings without duplicates, kept in insertion order.
#[derive(Debug, Clone)]
pub struct StringSet {
    items: Vec<String>,
}

impl View for StringSet {
    type V = Set<Seq<char>>;

    closed spec fn view(&self) -> Set<Seq<char>> {
        self.items@.map_values(|s: String| s@).to_set()
    }
}

impl StringSet {
    /// The elements in insertion order.
    pub closed spec fn elems(&self) -> Seq<Seq<char>> {
        self.items@.map_values(|s: String| s@)
    }

    /// Elements are distinct and the set is their set.
    pub closed spec fn wf(&self) -> bool {
        self.elems().no_duplicates()
    }

    pub proof fn lemma_view_is_elems(&self)
        ensures
            self@ == self.elems().to_set(),
    {
    }

    /// An empty set.
    pub fn new() -> (res: StringSet)
        ensures
            res.wf(),
            res@ == Set::<Seq<char>>::empty(),
            res.elems() == Seq::<Seq<char>>::empty(),
    {
        let res = StringSet { items: Vec::new() };
        assert(res.elems() =~= Seq::<Seq<char>>::empty());
        assert(res@ =~= Set::<Seq<char>>::empty());
        res
    }

    /// The number of elements.
    pub fn len(&self) -> (n: usize)
        requires
            self.wf(),
        ensures
            n == self@.len(),
            n == self.elems().len(),
    {
        proof {
            self.elems().unique_seq_to_set();
        }
        self.items.len()
    }

    /// Whether the set has no element.
    pub fn is_empty(&self) -> (b: bool)
        ensures
            b == (self@ == Set::<Seq<char>>::empty()),
            b == (self.elems().len() == 0),
    {
        proof {
            if self.items.len() > 0 {
                assert(self@.contains(self.elems()[0]));
            } else {
                assert(self@ =~= Set::<Seq<char>>::empty());
            }
        }
        self.items.len() == 0
    }

    /// Whether `s` is an element.
    pub fn contains(&self, s: &str) -> (b: bool)
        ensures
            b == self@.contains(s@),
    {
        let mut i: usize = 0;
        while i < self.items.len()
            invariant
                i <= self.items.len(),
                forall|j: int| 0 <= j < i ==> self.items@[j]@ != s@,
            decreases self.items.len() - i,
        {
            if str_eq(self.items[i].as_str(), s) {
                assert(self.elems()[i as int] == s@);
                return true;
            }
            i = i + 1;
        }
        proof {
            if self@.contains(s@) {
                let j = self.elems().index_of(s@);
                assert(self.elems()[j] == self.items@[j]@);
            }
        }
        false
    }

    /// Adds `s` unless it is already an element.
    pub fn insert(&mut self, s: String)
        requires
            old(self).wf(),
        ensures
            final(self).wf(),
            final(self)@ == old(self)@.insert(s@),
    {
        if !self.contains(s.as_str()) {
            let ghost old_elems = self.elems();
            let ghost v = s@;
            self.items.push(s);
            assert(self.elems() =~= old_elems.push(v));
            proof {
                Seq::<Seq<char>>::lemma_to_set_insert_commutes(old_elems, v);
                assert(old_elems.push(v) =~= old_elems + seq![v]);
            }
            assert(self@ =~= old(self)@.insert(v));
        } else {
            assert(self@ =~= old(self)@.insert(s@));
        }
    }

    /// Adds every element of `other`.
    pub fn extend_from(&mut self, other: &StringSet)
        requires
            old(self).wf(),
        ensures
            final(self).wf(),
            final(self)@ == old(self)@.union(other@),
    {
        let mut i: usize = 0;
        let ghost s0 = self@;
        while i < other.items.len()
            invariant
                i <= other.items.len(),
                self.wf(),
                self@ == s0.union(other.elems().subrange(0, i as int).to_set()),
            decreases other.items.len() - i,
        {
            let ghost before = self@;
            self.insert(other.items[i].clone());
            i = i + 1;
            assert(self@ =~= s0.union(other.elems().subrange(0, i as int).to_set())) by {
                assert(other.elems().subrange(0, i as int) =~= other.elems().subrange(0, i - 1).push(other.elems()[i - 1]));
                Seq::<Seq<char>>::lemma_to_set_insert_commutes(other.elems().subrange(0, i - 1), other.elems()[i - 1]);
                assert(other.elems().subrange(0, i - 1).push(other.elems()[i - 1]) =~= other.elems().subrange(0, i - 1) + seq![other.elems()[i - 1]]);
            }
        }
        assert(other.elems().subrange(0, i as int) =~= other.elems());
    }

    /// Whether the two sets have the same elements.
    pub fn same_as(&self, other: &StringSet) -> (b: bool)
        requires
            self.wf(),
            other.wf(),
        ensures
            b == (self@ == other@),
    {
        proof {
            self.elems().unique_seq_to_set();
            other.elems().unique_seq_to_set();
        }
        if self.len() != other.len() {
            return false;
        }
        let mut i: usize = 0;
        while i < self.items.len()
            invariant
                i <= self.items.len(),
                forall|j: int| 0 <= j < i ==> other@.contains(#[trigger] self.elems()[j]),
            decreases self.items.len() - i,
        {
            if !other.contains(self.items[i].as_str()) {
                assert(self@.contains(self.elems()[i as int]));
                return false;
            }
            i = i + 1;
        }
        proof {
            assert forall|x: Seq<char>| self@.contains(x) implies other@.contains(x) by {
                let j = self.elems().index_of(x);
                assert(self.elems()[j] == x);
            }
            vstd::set_lib::lemma_subset_equality(self@, other@);
        }
        true
    }

    /// The elements as owned strings, in insertion order.
    pub fn to_vec(&self) -> (res: Vec<String>)
        ensures
            res@.map_values(|s: String| s@) == self.elems(),
    {
        let mut res: Vec<String> = Vec::new();
        let mut i: usize = 0;
        while i < self.items.len()
            invariant
                i <= self.items.len(),
                res@.map_values(|s: String| s@) == self.elems().subrange(0, i as int),
            decreases self.items.len() - i,
        {
            let c = self.items[i].clone();
            assert(c@ == self.elems()[i as int]);
            let ghost r0 = res@.map_values(|s: String| s@);
            res.push(c);
            assert(res@.map_values(|s: String| s@) =~= r0.push(c@));
            assert(self.elems().subrange(0, i + 1) =~= self.elems().subrange(0, i as int).push(
                self.elems()[i as int],
            ));
            i = i + 1;
            assert(res@.map_values(|s: String| s@) =~= self.elems().subrange(0, i as int));
        }
        assert(self.elems().subrange(0, i as int) =~= self.elems());
        res
    }
}

/* ------------------------------ prefix lists ------------------------------ */

/// The non-empty trimmed pieces of a comma-separated list.
pub open spec fn prefix_list_spec(raw: Seq<char>) -> Seq<Seq<char>> {
    split_on(raw, ',').map_values(|p: Seq<char>| trim(p)).filter(|t: Seq<char>| t.len() > 0)
}

/// The pieces of `pieces` in order, trimmed, without the ones that trim to nothing.
pub fn trimmed_nonempty(pieces: &Vec<Vec<char>>) -> (res: Vec<String>)
    ensures
        res@.map_values(|s: String| s@) == pieces@.map_values(|v: Vec<char>| v@).map_values(
            |p: Seq<char>| trim(p),
        ).filter(|t: Seq<char>| t.len() > 0),
{
    let ghost ps = pieces@.map_values(|v: Vec<char>| v@).map_values(|p: Seq<char>| trim(p));
    let mut res: Vec<String> = Vec::new();
    let mut i: usize = 0;
    while i < pieces.len()
        invariant
            i <= pieces.len(),
            ps == pieces@.map_values(|v: Vec<char>| v@).map_values(|p: Seq<char>| trim(p)),
            res@.map_values(|s: String| s@) == ps.subrange(0, i as int).filter(
                |t: Seq<char>| t.len() > 0,
            ),
        decreases pieces.len() - i,
    {
        let t = trim_range(&pieces[i], 0, pieces[i].len());
        assert(pieces@[i as int]@.subrange(0, pieces@[i as int]@.len() as int) =~= pieces@[i as int]@);
        assert(ps[i as int] == t@);
        assert(ps.subrange(0, i + 1).drop_last() =~= ps.subrange(0, i as int));
        reveal_with_fuel(Seq::filter, 1);
        if t.len() > 0 {
            let st = string_of(t.as_slice());
            res.push(st);
            assert(res@.map_values(|s: String| s@) =~= ps.subrange(0, i as int).filter(
                |t: Seq<char>| t.len() > 0,
            ).push(t@));
        } else {
            assert(res@.map_values(|s: String| s@) =~= ps.subrange(0, i as int).filter(
                |t: Seq<char>| t.len() > 0,
            ));
        }
        i = i + 1;
    }
    assert(ps.subrange(0, pieces.len() as int) =~= ps);
    res
}

/// Splits a comma-separated list into its trimmed, non-empty entries, in order.
pub fn split_prefix_list(raw: &str) -> (res: Vec<String>)
    ensures
        res@.map_values(|s: String| s@) == prefix_list_spec(raw@),
{
    let cs = chars_of(raw);
    let pieces = split_chars(&cs, ',');
    trimmed_nonempty(&pieces)
}

/// The set of the trimmed, non-empty entries of a comma-separated list.
pub fn split_csv_set(s: &str) -> (res: StringSet)
    ensures
        res.wf(),
        res@ == prefix_list_spec(s@).to_set(),
{
    let items = split_prefix_list(s);
    let ghost iv = items@.map_values(|x: String| x@);
    let mut set = StringSet::new();
    let mut i: usize = 0;
    while i < items.len()
        invariant
            i <= items.len(),
            set.wf(),
            iv == items@.map_values(|x: String| x@),
            set@ == iv.subrange(0, i as int).to_set(),
        decreases items.len() - i,
    {
        set.insert(items[i].clone());
        proof {
            assert(iv.subrange(0, i + 1) =~= iv.subrange(0, i as int).push(iv[i as int]));
            Seq::<Seq<char>>::lemma_to_set_insert_commutes(iv.subrange(0, i as int), iv[i as int]);
            assert(iv.subrange(0, i as int).push(iv[i as int]) =~= iv.subrange(0, i as int) + seq![iv[i as int]]);
        }
        i = i + 1;
        assert(set@ =~= iv.subrange(0, i as int).to_set());
    }
    assert(iv.subrange(0, items.len() as int) =~= iv);
    set
}

/* ------------------------------ remove regex ------------------------------ */

/// Whether `t` starts and ends with three copies of `q`.
pub open spec fn triple_wrapped(t: Seq<char>, q: char) -> bool {
    occurs_at(t, 0, seq![q, q, q]) && occurs_at(t, t.len() - 3, seq![q, q, q])
}

/// Whether `t` starts and ends with `q`.
pub open spec fn single_wrapped(t: Seq<char>, q: char) -> bool {
    t.len() > 0 && t[0] == q && t.last() == q
}

/// The regex text with surrounding whitespace and one layer of matching quotes removed.
pub open spec fn clean_remove_regex_spec(s: Seq<char>) -> Seq<char> {
    let t = trim(s);
    if triple_wrapped(t, '"') || triple_wrapped(t, '\'') {
        t.subrange(3, t.len() - 3)
    } else if single_wrapped(t, '"') || single_wrapped(t, '\'') {
        t.subrange(1, t.len() - 1)
    } else {
        t
    }
}

/// The inputs on which cleaning the remove regex is defined: the quotes to strip must not
/// overlap (a lone `"` or a `"""` shorter than six characters has no inside).
pub open spec fn clean_remove_regex_defined(s: Seq<char>) -> bool {
    let t = trim(s);
    if triple_wrapped(t, '"') || triple_wrapped(t, '\'') {
        t.len() >= 6
    } else if single_wrapped(t, '"') || single_wrapped(t, '\'') {
        t.len() >= 2
    } else {
        true
    }
}

fn wrapped3(t: &Vec<char>, q: char) -> (b: bool)
    ensures
        b == triple_wrapped(t@, q),
{
    let qs = vec![q, q, q];
    if t.len() < 3 {
        return false;
    }
    matches_at(t, 0, &qs) && matches_at(t, t.len() - 3, &qs)
}

fn wrapped1(t: &Vec<char>, q: char) -> (b: bool)
    ensures
        b == single_wrapped(t@, q),
{
    t.len() > 0 && t[0] == q && t[t.len() - 1] == q
}

/// `regex::Regex`, a compiled regular expression; opaque here.
#[verifier::external_type_specification]
#[verifier::external_body]
pub struct ExRegex(regex::Regex);

/// Whether `regex::Regex::new` accepts the pattern.
pub uninterp spec fn regex_compiles(pattern: Seq<char>) -> bool;

/// Calls `regex::Regex::new`: `Some` with the compiled regex when the pattern is valid and
/// within the default size limit, else `None`. Which patterns compile is the regex crate's
/// syntax and limits; the contract names that result and states no more of it.
#[verifier::external_body]
fn compile_regex(pattern: &str) -> (r: Option<regex::Regex>)
    ensures
        r is Some == regex_compiles(pattern@),
{
    regex::Regex::new(pattern).ok()
}

/// The flags put before a removal pattern: `.` matches newlines and `^`, `$` match at
/// line boundaries.
pub open spec fn regex_flags() -> Seq<char> {
    seq!['(', '?', 'm', 's', ')']
}

/// Compiles the removal pattern, if any, in multi-line mode with `.` matching newlines;
/// `None` when there is no pattern or it does not compile.
pub fn compile_remove_regex_opt(raw: Option<&str>) -> (res: Option<regex::Regex>)
    ensures
        match raw {
            None => res is None,
            Some(s) => res is Some == regex_compiles(regex_flags() + s@),
        },
{
    match raw {
        None => None,
        Some(s) => {
            let mut pattern = vec!['(', '?', 'm', 's', ')'];
            assert(pattern@ =~= regex_flags());
            append_chars(&mut pattern, &chars_of(s));
            let p = string_of(&pattern);
            compile_regex(p.as_str())
        },
    }
}

/// Whether cleaning the removal pattern `s` is defined (see `clean_remove_regex_defined`).
pub fn remove_regex_cleanable(s: &str) -> (b: bool)
    ensures
        b == clean_remove_regex_defined(s@),
{
    let cs = chars_of(s);
    let t = trim_range(&cs, 0, cs.len());
    assert(cs@.subrange(0, cs@.len() as int) =~= cs@);
    if wrapped3(&t, '"') || wrapped3(&t, '\'') {
        t.len() >= 6
    } else if wrapped1(&t, '"') || wrapped1(&t, '\'') {
        t.len() >= 2
    } else {
        true
    }
}

/// Removes surrounding whitespace, then one layer of `"""`, `'''`, `"` or `'` quotes.
pub fn clean_remove_regex(s: &str) -> (res: String)
    requires
        clean_remove_regex_defined(s@),
    ensures
        res@ == clean_remove_regex_spec(s@),
{
    let cs = chars_of(s);
    let t = trim_range(&cs, 0, cs.len());
    assert(cs@.subrange(0, cs@.len() as int) =~= cs@);
    let out = if wrapped3(&t, '"') || wrapped3(&t, '\'') {
        slice_to_vec(&t, 3, t.len() - 3)
    } else if wrapped1(&t, '"') || wrapped1(&t, '\'') {
        slice_to_vec(&t, 1, t.len() - 1)
    } else {
        t
    };
    string_of(out.as_slice())
}

/* --------------------------- extension filters ---------------------------- */

/// `s` without its leading `.` characters.
pub open spec fn strip_leading_dots(s: Seq<char>) -> Seq<char>
    decreases s.len(),
{
    if s.len() > 0 && s[0] == '.' {
        strip_leading_dots(s.drop_first())
    } else {
        s
    }
}

/// What one comma-separated token of an extension filter contributes: `None` when it is
/// ignored, else whether it excludes and the normalised extension (`.` + lowercase).
pub open spec fn ext_token(piece: Seq<char>) -> Option<(bool, Seq<char>)> {
    let tok = trim(piece);
    if tok.len() == 0 {
        None
    } else {
        let is_exclude = tok[0] == '-';
        let rest = if is_exclude {
            trim(tok.drop_first())
        } else {
            tok
        };
        let stripped = strip_leading_dots(rest);
        if stripped.len() == 0 {
            None
        } else {
            Some((is_exclude, seq!['.'] + lowercase(stripped)))
        }
    }
}

/// The extensions that the tokens of `raw` include (`excl == false`) or exclude.
pub open spec fn ext_filter_set(raw: Seq<char>, excl: bool) -> Set<Seq<char>> {
    let pieces = split_on(raw, ',');
    Set::new(|e: Seq<char>| exists|i: int| 0 <= i < pieces.len() && ext_token(pieces[i]) == Some((excl, e)))
}

fn strip_leading_dots_from(s: &Vec<char>, from: usize) -> (k: usize)
    requires
        from <= s.len(),
    ensures
        from <= k <= s.len(),
        strip_leading_dots(s@.subrange(from as int, s.len() as int)) == s@.subrange(
            k as int,
            s.len() as int,
        ),
{
    let mut k = from;
    while k < s.len() && s[k] == '.'
        invariant
            from <= k <= s.len(),
            strip_leading_dots(s@.subrange(from as int, s.len() as int)) == strip_leading_dots(
                s@.subrange(k as int, s.len() as int),
            ),
        decreases s.len() - k,
    {
        assert(s@.subrange(k as int, s.len() as int).drop_first() =~= s@.subrange(
            k + 1,
            s.len() as int,
        ));
        k = k + 1;
    }
    proof {
        let r = s@.subrange(k as int, s.len() as int);
        if r.len() > 0 {
            assert(r[0] == s@[k as int]);
        }
    }
    k
}

/// The contribution of one token, computed.
fn classify_ext_token(piece: &Vec<char>) -> (res: Option<(bool, String)>)
    ensures
        match res {
            None => ext_token(piece@) is None,
            Some((x, e)) => ext_token(piece@) == Some((x, e@)) && e@.len() >= 2 && e@[0] == '.',
        },
{
    let tok = trim_range(piece, 0, piece.len());
    assert(piece@.subrange(0, piece@.len() as int) =~= piece@);
    if tok.len() == 0 {
        return None;
    }
    let is_exclude = tok[0] == '-';
    let rest = if is_exclude {
        let r = trim_range(&tok, 1, tok.len());
        assert(tok@.subrange(1, tok@.len() as int) =~= tok@.drop_first());
        r
    } else {
        tok
    };
    let k = strip_leading_dots_from(&rest, 0);
    assert(rest@.subrange(0, rest@.len() as int) =~= rest@);
    if k == rest.len() {
        return None;
    }
    let stripped = slice_to_vec(&rest, k, rest.len());
    let stripped_s = string_of(stripped.as_slice());
    let low = to_lowercase_chars(stripped_s.as_str());
    let mut out: Vec<char> = vec!['.'];
    let low_chars = chars_of(low.as_str());
    append_chars(&mut out, &low_chars);
    assert(out@[0] == '.');
    Some((is_exclude, string_of(out.as_slice())))
}

/// Parses a comma-separated extension filter into the included and the excluded
/// extensions. Tokens are trimmed; a leading `-` excludes; leading dots are dropped;
/// the rest is lowercased and prefixed with one `.`; empty results are ignored.
pub fn parse_extension_filters(raw: &str) -> (res: (StringSet, StringSet))
    ensures
        res.0.wf(),
        res.1.wf(),
        res.0@ == ext_filter_set(raw@, false),
        res.1@ == ext_filter_set(raw@, true),
        forall|e: Seq<char>| #[trigger] res.0@.contains(e) ==> e.len() >= 2 && e[0] == '.',
        forall|e: Seq<char>| #[trigger] res.1@.contains(e) ==> e.len() >= 2 && e[0] == '.',
{
    let cs = chars_of(raw);
    let pieces = split_chars(&cs, ',');
    let ghost ps = split_on(raw@, ',');
    assert(pieces@.len() == ps.len());
    let mut inc = StringSet::new();
    let mut exc = StringSet::new();
    let mut i: usize = 0;
    while i < pieces.len()
        invariant
            i <= pieces.len(),
            pieces@.len() == ps.len(),
            ps == split_on(raw@, ','),
            pieces@.map_values(|v: Vec<char>| v@) == ps,
            inc.wf(),
            exc.wf(),
            inc@ == Set::new(
                |e: Seq<char>| exists|j: int| 0 <= j < i && ext_token(ps[j]) == Some((false, e)),
            ),
            exc@ == Set::new(
                |e: Seq<char>| exists|j: int| 0 <= j < i && ext_token(ps[j]) == Some((true, e)),
            ),
            forall|e: Seq<char>| #[trigger] inc@.contains(e) ==> e.len() >= 2 && e[0] == '.',
            forall|e: Seq<char>| #[trigger] exc@.contains(e) ==> e.len() >= 2 && e[0] == '.',
        decreases pieces.len() - i,
    {
        assert(pieces@[i as int]@ == ps[i as int]) by {
            assert(pieces@.map_values(|v: Vec<char>| v@)[i as int] == pieces@[i as int]@);
        }
        let c = classify_ext_token(&pieces[i]);
        let ghost old_inc = inc@;
        let ghost old_exc = exc@;
        match c {
            None => {},
            Some((x, e)) => {
                if x {
                    exc.insert(e);
                } else {
                    inc.insert(e);
                }
            },
        }
        i = i + 1;
        assert(inc@ =~= Set::new(
            |e: Seq<char>| exists|j: int| 0 <= j < i && ext_token(ps[j]) == Some((false, e)),
        )) by {
            assert forall|e: Seq<char>|
                (exists|j: int| 0 <= j < i && ext_token(ps[j]) == Some((false, e))) implies inc@.contains(e) by {
                let j = choose|j: int| 0 <= j < i && ext_token(ps[j]) == Some((false, e));
                if j < i - 1 {
                    assert(old_inc.contains(e));
                }
            }
        }
        assert(exc@ =~= Set::new(
            |e: Seq<char>| exists|j: int| 0 <= j < i && ext_token(ps[j]) == Some((true, e)),
        )) by {
            assert forall|e: Seq<char>|
                (exists|j: int| 0 <= j < i && ext_token(ps[j]) == Some((true, e))) implies exc@.contains(e) by {
                let j = choose|j: int| 0 <= j < i && ext_token(ps[j]) == Some((true, e));
                if j < i - 1 {
                    assert(old_exc.contains(e));
                }
            }
        }
    }
    assert(inc@ =~= ext_filter_set(raw@, false));
    assert(exc@ =~= ext_filter_set(raw@, true));
    (inc, exc)
}

/* ---------------------------- blank-line collapse --------------------------- */

/// Whether a line holds only whitespace.
pub open spec fn is_blank(l: Seq<char>) -> bool {
    all_ws(l)
}

/// The lines that remain when every blank line directly after a blank line is dropped.
pub open spec fn kept_lines(ls: Seq<Seq<char>>) -> Seq<Seq<char>>
    decreases ls.len(),
{
    if ls.len() == 0 {
        ls
    } else if ls.len() >= 2 && is_blank(ls.last()) && is_blank(ls[ls.len() - 2]) {
        kept_lines(ls.drop_last())
    } else {
        kept_lines(ls.drop_last()).push(ls.last())
    }
}

/// Every line followed by a newline.
pub open spec fn terminated_lines(ls: Seq<Seq<char>>) -> Seq<char>
    decreases ls.len(),
{
    if ls.len() == 0 {
        Seq::empty()
    } else {
        terminated_lines(ls.drop_last()) + ls.last() + seq!['\n']
    }
}

pub proof fn lemma_terminated_is_join(ls: Seq<Seq<char>>)
    requires
        ls.len() > 0,
    ensures
        terminated_lines(ls) == join_with(ls, seq!['\n']) + seq!['\n'],
    decreases ls.len(),
{
    if ls.len() > 1 {
        lemma_terminated_is_join(ls.drop_last());
        assert(terminated_lines(ls) =~= join_with(ls, seq!['\n']) + seq!['\n']);
    } else {
        assert(ls.drop_last().len() == 0);
        assert(terminated_lines(ls.drop_last()) =~= Seq::<char>::empty());
        assert(terminated_lines(ls) =~= join_with(ls, seq!['\n']) + seq!['\n']);
    }
}

pub proof fn lemma_terminated_concat(a: Seq<Seq<char>>, b: Seq<Seq<char>>)
    ensures
        terminated_lines(a + b) == terminated_lines(a) + terminated_lines(b),
    decreases b.len(),
{
    if b.len() > 0 {
        assert((a + b).drop_last() =~= a + b.drop_last());
        assert((a + b).last() == b.last());
        lemma_terminated_concat(a, b.drop_last());
        assert(terminated_lines(a + b) =~= terminated_lines(a) + terminated_lines(b));
    } else {
        assert(a + b =~= a);
        assert(terminated_lines(b) =~= Seq::<char>::empty());
        assert(terminated_lines(a) + terminated_lines(b) =~= terminated_lines(a));
    }
}

pub proof fn lemma_split_append_plain(x: Seq<char>, y: Seq<char>, sep: char)
    requires
        !y.contains(sep),
    ensures
        split_on(x + y, sep) == split_on(x, sep).update(
            split_on(x, sep).len() - 1,
            split_on(x, sep).last() + y,
        ),
        split_on(x + y, sep).len() == split_on(x, sep).len(),
    decreases y.len(),
{
    crate::chars::lemma_split_on_nonempty(x, sep);
    if y.len() == 0 {
        assert(x + y =~= x);
        assert(split_on(x, sep).last() + y =~= split_on(x, sep).last());
        assert(split_on(x, sep).update(split_on(x, sep).len() - 1, split_on(x, sep).last())
            =~= split_on(x, sep));
    } else {
        let y0 = y.drop_last();
        assert(!y0.contains(sep)) by {
            if y0.contains(sep) {
                let i = choose|i: int| 0 <= i < y0.len() && y0[i] == sep;
                assert(y[i] == sep);
            }
        }
        assert(y[y.len() - 1] != sep);
        lemma_split_append_plain(x, y0, sep);
        assert((x + y).drop_last() =~= x + y0);
        assert((x + y).last() == y.last());
        let p = split_on(x + y0, sep);
        crate::chars::lemma_split_on_nonempty(x + y0, sep);
        assert(split_on(x + y, sep) == p.update(p.len() - 1, p.last().push(y.last())));
        assert(p.last() == split_on(x, sep).last() + y0);
        assert((split_on(x, sep).last() + y0).push(y.last()) =~= split_on(x, sep).last() + y);
        assert(split_on(x + y, sep) =~= split_on(x, sep).update(
            split_on(x, sep).len() - 1,
            split_on(x, sep).last() + y,
        ));
    }
}

/// Splitting terminated lines at their newlines gives them back, then an empty piece.
pub proof fn lemma_split_terminated(ls: Seq<Seq<char>>)
    requires
        forall|i: int| 0 <= i < ls.len() ==> !(#[trigger] ls[i]).contains('\n'),
    ensures
        split_on(terminated_lines(ls), '\n') == ls.push(Seq::<char>::empty()),
    decreases ls.len(),
{
    if ls.len() == 0 {
        assert(split_on(terminated_lines(ls), '\n') =~= ls.push(Seq::<char>::empty()));
    } else {
        let l0 = ls.drop_last();
        assert forall|i: int| 0 <= i < l0.len() implies !(#[trigger] l0[i]).contains('\n') by {
            assert(l0[i] == ls[i]);
        }
        lemma_split_terminated(l0);
        let t0 = terminated_lines(l0);
        let l = ls.last();
        assert(!l.contains('\n')) by {
            assert(ls[ls.len() - 1] == l);
        }
        lemma_split_append_plain(t0, l, '\n');
        let t1 = t0 + l;
        assert(terminated_lines(ls) == t1 + seq!['\n']);
        assert((t1 + seq!['\n']).drop_last() =~= t1);
        crate::chars::lemma_split_on_nonempty(t1, '\n');
        assert(split_on(terminated_lines(ls), '\n') == split_on(t1, '\n').push(Seq::<char>::empty()));
        assert(Seq::<char>::empty() + l =~= l);
        assert(split_on(t1, '\n') =~= ls);
    }
}

/// The lines of terminated lines are those lines, each without one trailing `\r`.
pub proof fn lemma_lines_of_terminated(ls: Seq<Seq<char>>)
    requires
        forall|i: int| 0 <= i < ls.len() ==> !(#[trigger] ls[i]).contains('\n'),
    ensures
        lines_spec(terminated_lines(ls)) == ls.map_values(|l: Seq<char>| strip_cr(l)),
{
    lemma_split_terminated(ls);
    if ls.len() > 0 {
        lemma_terminated_is_join(ls);
        assert(terminated_lines(ls).last() == '\n');
    } else {
        assert(terminated_lines(ls) =~= Seq::<char>::empty());
    }
    assert(lines_spec(terminated_lines(ls)) =~= ls.map_values(|l: Seq<char>| strip_cr(l)));
}

/// The text with runs of blank lines collapsed to one; the input's trailing newline,
/// or its absence, is kept.
pub open spec fn collapse_blank_lines_spec(s: Seq<char>) -> Seq<char> {
    let k = kept_lines(lines_spec(s));
    if s.len() > 0 && s.last() == '\n' && k.len() > 0 {
        join_with(k, seq!['\n']) + seq!['\n']
    } else {
        join_with(k, seq!['\n'])
    }
}

/// Whether a line is blank.
pub fn line_is_blank(l: &Vec<char>) -> (b: bool)
    ensures
        b == is_blank(l@),
{
    let k = skip_ws_forward(l, 0, l.len());
    k == l.len()
}

/// Collapses runs of blank lines (lines holding only whitespace) into a single one.
pub fn collapse_consecutive_blank_lines(s: &str) -> (res: String)
    ensures
        res@ == collapse_blank_lines_spec(s@),
{
    let cs = chars_of(s);
    let lines = lines_of(&cs);
    let ghost ls = lines_spec(s@);
    let mut out: Vec<char> = Vec::new();
    let mut prev_blank = false;
    let mut i: usize = 0;
    let ghost mut kept_count: nat = 0;
    while i < lines.len()
        invariant
            i <= lines.len(),
            lines@.map_values(|v: Vec<char>| v@) == ls,
            out@ == terminated_lines(kept_lines(ls.subrange(0, i as int))),
            prev_blank == (i > 0 && is_blank(ls[i - 1])),
        decreases lines.len() - i,
    {
        assert(lines@[i as int]@ == ls[i as int]) by {
            assert(lines@.map_values(|v: Vec<char>| v@)[i as int] == lines@[i as int]@);
        }
        let is_b = line_is_blank(&lines[i]);
        let ghost sub = ls.subrange(0, i + 1);
        assert(sub.drop_last() =~= ls.subrange(0, i as int));
        assert(sub.last() == ls[i as int]);
        assert(i > 0 ==> sub[sub.len() - 2] == ls[i - 1]);
        if !(is_b && prev_blank) {
            let ghost k0 = kept_lines(ls.subrange(0, i as int));
            assert(kept_lines(sub) == k0.push(ls[i as int]));
            assert(k0.push(ls[i as int]).drop_last() =~= k0);
            append_chars(&mut out, &lines[i]);
            out.push('\n');
            assert(out@ =~= terminated_lines(kept_lines(sub)));
        }
        prev_blank = is_b;
        i = i + 1;
    }
    assert(ls.subrange(0, lines.len() as int) =~= ls);
    let ghost k = kept_lines(ls);
    proof {
        if k.len() > 0 {
            lemma_terminated_is_join(k);
        } else {
            assert(out@ =~= join_with(k, seq!['\n']));
        }
    }
    let ends_nl = cs.len() > 0 && cs[cs.len() - 1] == '\n';
    if !ends_nl && out.len() > 0 {
        out.pop();
        assert(out@ =~= join_with(k, seq!['\n']));
    }
    string_of(out.as_slice())
}

/// Text repair hook for hierarchy and file contents; correctly decoded UTF-8 needs none,
/// so the text comes back unchanged.
pub fn repair_mojibake_if_present(input: &str) -> (res: String)
    ensures
        res@ == input@,
{
    input.to_owned()
}

} // verus!
