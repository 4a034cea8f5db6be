//! Character-level building blocks shared by the text utilities:
//! Unicode whitespace, trimming, splitting on a separator, line splitting,
//! joining, comparisons and conversions between `&str`/`String` and `Vec<char>`.
use vstd::prelude::*;

verus! {

/// The Unicode `White_Space` property, the set that `char::is_whitespace` tests.
pub open spec fn is_ws(c: char) -> bool {
    let u = c as u32;
    (0x09 <= u && u <= 0x0D) || u == 0x20 || u == 0x85 || u == 0xA0 || u == 0x1680 || (0x2000
        <= u && u <= 0x200A) || u == 0x2028 || u == 0x2029 || u == 0x202F || u == 0x205F || u
        == 0x3000
}

/// Whether `c` is Unicode whitespace.
pub fn is_whitespace_char(c: char) -> (b: bool)
    ensures
        b == is_ws(c),
{
    let u = c as u32;
    (0x09 <= u && u <= 0x0D) || u == 0x20 || u == 0x85 || u == 0xA0 || u == 0x1680 || (0x2000
        <= u && u <= 0x200A) || u == 0x2028 || u == 0x2029 || u == 0x202F || u == 0x205F || u
        == 0x3000
}

/// The characters of a string slice, in order.
pub fn chars_of(s: &str) -> (res: Vec<char>)
    ensures
        res@ == s@,
{
    let mut v: Vec<char> = Vec::new();
    for c in it: s.chars()
        invariant
            it.seq() == s@,
            v@ == it.seq().take(it.index() as int),
    {
        v.push(c);
        assert(v@ =~= it.seq().take(it.index() as int + 1));
    }
    assert(v@ =~= s@);
    v
}

/// A `String` holding exactly the given characters.
#[verifier::external_body]
pub(crate) fn string_of(v: &[char]) -> (res: String)
    ensures
        res@ == v@,
{
    String::from_iter(v)
}

/// `s` with trailing whitespace removed.
pub open spec fn trim_end(s: Seq<char>) -> Seq<char>
    decreases s.len(),
{
    if s.len() > 0 && is_ws(s.last()) {
        trim_end(s.drop_last())
    } else {
        s
    }
}

/// `s` with leading whitespace removed.
pub open spec fn trim_start(s: Seq<char>) -> Seq<char>
    decreases s.len(),
{
    if s.len() > 0 && is_ws(s[0]) {
        trim_start(s.drop_first())
    } else {
        s
    }
}

/// `s` with whitespace removed at both ends.
pub open spec fn trim(s: Seq<char>) -> Seq<char> {
    trim_start(trim_end(s))
}

/// The number of characters that remain after trimming trailing whitespace.
pub open spec fn trim_end_len(s: Seq<char>) -> int
    decreases s.len(),
{
    if s.len() > 0 && is_ws(s.last()) {
        trim_end_len(s.drop_last())
    } else {
        s.len() as int
    }
}

pub proof fn lemma_trim_end_is_prefix(s: Seq<char>)
    ensures
        0 <= trim_end_len(s) <= s.len(),
        trim_end(s) == s.subrange(0, trim_end_len(s)),
        forall|i: int| trim_end_len(s) <= i < s.len() ==> is_ws(#[trigger] s[i]),
        trim_end_len(s) > 0 ==> !is_ws(s[trim_end_len(s) - 1]),
    decreases s.len(),
{
    if s.len() > 0 && is_ws(s.last()) {
        lemma_trim_end_is_prefix(s.drop_last());
        assert forall|i: int| trim_end_len(s) <= i < s.len() implies is_ws(#[trigger] s[i]) by {
            if i < s.len() - 1 {
                assert(s.drop_last()[i] == s[i]);
            }
        }
        assert(s.drop_last().subrange(0, trim_end_len(s)) =~= s.subrange(0, trim_end_len(s)));
    } else {
        assert(s.subrange(0, s.len() as int) =~= s);
    }
}

/// The number of leading whitespace characters of `s`.
pub open spec fn lead_ws_len(s: Seq<char>) -> int
    decreases s.len(),
{
    if s.len() > 0 && is_ws(s[0]) {
        1 + lead_ws_len(s.drop_first())
    } else {
        0
    }
}

pub proof fn lemma_trim_start_is_suffix(s: Seq<char>)
    ensures
        0 <= lead_ws_len(s) <= s.len(),
        trim_start(s) == s.subrange(lead_ws_len(s), s.len() as int),
        forall|i: int| 0 <= i < lead_ws_len(s) ==> is_ws(#[trigger] s[i]),
        lead_ws_len(s) < s.len() ==> !is_ws(s[lead_ws_len(s)]),
    decreases s.len(),
{
    if s.len() > 0 && is_ws(s[0]) {
        lemma_trim_start_is_suffix(s.drop_first());
        assert forall|i: int| 0 <= i < lead_ws_len(s) implies is_ws(#[trigger] s[i]) by {
            if i > 0 {
                assert(s.drop_first()[i - 1] == s[i]);
            }
        }
        assert(s.drop_first().subrange(lead_ws_len(s) - 1, s.len() - 1) =~= s.subrange(
            lead_ws_len(s),
            s.len() as int,
        ));
    } else {
        assert(s.subrange(0, s.len() as int) =~= s);
    }
}

/// Whether every character of `s` is whitespace.
pub open spec fn all_ws(s: Seq<char>) -> bool {
    forall|i: int| 0 <= i < s.len() ==> is_ws(#[trigger] s[i])
}

pub proof fn lemma_trim_empty_iff_all_ws(s: Seq<char>)
    ensures
        (trim(s).len() == 0) == all_ws(s),
        (trim_end(s).len() == 0) == all_ws(s),
{
    lemma_trim_end_is_prefix(s);
    lemma_trim_start_is_suffix(trim_end(s));
    if trim_end(s).len() > 0 {
        assert(!is_ws(s[trim_end_len(s) - 1]));
        let t = trim_end(s);
        if lead_ws_len(t) == t.len() {
            assert(is_ws(t[t.len() - 1]));
        }
    }
}

/// Index of the first non-whitespace character of `s[from..to]`, or `to` when there is none.
pub fn skip_ws_forward(s: &Vec<char>, from: usize, to: usize) -> (k: usize)
    requires
        from <= to <= s.len(),
    ensures
        from <= k <= to,
        forall|i: int| from <= i < k ==> is_ws(#[trigger] s@[i]),
        k < to ==> !is_ws(s@[k as int]),
{
    let mut k = from;
    while k < to && is_whitespace_char(s[k])
        invariant
            from <= k <= to <= s.len(),
            forall|i: int| from <= i < k ==> is_ws(#[trigger] s@[i]),
        decreases to - k,
    {
        k = k + 1;
    }
    k
}

/// Index just past the last non-whitespace character of `s[from..to]`, or `from` when none.
pub fn skip_ws_backward(s: &Vec<char>, from: usize, to: usize) -> (k: usize)
    requires
        from <= to <= s.len(),
    ensures
        from <= k <= to,
        forall|i: int| k <= i < to ==> is_ws(#[trigger] s@[i]),
        k > from ==> !is_ws(s@[k - 1]),
{
    let mut k = to;
    while k > from && is_whitespace_char(s[k - 1])
        invariant
            from <= k <= to <= s.len(),
            forall|i: int| k <= i < to ==> is_ws(#[trigger] s@[i]),
        decreases k - from,
    {
        k = k - 1;
    }
    k
}

/// `trim_end` of a sub-range is the prefix that ends at the last non-whitespace character.
pub proof fn lemma_trim_end_of_range(s: Seq<char>, from: int, k: int, to: int)
    requires
        0 <= from <= k <= to <= s.len(),
        forall|i: int| k <= i < to ==> is_ws(#[trigger] s[i]),
        k > from ==> !is_ws(s[k - 1]),
    ensures
        trim_end(s.subrange(from, to)) == s.subrange(from, k),
    decreases to - k,
{
    let t = s.subrange(from, to);
    if to > k {
        assert(t.drop_last() =~= s.subrange(from, to - 1));
        lemma_trim_end_of_range(s, from, k, to - 1);
    } else {
        if t.len() > 0 {
            assert(t.last() == s[k - 1]);
        }
    }
}

/// `trim_start` of a sub-range is the suffix that starts at the first non-whitespace character.
pub proof fn lemma_trim_start_of_range(s: Seq<char>, from: int, k: int, to: int)
    requires
        0 <= from <= k <= to <= s.len(),
        forall|i: int| from <= i < k ==> is_ws(#[trigger] s[i]),
        k < to ==> !is_ws(s[k]),
    ensures
        trim_start(s.subrange(from, to)) == s.subrange(k, to),
    decreases k - from,
{
    let t = s.subrange(from, to);
    if k > from {
        assert(t.drop_first() =~= s.subrange(from + 1, to));
        lemma_trim_start_of_range(s, from + 1, k, to);
    } else {
        if t.len() > 0 {
            assert(t[0] == s[k]);
        }
    }
}

/// `trim` of the sub-range `s[from..to]`, as a new vector.
pub fn trim_range(s: &Vec<char>, from: usize, to: usize) -> (res: Vec<char>)
    requires
        from <= to <= s.len(),
    ensures
        res@ == trim(s@.subrange(from as int, to as int)),
{
    let b = skip_ws_backward(s, from, to);
    let a = skip_ws_forward(s, from, b);
    proof {
        lemma_trim_end_of_range(s@, from as int, b as int, to as int);
        lemma_trim_start_of_range(s@, from as int, a as int, b as int);
        assert(s@.subrange(from as int, b as int).subrange(a - from, b - from) =~= s@.subrange(
            a as int,
            b as int,
        ));
        lemma_trim_start_of_range(
            s@.subrange(from as int, b as int),
            0,
            a - from,
            b - from,
        );
        assert(s@.subrange(from as int, b as int).subrange(0, b - from) =~= s@.subrange(
            from as int,
            b as int,
        ));
    }
    slice_to_vec(s, a, b)
}

/// The sub-range `s[from..to]` as a new vector.
pub fn slice_to_vec(s: &Vec<char>, from: usize, to: usize) -> (res: Vec<char>)
    requires
        from <= to <= s.len(),
    ensures
        res@ == s@.subrange(from as int, to as int),
{
    let mut res: Vec<char> = Vec::new();
    let mut i = from;
    while i < to
        invariant
            from <= i <= to <= s.len(),
            res@ == s@.subrange(from as int, i as int),
        decreases to - i,
    {
        res.push(s[i]);
        i = i + 1;
        assert(res@ =~= s@.subrange(from as int, i as int));
    }
    res
}

/// Appends `src` to the end of `dst`.
pub fn append_chars(dst: &mut Vec<char>, src: &Vec<char>)
    ensures
        final(dst)@ == old(dst)@ + src@,
{
    let mut i: usize = 0;
    let ghost d0 = dst@;
    while i < src.len()
        invariant
            i <= src.len(),
            dst@ == d0 + src@.subrange(0, i as int),
        decreases src.len() - i,
    {
        dst.push(src[i]);
        i = i + 1;
        assert(dst@ =~= d0 + src@.subrange(0, i as int));
    }
    assert(src@.subrange(0, src.len() as int) =~= src@);
}

/// Whether two character vectors are equal.
pub fn chars_eq(a: &Vec<char>, b: &Vec<char>) -> (r: bool)
    ensures
        r == (a@ == b@),
{
    if a.len() != b.len() {
        return false;
    }
    let mut i: usize = 0;
    while i < a.len()
        invariant
            a.len() == b.len(),
            i <= a.len(),
            forall|j: int| 0 <= j < i ==> a@[j] == b@[j],
        decreases a.len() - i,
    {
        if a[i] != b[i] {
            return false;
        }
        i = i + 1;
    }
    assert(a@ =~= b@);
    true
}

/// Whether `p` occurs in `s` at position `at`.
pub open spec fn occurs_at(s: Seq<char>, at: int, p: Seq<char>) -> bool {
    0 <= at && at + p.len() <= s.len() && s.subrange(at, at + p.len()) == p
}

/// Whether `p` occurs in `s` at position `at`.
pub fn matches_at(s: &Vec<char>, at: usize, p: &Vec<char>) -> (r: bool)
    requires
        at <= s.len(),
    ensures
        r == occurs_at(s@, at as int, p@),
{
    if p.len() > s.len() - at {
        return false;
    }
    let mut i: usize = 0;
    while i < p.len()
        invariant
            at + p.len() <= s.len(),
            i <= p.len(),
            forall|j: int| 0 <= j < i ==> s@[at + j] == p@[j],
        decreases p.len() - i,
    {
        if s[at + i] != p[i] {
            assert(s@.subrange(at as int, at + p.len())[i as int] != p@[i as int]);
            return false;
        }
        i = i + 1;
    }
    assert(s@.subrange(at as int, at + p.len()) =~= p@);
    true
}

/// `str::split` on a single separator character: the pieces between separators,
/// always at least one.
pub open spec fn split_on(s: Seq<char>, sep: char) -> Seq<Seq<char>>
    decreases s.len(),
{
    if s.len() == 0 {
        seq![Seq::<char>::empty()]
    } else {
        let p = split_on(s.drop_last(), sep);
        if s.last() == sep {
            p.push(Seq::<char>::empty())
        } else {
            p.update(p.len() - 1, p.last().push(s.last()))
        }
    }
}

pub proof fn lemma_split_on_nonempty(s: Seq<char>, sep: char)
    ensures
        split_on(s, sep).len() >= 1,
    decreases s.len(),
{
    if s.len() > 0 {
        lemma_split_on_nonempty(s.drop_last(), sep);
    }
}

/// Splits `s` on every occurrence of `sep`, as `str::split` does.
pub fn split_chars(s: &Vec<char>, sep: char) -> (res: Vec<Vec<char>>)
    ensures
        res@.map_values(|v: Vec<char>| v@) == split_on(s@, sep),
{
    let mut pieces: Vec<Vec<char>> = Vec::new();
    let mut cur: Vec<char> = Vec::new();
    let mut i: usize = 0;
    while i < s.len()
        invariant
            i <= s.len(),
            pieces@.map_values(|v: Vec<char>| v@).push(cur@) == split_on(s@.subrange(0, i as int), sep),
        decreases s.len() - i,
    {
        let ghost prev = s@.subrange(0, i as int);
        assert(s@.subrange(0, i + 1).drop_last() =~= prev);
        proof {
            lemma_split_on_nonempty(prev, sep);
        }
        let c = s[i];
        if c == sep {
            let done = cur;
            pieces.push(done);
            cur = Vec::new();
            assert(pieces@.map_values(|v: Vec<char>| v@).push(cur@) =~= split_on(prev, sep).push(
                Seq::<char>::empty(),
            ));
        } else {
            cur.push(c);
            assert(pieces@.map_values(|v: Vec<char>| v@).push(cur@) =~= split_on(prev, sep).update(
                split_on(prev, sep).len() - 1,
                split_on(prev, sep).last().push(c),
            ));
        }
        i = i + 1;
    }
    assert(s@.subrange(0, s.len() as int) =~= s@);
    pieces.push(cur);
    pieces
}

/// Whether `s` contains `\r\n`.
pub open spec fn has_crlf(s: Seq<char>) -> bool {
    exists|i: int| #![trigger s[i]] 0 <= i < s.len() - 1 && s[i] == '\r' && s[i + 1] == '\n'
}

/// `x` without one trailing carriage return.
pub open spec fn strip_cr(x: Seq<char>) -> Seq<char> {
    if x.len() > 0 && x.last() == '\r' {
        x.drop_last()
    } else {
        x
    }
}

/// The lines of `s`, as `str::lines` yields them: split at `\n`, one `\r` removed before each
/// `\n`, and no empty final line after a trailing `\n`.
pub open spec fn lines_spec(s: Seq<char>) -> Seq<Seq<char>> {
    if s.len() == 0 {
        Seq::empty()
    } else {
        let p = split_on(s, '\n');
        let n = if s.last() == '\n' {
            p.len() - 1
        } else {
            p.len() as int
        };
        Seq::new(
            n as nat,
            |i: int|
                if i < p.len() - 1 {
                    strip_cr(p[i])
                } else {
                    p[i]
                },
        )
    }
}

/// A vector without one trailing carriage return.
pub fn strip_cr_vec(x: Vec<char>) -> (res: Vec<char>)
    ensures
        res@ == strip_cr(x@),
{
    let mut x = x;
    if x.len() > 0 && x[x.len() - 1] == '\r' {
        x.pop();
    }
    x
}

/// The lines of `s`, as `str::lines` yields them.
pub fn lines_of(s: &Vec<char>) -> (res: Vec<Vec<char>>)
    ensures
        res@.map_values(|v: Vec<char>| v@) == lines_spec(s@),
{
    if s.len() == 0 {
        let r: Vec<Vec<char>> = Vec::new();
        assert(r@.map_values(|v: Vec<char>| v@) =~= lines_spec(s@));
        return r;
    }
    let pieces = split_chars(s, '\n');
    let ghost p = split_on(s@, '\n');
    proof {
        lemma_split_on_nonempty(s@, '\n');
        assert(pieces@.len() == p.len());
        assert(forall|i: int| 0 <= i < p.len() ==> #[trigger] pieces@[i]@ == p[i]) by {
            assert forall|i: int| 0 <= i < p.len() implies #[trigger] pieces@[i]@ == p[i] by {
                assert(pieces@.map_values(|v: Vec<char>| v@)[i] == pieces@[i]@);
            }
        }
    }
    let n: usize = if s[s.len() - 1] == '\n' {
        pieces.len() - 1
    } else {
        pieces.len()
    };
    let mut res: Vec<Vec<char>> = Vec::new();
    let mut i: usize = 0;
    while i < n
        invariant
            n <= pieces.len(),
            pieces@.len() == p.len(),
            p == split_on(s@, '\n'),
            forall|k: int| 0 <= k < p.len() ==> #[trigger] pieces@[k]@ == p[k],
            i <= n,
            res@.len() == i,
            forall|k: int|
                0 <= k < i ==> #[trigger] res@[k]@ == (if k < p.len() - 1 {
                    strip_cr(p[k])
                } else {
                    p[k]
                }),
        decreases n - i,
    {
        let piece = slice_to_vec(&pieces[i], 0, pieces[i].len());
        assert(piece@ =~= pieces@[i as int]@);
        if i < pieces.len() - 1 {
            let t = strip_cr_vec(piece);
            res.push(t);
        } else {
            res.push(piece);
        }
        i = i + 1;
    }
    assert(res@.map_values(|v: Vec<char>| v@) =~= lines_spec(s@));
    res
}

/// The concatenation of `parts` with `sep` between consecutive parts.
pub open spec fn join_with(parts: Seq<Seq<char>>, sep: Seq<char>) -> Seq<char>
    decreases parts.len(),
{
    if parts.len() == 0 {
        Seq::empty()
    } else if parts.len() == 1 {
        parts[0]
    } else {
        join_with(parts.drop_last(), sep) + sep + parts.last()
    }
}

/// Joins `parts` with `sep` between consecutive parts.
pub fn join_chars(parts: &Vec<Vec<char>>, sep: &Vec<char>) -> (res: Vec<char>)
    ensures
        res@ == join_with(parts@.map_values(|v: Vec<char>| v@), sep@),
{
    let ghost views = parts@.map_values(|v: Vec<char>| v@);
    let mut res: Vec<char> = Vec::new();
    let mut i: usize = 0;
    while i < parts.len()
        invariant
            i <= parts.len(),
            views == parts@.map_values(|v: Vec<char>| v@),
            res@ == join_with(views.subrange(0, i as int), sep@),
        decreases parts.len() - i,
    {
        assert(views.subrange(0, i + 1).drop_last() =~= views.subrange(0, i as int));
        assert(views[i as int] == parts@[i as int]@);
        if i > 0 {
            append_chars(&mut res, sep);
        }
        append_chars(&mut res, &parts[i]);
        i = i + 1;
        assert(res@ =~= join_with(views.subrange(0, i as int), sep@));
    }
    assert(views.subrange(0, parts.len() as int) =~= views);
    res
}

/// Lexicographic order on characters by code point (the order of `str`'s `Ord`).
pub open spec fn chars_lt(a: Seq<char>, b: Seq<char>) -> bool
    decreases a.len(),
{
    if a.len() == 0 {
        b.len() > 0
    } else if b.len() == 0 {
        false
    } else if a[0] != b[0] {
        (a[0] as u32) < (b[0] as u32)
    } else {
        chars_lt(a.drop_first(), b.drop_first())
    }
}

/// Compares `a` and `b` in `str` order: `-1` when `a < b`, `0` when equal, `1` otherwise.
pub fn compare_chars(a: &Vec<char>, b: &Vec<char>) -> (r: i8)
    ensures
        r == -1 <==> chars_lt(a@, b@),
        r == 0 <==> a@ == b@,
        r == 1 <==> chars_lt(b@, a@),
        r == -1 || r == 0 || r == 1,
{
    let mut i: usize = 0;
    while i < a.len() && i < b.len() && a[i] == b[i]
        invariant
            i <= a.len(),
            i <= b.len(),
            a@.subrange(0, i as int) == b@.subrange(0, i as int),
        decreases a.len() - i,
    {
        assert(a@.subrange(0, i + 1) =~= a@.subrange(0, i as int).push(a@[i as int]));
        assert(b@.subrange(0, i + 1) =~= b@.subrange(0, i as int).push(b@[i as int]));
        i = i + 1;
    }
    proof {
        lemma_chars_lt_skip(a@, b@, i as int);
        lemma_chars_lt_skip(b@, a@, i as int);
        lemma_chars_lt_asym(a@, b@);
        lemma_chars_lt_irreflexive(a@);
    }
    if i == a.len() && i == b.len() {
        assert(a@ =~= a@.subrange(0, i as int));
        assert(b@ =~= b@.subrange(0, i as int));
        0
    } else if i == a.len() {
        assert(a@.len() != b@.len());
        -1
    } else if i == b.len() {
        assert(a@.len() != b@.len());
        1
    } else if (a[i] as u32) < (b[i] as u32) {
        assert(a@[i as int] != b@[i as int]);
        -1
    } else {
        assert(a@[i as int] != b@[i as int]);
        proof {
            vstd::utf8::char_u32_cast(a@[i as int], a@[i as int] as u32);
            vstd::utf8::char_u32_cast(b@[i as int], b@[i as int] as u32);
        }
        1
    }
}

/// Comparing after a common prefix of length `k`.
pub proof fn lemma_chars_lt_skip(a: Seq<char>, b: Seq<char>, k: int)
    requires
        0 <= k <= a.len(),
        k <= b.len(),
        a.subrange(0, k) == b.subrange(0, k),
    ensures
        chars_lt(a, b) == chars_lt(a.subrange(k, a.len() as int), b.subrange(k, b.len() as int)),
    decreases k,
{
    if k > 0 {
        assert(a[0] == a.subrange(0, k)[0]);
        assert(b[0] == b.subrange(0, k)[0]);
        assert(a.drop_first().subrange(0, k - 1) =~= b.drop_first().subrange(0, k - 1)) by {
            assert forall|j: int| 0 <= j < k - 1 implies a.drop_first()[j] == b.drop_first()[j] by {
                assert(a.subrange(0, k)[j + 1] == b.subrange(0, k)[j + 1]);
                assert(a.subrange(0, k)[j + 1] == a[j + 1]);
                assert(b.subrange(0, k)[j + 1] == b[j + 1]);
            }
        }
        lemma_chars_lt_skip(a.drop_first(), b.drop_first(), k - 1);
        assert(a.drop_first().subrange(k - 1, a.len() - 1) =~= a.subrange(k, a.len() as int));
        assert(b.drop_first().subrange(k - 1, b.len() - 1) =~= b.subrange(k, b.len() as int));
    } else {
        assert(a.subrange(0, a.len() as int) =~= a);
        assert(b.subrange(0, b.len() as int) =~= b);
    }
}

pub proof fn lemma_chars_lt_irreflexive(a: Seq<char>)
    ensures
        !chars_lt(a, a),
    decreases a.len(),
{
    if a.len() > 0 {
        lemma_chars_lt_irreflexive(a.drop_first());
    }
}

pub proof fn lemma_chars_lt_asym(a: Seq<char>, b: Seq<char>)
    ensures
        chars_lt(a, b) ==> !chars_lt(b, a),
    decreases a.len(),
{
    if a.len() > 0 && b.len() > 0 && a[0] == b[0] {
        lemma_chars_lt_asym(a.drop_first(), b.drop_first());
    }
}

pub proof fn lemma_chars_lt_trans(a: Seq<char>, b: Seq<char>, c: Seq<char>)
    requires
        chars_lt(a, b),
        chars_lt(b, c),
    ensures
        chars_lt(a, c),
    decreases a.len(),
{
    if a.len() > 0 && b.len() > 0 && c.len() > 0 && a[0] == b[0] && b[0] == c[0] {
        lemma_chars_lt_trans(a.drop_first(), b.drop_first(), c.drop_first());
    }
}

pub proof fn lemma_chars_lt_total(a: Seq<char>, b: Seq<char>)
    ensures
        a != b ==> chars_lt(a, b) || chars_lt(b, a),
    decreases a.len(),
{
    if a.len() > 0 && b.len() > 0 && a[0] == b[0] {
        lemma_chars_lt_total(a.drop_first(), b.drop_first());
        if a != b {
            assert(a.drop_first() != b.drop_first()) by {
                if a.drop_first() == b.drop_first() {
                    assert(a =~= seq![a[0]] + a.drop_first());
                    assert(b =~= seq![b[0]] + b.drop_first());
                }
            }
        }
    } else if a.len() == 0 && b.len() == 0 {
        assert(a =~= b);
    } else if a.len() > 0 && b.len() > 0 {
        if (a[0] as u32) == (b[0] as u32) {
            vstd::utf8::char_u32_cast(a[0], a[0] as u32);
            vstd::utf8::char_u32_cast(b[0], b[0] as u32);
            assert(a[0] == b[0]);
        }
    }
}

/// The lowercase form of a string as `str::to_lowercase` computes it (Unicode's
/// full lowercase mapping, with its context rule for final sigma).
pub uninterp spec fn lowercase(s: Seq<char>) -> Seq<char>;

/// `str::to_lowercase`: its result is the Unicode lowercase of its argument, and every
/// character maps to at least one character, so it is at least as long. The mapping itself
/// (Unicode tables and the final-sigma rule) is named by `lowercase`, not stated.
#[verifier::external_body]
pub(crate) fn to_lowercase_chars(s: &str) -> (res: String)
    ensures
        res@ == lowercase(s@),
        res@.len() >= s@.len(),
{
    s.to_lowercase()
}

} // verus!
