//! Unix path text, read the way `std::path::Path` reads it: components, file name,
//! extension, component-wise prefixes, forward-slash rendering, lexical normalisation,
//! and the extension and event filters that work on paths.
use crate::chars::{append_chars, chars_eq, chars_of, join_chars, join_with, lowercase, split_chars, split_on, string_of, to_lowercase_chars};
use crate::text::StringSet;
use vstd::prelude::*;

verus! {

pub open spec fn root_str() -> Seq<char> {
    seq!['/']
}

pub open spec fn cur_str() -> Seq<char> {
    seq!['.']
}

pub open spec fn parent_str() -> Seq<char> {
    seq!['.', '.']
}

/// Whether a piece between separators is a real component (not empty, not `.`).
pub open spec fn is_named_piece(x: Seq<char>) -> bool {
    x.len() > 0 && x != cur_str()
}

/// The components of a path as `Path::iter` yields them: `/` for the root, `.` for a
/// leading current-directory marker, then every piece between `/` separators that is
/// neither empty nor `.` (so `..` and names remain).
pub open spec fn comps(p: Seq<char>) -> Seq<Seq<char>> {
    let pieces = split_on(p, '/');
    let rooted = p.len() > 0 && p[0] == '/';
    let head = if rooted {
        seq![root_str()]
    } else if pieces[0] == cur_str() {
        seq![cur_str()]
    } else {
        Seq::<Seq<char>>::empty()
    };
    head + pieces.filter(|x: Seq<char>| is_named_piece(x))
}

/// Whether a component string is a normal (named) component.
pub open spec fn is_normal_comp(c: Seq<char>) -> bool {
    c != root_str() && c != cur_str() && c != parent_str()
}

/// The file name of a path: its last component when that is a normal component.
pub open spec fn file_name_spec(p: Seq<char>) -> Option<Seq<char>> {
    let c = comps(p);
    if c.len() > 0 && is_normal_comp(c.last()) {
        Some(c.last())
    } else {
        None
    }
}

/// Whether `name` contains `.` at some index `k` and none after it.
pub open spec fn last_dot_at(name: Seq<char>, k: int) -> bool {
    0 <= k < name.len() && name[k] == '.' && forall|j: int| k < j < name.len() ==> name[j] != '.'
}

/// The extension of a file name: the text after its last `.`, unless there is no `.` or
/// the only `.` is the first character.
pub open spec fn name_extension(name: Seq<char>) -> Option<Seq<char>> {
    if exists|k: int| 0 < k && last_dot_at(name, k) {
        let k = choose|k: int| 0 < k && last_dot_at(name, k);
        Some(name.subrange(k + 1, name.len() as int))
    } else {
        None
    }
}

/// The extension of a path, from its file name.
pub open spec fn extension_spec(p: Seq<char>) -> Option<Seq<char>> {
    match file_name_spec(p) {
        Some(n) => name_extension(n),
        None => None,
    }
}

/// The components of a path, computed.
pub fn path_comps(p: &Vec<char>) -> (res: Vec<Vec<char>>)
    ensures
        res@.map_values(|v: Vec<char>| v@) == comps(p@),
{
    let pieces = split_chars(p, '/');
    let ghost pv = split_on(p@, '/');
    proof {
        crate::chars::lemma_split_on_nonempty(p@, '/');
    }
    let mut res: Vec<Vec<char>> = Vec::new();
    let rooted = p.len() > 0 && p[0] == '/';
    let dot = vec!['.'];
    assert(dot@ =~= cur_str());
    assert(pieces@[0]@ == pv[0]) by {
        assert(pieces@.map_values(|v: Vec<char>| v@)[0] == pieces@[0]@);
    }
    if rooted {
        let r = vec!['/'];
        assert(r@ =~= root_str());
        res.push(r);
        assert(res@.map_values(|v: Vec<char>| v@) =~= seq![root_str()]);
    } else if chars_eq(&pieces[0], &dot) {
        let d2 = vec!['.'];
        assert(d2@ =~= cur_str());
        res.push(d2);
        assert(res@.map_values(|v: Vec<char>| v@) =~= seq![cur_str()]);
    } else {
        assert(res@.map_values(|v: Vec<char>| v@) =~= Seq::<Seq<char>>::empty());
    }
    let ghost head = res@.map_values(|v: Vec<char>| v@);
    assert(head =~= (if rooted {
        seq![root_str()]
    } else if pv[0] == cur_str() {
        seq![cur_str()]
    } else {
        Seq::<Seq<char>>::empty()
    }));
    let mut i: usize = 0;
    while i < pieces.len()
        invariant
            i <= pieces.len(),
            pieces@.map_values(|v: Vec<char>| v@) == pv,
            dot@ == cur_str(),
            res@.map_values(|v: Vec<char>| v@) == head + pv.subrange(0, i as int).filter(
                |x: Seq<char>| is_named_piece(x),
            ),
        decreases pieces.len() - i,
    {
        assert(pieces@[i as int]@ == pv[i as int]) by {
            assert(pieces@.map_values(|v: Vec<char>| v@)[i as int] == pieces@[i as int]@);
        }
        assert(pv.subrange(0, i + 1).drop_last() =~= pv.subrange(0, i as int));
        reveal_with_fuel(Seq::filter, 1);
        let ghost r0 = res@.map_values(|v: Vec<char>| v@);
        if pieces[i].len() > 0 && !chars_eq(&pieces[i], &dot) {
            let c = crate::chars::slice_to_vec(&pieces[i], 0, pieces[i].len());
            assert(c@ =~= pv[i as int]);
            res.push(c);
            assert(res@.map_values(|v: Vec<char>| v@) =~= r0.push(pv[i as int]));
        }
        i = i + 1;
    }
    assert(pv.subrange(0, pieces.len() as int) =~= pv);
    res
}

/// Whether a component is a normal one.
fn is_normal_comp_exec(c: &Vec<char>) -> (b: bool)
    ensures
        b == is_normal_comp(c@),
{
    let r = vec!['/'];
    let d = vec!['.'];
    let dd = vec!['.', '.'];
    assert(r@ =~= root_str());
    assert(d@ =~= cur_str());
    assert(dd@ =~= parent_str());
    !chars_eq(c, &r) && !chars_eq(c, &d) && !chars_eq(c, &dd)
}

/// The file name of a path, if it has one.
pub fn path_file_name(p: &str) -> (res: Option<Vec<char>>)
    ensures
        match res {
            Some(n) => file_name_spec(p@) == Some(n@),
            None => file_name_spec(p@) is None,
        },
{
    let cs = chars_of(p);
    let c = path_comps(&cs);
    if c.len() == 0 {
        return None;
    }
    let last = &c[c.len() - 1];
    assert(last@ == comps(p@).last()) by {
        assert(c@.map_values(|v: Vec<char>| v@)[c.len() - 1] == c@[c.len() - 1]@);
    }
    if is_normal_comp_exec(last) {
        Some(crate::chars::slice_to_vec(last, 0, last.len()))
    } else {
        None
    }
}

/// The extension of a file name.
pub fn name_extension_exec(name: &Vec<char>) -> (res: Option<Vec<char>>)
    ensures
        match res {
            Some(e) => name_extension(name@) == Some(e@),
            None => name_extension(name@) is None,
        },
{
    let mut k = name.len();
    while k > 0 && name[k - 1] != '.'
        invariant
            k <= name.len(),
            forall|j: int| k <= j < name.len() ==> name@[j] != '.',
        decreases k,
    {
        k = k - 1;
    }
    if k <= 1 {
        proof {
            if exists|k2: int| 0 < k2 && last_dot_at(name@, k2) {
                let k2 = choose|k2: int| 0 < k2 && last_dot_at(name@, k2);
                assert(name@[k2] == '.');
            }
        }
        return None;
    }
    let dot = k - 1;
    assert(last_dot_at(name@, dot as int));
    proof {
        let k2 = choose|k2: int| 0 < k2 && last_dot_at(name@, k2);
        if k2 < dot {
            assert(name@[dot as int] != '.');
        } else if k2 > dot {
            assert(name@[k2] != '.');
        }
    }
    Some(crate::chars::slice_to_vec(name, k, name.len()))
}

/// The extension of a path, if it has one.
pub fn path_extension(p: &str) -> (res: Option<Vec<char>>)
    ensures
        match res {
            Some(e) => extension_spec(p@) == Some(e@),
            None => extension_spec(p@) is None,
        },
{
    match path_file_name(p) {
        Some(n) => name_extension_exec(&n),
        None => None,
    }
}

/// The path with forward slashes between its components (`Path::iter` joined by `/`).
pub open spec fn path_to_unix_spec(p: Seq<char>) -> Seq<char> {
    join_with(comps(p), seq!['/'])
}

/// Renders a path with `/` between its components; a leading root shows as `//`.
pub fn path_to_unix(p: &str) -> (res: String)
    ensures
        res@ == path_to_unix_spec(p@),
{
    let cs = chars_of(p);
    let c = path_comps(&cs);
    let sep = vec!['/'];
    assert(sep@ =~= seq!['/']);
    let j = join_chars(&c, &sep);
    string_of(j.as_slice())
}

/// Whether `base`'s components are a prefix of `p`'s (`Path::starts_with`).
pub open spec fn starts_with_spec(p: Seq<char>, base: Seq<char>) -> bool {
    comps(base).len() <= comps(p).len() && comps(p).subrange(0, comps(base).len() as int)
        == comps(base)
}

/// Whether the components of `base` are a prefix of the components of `p`.
pub fn comps_prefix(pc: &Vec<Vec<char>>, bc: &Vec<Vec<char>>) -> (b: bool)
    ensures
        b == (bc@.len() <= pc@.len() && pc@.map_values(|v: Vec<char>| v@).subrange(
            0,
            bc@.len() as int,
        ) == bc@.map_values(|v: Vec<char>| v@)),
{
    if bc.len() > pc.len() {
        return false;
    }
    let mut i: usize = 0;
    while i < bc.len()
        invariant
            i <= bc.len() <= pc.len(),
            forall|j: int| 0 <= j < i ==> pc@[j]@ == bc@[j]@,
        decreases bc.len() - i,
    {
        if !chars_eq(&pc[i], &bc[i]) {
            assert(pc@.map_values(|v: Vec<char>| v@).subrange(0, bc@.len() as int)[i as int]
                != bc@.map_values(|v: Vec<char>| v@)[i as int]);
            return false;
        }
        i = i + 1;
    }
    assert(pc@.map_values(|v: Vec<char>| v@).subrange(0, bc@.len() as int) =~= bc@.map_values(
        |v: Vec<char>| v@,
    ));
    true
}

/// Whether `p` starts with `base`, comparing whole components.
pub fn path_starts_with(p: &str, base: &str) -> (b: bool)
    ensures
        b == starts_with_spec(p@, base@),
{
    let pc = path_comps(&chars_of(p));
    let bc = path_comps(&chars_of(base));
    comps_prefix(&pc, &bc)
}

/// Whether `p` lies at or below `ancestor`, both given in resolved form (absolute or
/// relative paths that are compared as written, component by component).
pub fn is_ancestor_of(ancestor: &str, p: &str) -> (b: bool)
    ensures
        b == starts_with_spec(p@, ancestor@),
{
    path_starts_with(p, ancestor)
}

/* ---------------------------- lexical normalisation ---------------------------- */

/// The named parts left after folding `.` and `..` of components `c` into `acc`: a `..`
/// removes the previous named part, stays when the previous part is `..` or when a
/// relative path has nothing to remove, and is dropped above the root.
pub open spec fn fold_parts(c: Seq<Seq<char>>, rooted: bool, acc: Seq<Seq<char>>) -> Seq<Seq<char>>
    decreases c.len(),
{
    if c.len() == 0 {
        acc
    } else {
        let x = c[0];
        let acc2 = if x == root_str() || x == cur_str() {
            acc
        } else if x == parent_str() {
            if acc.len() > 0 {
                if acc.last() == parent_str() {
                    acc.push(parent_str())
                } else {
                    acc.drop_last()
                }
            } else if !rooted {
                acc.push(parent_str())
            } else {
                acc
            }
        } else {
            acc.push(x)
        };
        fold_parts(c.drop_first(), rooted, acc2)
    }
}

/// The lexically normalised path: `/` for a rooted path, then the folded parts joined by
/// `/`; empty when nothing remains.
pub open spec fn normalize_lexically_spec(p: Seq<char>) -> Seq<char> {
    let c = comps(p);
    let rooted = c.len() > 0 && c[0] == root_str();
    (if rooted {
        seq!['/']
    } else {
        Seq::empty()
    }) + join_with(fold_parts(c, rooted, Seq::empty()), seq!['/'])
}

/// Normalises a path without touching the file system: drops `.`, resolves `..` against
/// the preceding name, keeps leading `..` of relative paths, and collapses separators.
pub fn normalize_path_lexically(p: &str) -> (res: String)
    ensures
        res@ == normalize_lexically_spec(p@),
{
    let cs = chars_of(p);
    let c = path_comps(&cs);
    let ghost cv = comps(p@);
    let root = vec!['/'];
    let dot = vec!['.'];
    let dd = vec!['.', '.'];
    assert(root@ =~= root_str());
    assert(dot@ =~= cur_str());
    assert(dd@ =~= parent_str());
    let rooted = c.len() > 0 && chars_eq(&c[0], &root);
    proof {
        if c.len() > 0 {
            assert(c@.map_values(|v: Vec<char>| v@)[0] == c@[0]@);
        }
    }
    let mut parts: Vec<Vec<char>> = Vec::new();
    let mut i: usize = 0;
    assert(cv.subrange(0, cv.len() as int) =~= cv);
    assert(parts@.map_values(|v: Vec<char>| v@) =~= Seq::<Seq<char>>::empty());
    while i < c.len()
        invariant
            i <= c.len(),
            c@.map_values(|v: Vec<char>| v@) == cv,
            root@ == root_str(),
            dot@ == cur_str(),
            dd@ == parent_str(),
            fold_parts(cv.subrange(i as int, cv.len() as int), rooted, parts@.map_values(
                |v: Vec<char>| v@,
            )) == fold_parts(cv, rooted, Seq::empty()),
        decreases c.len() - i,
    {
        let x = &c[i];
        assert(x@ == cv[i as int]) by {
            assert(c@.map_values(|v: Vec<char>| v@)[i as int] == c@[i as int]@);
        }
        let ghost rest = cv.subrange(i as int, cv.len() as int);
        assert(rest[0] == cv[i as int]);
        assert(rest.drop_first() =~= cv.subrange(i + 1, cv.len() as int));
        let ghost p0 = parts@.map_values(|v: Vec<char>| v@);
        if chars_eq(x, &root) || chars_eq(x, &dot) {
        } else if chars_eq(x, &dd) {
            if parts.len() > 0 {
                let last_is_dd = chars_eq(&parts[parts.len() - 1], &dd);
                assert(p0.last() == parts@[parts.len() - 1]@);
                if last_is_dd {
                    parts.push(vec!['.', '.']);
                    assert(parts@.map_values(|v: Vec<char>| v@) =~= p0.push(parent_str()));
                } else {
                    parts.pop();
                    assert(parts@.map_values(|v: Vec<char>| v@) =~= p0.drop_last());
                }
            } else if !rooted {
                parts.push(vec!['.', '.']);
                assert(parts@.map_values(|v: Vec<char>| v@) =~= p0.push(parent_str()));
            }
        } else {
            let y = crate::chars::slice_to_vec(x, 0, x.len());
            assert(y@ =~= x@);
            parts.push(y);
            assert(parts@.map_values(|v: Vec<char>| v@) =~= p0.push(x@));
        }
        i = i + 1;
    }
    let mut out: Vec<char> = Vec::new();
    if rooted {
        out.push('/');
    }
    let sep = vec!['/'];
    assert(sep@ =~= seq!['/']);
    let j = join_chars(&parts, &sep);
    append_chars(&mut out, &j);
    proof {
        assert(cv.subrange(c.len() as int, cv.len() as int).len() == 0);
        let pr = if rooted {
            seq!['/']
        } else {
            Seq::<char>::empty()
        };
        assert(out@ =~= pr + j@);
    }
    string_of(out.as_slice())
}

/* ------------------------------ extension filters ------------------------------ */

/// Whether a path matches an extension filter set: by its whole lowercased file name with
/// a dot before it (extension-less names such as `justfile`), by any dotted suffix of its
/// lowercased file name (`.tar.gz`), or by its lowercased extension.
pub open spec fn matches_ext_filters_spec(p: Seq<char>, filters: Set<Seq<char>>) -> bool {
    match file_name_spec(p) {
        None => false,
        Some(name) => {
            let lower = lowercase(name);
            name.len() > 0 && (filters.contains(seq!['.'] + lower) || (exists|k: int|
                0 <= k < lower.len() && lower[k] == '.' && filters.contains(
                    #[trigger] lower.subrange(k, lower.len() as int),
                )) || (match extension_spec(p) {
                Some(e) => filters.contains(seq!['.'] + lowercase(e)),
                None => false,
            }))
        },
    }
}

/// `.` followed by the lowercase of `s`.
fn dotted_lower(s: &Vec<char>) -> (res: String)
    ensures
        res@ == seq!['.'] + lowercase(s@),
{
    let st = string_of(s.as_slice());
    let low = to_lowercase_chars(st.as_str());
    let mut out = vec!['.'];
    append_chars(&mut out, &chars_of(low.as_str()));
    assert(out@ =~= seq!['.'] + lowercase(s@));
    string_of(out.as_slice())
}

/// Whether a path matches an extension filter set (see `matches_ext_filters_spec`).
pub fn path_matches_extension_filters(p: &str, filters: &StringSet) -> (b: bool)
    ensures
        b == matches_ext_filters_spec(p@, filters@),
{
    let name = match path_file_name(p) {
        Some(n) => n,
        None => return false,
    };
    if name.len() == 0 {
        return false;
    }
    let full = dotted_lower(&name);
    if filters.contains(full.as_str()) {
        return true;
    }
    let name_s = string_of(name.as_slice());
    let lower = chars_of(to_lowercase_chars(name_s.as_str()).as_str());
    let mut k: usize = 0;
    while k < lower.len()
        invariant
            k <= lower.len(),
            lower@ == lowercase(name@),
            file_name_spec(p@) == Some(name@),
            name@.len() > 0,
            forall|j: int|
                0 <= j < k && lower@[j] == '.' ==> !filters@.contains(
                    #[trigger] lower@.subrange(j, lower@.len() as int),
                ),
        decreases lower.len() - k,
    {
        if lower[k] == '.' {
            let suffix = string_of(crate::chars::slice_to_vec(&lower, k, lower.len()).as_slice());
            if filters.contains(suffix.as_str()) {
                assert(lower@.subrange(k as int, lower@.len() as int) == suffix@);
                assert(exists|k2: int|
                    0 <= k2 < lower@.len() && lower@[k2] == '.' && filters@.contains(
                        #[trigger] lower@.subrange(k2, lower@.len() as int),
                    ));
                return true;
            }
        }
        k = k + 1;
    }
    match path_extension(p) {
        Some(e) => {
            let d = dotted_lower(&e);
            filters.contains(d.as_str())
        },
        None => false,
    }
}

/* ------------------------------ event relevance ------------------------------ */

/// Whether a change at `abs` matters to a scan of `root` with the given filters: it must
/// lie under `root`; the root itself always matters; no normal component below the root
/// may be an excluded directory name; its file name may not be an excluded file name;
/// then the include filter decides when it is non-empty, else the exclude filter does.
pub open spec fn event_relevant_spec(
    root: Seq<char>,
    abs: Seq<char>,
    inc: Set<Seq<char>>,
    exc: Set<Seq<char>>,
    exdirs: Set<Seq<char>>,
    exfiles: Set<Seq<char>>,
) -> bool {
    if !starts_with_spec(abs, root) {
        false
    } else {
        let rel = comps(abs).subrange(comps(root).len() as int, comps(abs).len() as int);
        if rel.len() == 0 {
            true
        } else if exists|k: int| 0 <= k < rel.len() && is_normal_comp(rel[k]) && exdirs.contains(#[trigger] rel[k]) {
            false
        } else if is_normal_comp(rel.last()) && exfiles.contains(rel.last()) {
            false
        } else if inc.len() > 0 {
            matches_ext_filters_spec(abs, inc)
        } else if exc.len() > 0 {
            !matches_ext_filters_spec(abs, exc)
        } else {
            true
        }
    }
}

/// Decides whether a file-system event at `abs_path` is relevant to the project at
/// `project_root` under the current filters (see `event_relevant_spec`).
pub fn is_event_path_relevant(
    project_root: &str,
    abs_path: &str,
    include_exts: &StringSet,
    exclude_exts: &StringSet,
    exclude_dirs: &StringSet,
    exclude_files: &StringSet,
) -> (b: bool)
    requires
        include_exts.wf(),
        exclude_exts.wf(),
    ensures
        b == event_relevant_spec(
            project_root@,
            abs_path@,
            include_exts@,
            exclude_exts@,
            exclude_dirs@,
            exclude_files@,
        ),
{
    let pc = path_comps(&chars_of(abs_path));
    let bc = path_comps(&chars_of(project_root));
    let ghost pv = comps(abs_path@);
    let ghost bv = comps(project_root@);
    if !comps_prefix(&pc, &bc) {
        return false;
    }
    if pc.len() == bc.len() {
        return true;
    }
    let ghost rel = pv.subrange(bv.len() as int, pv.len() as int);
    let mut k = bc.len();
    while k < pc.len()
        invariant
            bc.len() <= k <= pc.len(),
            pc@.map_values(|v: Vec<char>| v@) == pv,
            bc@.len() == bv.len(),
            pv == comps(abs_path@),
            bv == comps(project_root@),
            starts_with_spec(abs_path@, project_root@),
            bv.len() < pv.len(),
            rel == pv.subrange(bv.len() as int, pv.len() as int),
            forall|j: int| 0 <= j < k - bv.len() ==> !(is_normal_comp(rel[j]) && exclude_dirs@.contains(#[trigger] rel[j])),
        decreases pc.len() - k,
    {
        let x = &pc[k];
        assert(x@ == rel[k - bv.len()]) by {
            assert(pc@.map_values(|v: Vec<char>| v@)[k as int] == pc@[k as int]@);
        }
        if is_normal_comp_exec(x) {
            let xs = string_of(x.as_slice());
            if exclude_dirs.contains(xs.as_str()) {
                assert(is_normal_comp(rel[k - bv.len()]) && exclude_dirs@.contains(rel[k - bv.len()]));
                return false;
            }
        }
        k = k + 1;
    }
    assert(!(exists|j: int| 0 <= j < rel.len() && is_normal_comp(rel[j]) && exclude_dirs@.contains(#[trigger] rel[j])));
    let last = &pc[pc.len() - 1];
    assert(last@ == rel.last()) by {
        assert(pc@.map_values(|v: Vec<char>| v@)[pc.len() - 1] == pc@[pc.len() - 1]@);
    }
    if is_normal_comp_exec(last) {
        let ls = string_of(last.as_slice());
        if exclude_files.contains(ls.as_str()) {
            return false;
        }
    }
    if include_exts.len() > 0 {
        return path_matches_extension_filters(abs_path, include_exts);
    }
    if exclude_exts.len() > 0 {
        return !path_matches_extension_filters(abs_path, exclude_exts);
    }
    true
}

/// The order in which the filters decide whether a change matters: a change outside the
/// project never matters and the project folder itself always does; below it, an excluded
/// folder name among the components, then an excluded file name, rule the change out
/// whatever the extension filters say; only then does a non-empty include filter decide,
/// or else the exclude filter.
pub proof fn lemma_event_relevance_precedence(
    root: Seq<char>,
    abs: Seq<char>,
    inc: Set<Seq<char>>,
    exc: Set<Seq<char>>,
    exdirs: Set<Seq<char>>,
    exfiles: Set<Seq<char>>,
)
    ensures
        !starts_with_spec(abs, root) ==> !event_relevant_spec(root, abs, inc, exc, exdirs, exfiles),
        starts_with_spec(abs, root) && comps(abs).len() == comps(root).len() ==> event_relevant_spec(
            root,
            abs,
            inc,
            exc,
            exdirs,
            exfiles,
        ),
        forall|k: int|
            starts_with_spec(abs, root) && comps(root).len() <= k < comps(abs).len() && is_normal_comp(
                comps(abs)[k],
            ) && exdirs.contains(#[trigger] comps(abs)[k]) ==> !event_relevant_spec(root, abs, inc, exc, exdirs, exfiles),
        starts_with_spec(abs, root) && comps(abs).len() > comps(root).len() && is_normal_comp(comps(abs).last())
            && exfiles.contains(comps(abs).last()) ==> !event_relevant_spec(root, abs, inc, exc, exdirs, exfiles),
{
    let rel = comps(abs).subrange(comps(root).len() as int, comps(abs).len() as int);
    assert forall|k: int|
        starts_with_spec(abs, root) && comps(root).len() <= k < comps(abs).len() && is_normal_comp(comps(abs)[k])
            && exdirs.contains(#[trigger] comps(abs)[k]) implies !event_relevant_spec(root, abs, inc, exc, exdirs, exfiles) by {
        assert(rel[k - comps(root).len()] == comps(abs)[k]);
    }
    if starts_with_spec(abs, root) && comps(abs).len() > comps(root).len() {
        assert(rel.last() == comps(abs).last());
    }
}

/// Every path is an ancestor of itself.
pub proof fn lemma_ancestor_reflexive(p: Seq<char>)
    ensures
        starts_with_spec(p, p),
{
    assert(comps(p).subrange(0, comps(p).len() as int) =~= comps(p));
}

/// The components of `p` after those of `base`, joined by `/`, when `p` lies at or below
/// `base` (`Path::strip_prefix`, then the components joined with `/`).
pub open spec fn strip_prefix_key_spec(base: Seq<char>, p: Seq<char>) -> Option<Seq<char>> {
    if starts_with_spec(p, base) {
        Some(join_with(comps(p).subrange(comps(base).len() as int, comps(p).len() as int), seq!['/']))
    } else {
        None
    }
}

/// The path of `p` relative to `base`, with `/` between components, when `base` is a proper
/// ancestor of `p` (`Path::strip_prefix`, then `path_to_unix`, kept only when not empty).
pub open spec fn relative_path_spec(base: Seq<char>, p: Seq<char>) -> Option<Seq<char>> {
    if starts_with_spec(p, base) && comps(p).len() > comps(base).len() {
        Some(join_with(comps(p).subrange(comps(base).len() as int, comps(p).len() as int), seq!['/']))
    } else {
        None
    }
}

/// The components `pc[from..]` joined by `/`.
fn join_comps_from(pc: &Vec<Vec<char>>, from: usize) -> (res: String)
    requires
        from <= pc.len(),
    ensures
        res@ == join_with(pc@.map_values(|v: Vec<char>| v@).subrange(from as int, pc@.len() as int), seq!['/']),
{
    let mut rest: Vec<Vec<char>> = Vec::new();
    let mut i = from;
    let ghost pv = pc@.map_values(|v: Vec<char>| v@);
    while i < pc.len()
        invariant
            from <= i <= pc.len(),
            pv == pc@.map_values(|v: Vec<char>| v@),
            rest@.map_values(|v: Vec<char>| v@) == pv.subrange(from as int, i as int),
        decreases pc.len() - i,
    {
        let ghost r0 = rest@.map_values(|v: Vec<char>| v@);
        let c = crate::chars::slice_to_vec(&pc[i], 0, pc[i].len());
        assert(c@ =~= pv[i as int]);
        rest.push(c);
        assert(rest@.map_values(|v: Vec<char>| v@) =~= r0.push(pv[i as int]));
        i = i + 1;
        assert(pv.subrange(from as int, i as int) =~= r0.push(pv[i - 1]));
    }
    let sep = vec!['/'];
    assert(sep@ =~= seq!['/']);
    let j = join_chars(&rest, &sep);
    string_of(j.as_slice())
}

/// The path of `p` below `base`, with `/` between components; `None` when `p` is not
/// strictly below `base`.
pub fn relative_path(base: &str, p: &str) -> (res: Option<String>)
    ensures
        match res {
            Some(r) => relative_path_spec(base@, p@) == Some(r@),
            None => relative_path_spec(base@, p@) is None,
        },
{
    let pc = path_comps(&chars_of(p));
    let bc = path_comps(&chars_of(base));
    if !comps_prefix(&pc, &bc) || pc.len() <= bc.len() {
        return None;
    }
    Some(join_comps_from(&pc, bc.len()))
}

/// The paths of `ps` strictly below `base`, each relative to it, in order.
pub open spec fn relative_paths_spec(base: Seq<char>, ps: Seq<Seq<char>>) -> Seq<Seq<char>>
    decreases ps.len(),
{
    if ps.len() == 0 {
        Seq::empty()
    } else {
        let front = relative_paths_spec(base, ps.drop_last());
        match relative_path_spec(base, ps.last()) {
            Some(r) => front.push(r),
            None => front,
        }
    }
}

/// The paths of `ps` that lie strictly below `base`, relative to it, in their order.
pub fn relative_paths_below(base: &str, ps: &Vec<String>) -> (res: Vec<String>)
    ensures
        res@.map_values(|s: String| s@) == relative_paths_spec(base@, ps@.map_values(|s: String| s@)),
{
    let ghost pv = ps@.map_values(|s: String| s@);
    let mut res: Vec<String> = Vec::new();
    let mut i: usize = 0;
    while i < ps.len()
        invariant
            i <= ps.len(),
            pv == ps@.map_values(|s: String| s@),
            res@.map_values(|s: String| s@) == relative_paths_spec(base@, pv.subrange(0, i as int)),
        decreases ps.len() - i,
    {
        assert(pv.subrange(0, i + 1).drop_last() =~= pv.subrange(0, i as int));
        assert(pv.subrange(0, i + 1).last() == ps@[i as int]@);
        let ghost r0 = res@.map_values(|s: String| s@);
        match relative_path(base, ps[i].as_str()) {
            Some(r) => {
                res.push(r);
                assert(res@.map_values(|s: String| s@) =~= r0.push(res@.last()@));
            },
            None => {},
        }
        i = i + 1;
    }
    assert(pv.subrange(0, ps.len() as int) =~= pv);
    res
}

/// The key of `p` below `base`: the components of `p` after those of `base`, joined by `/`
/// (empty when the two are the same path); `None` when `p` does not lie under `base`.
pub fn strip_prefix_key(base: &str, p: &str) -> (res: Option<String>)
    ensures
        match res {
            Some(r) => strip_prefix_key_spec(base@, p@) == Some(r@),
            None => strip_prefix_key_spec(base@, p@) is None,
        },
{
    let pc = path_comps(&chars_of(p));
    let bc = path_comps(&chars_of(base));
    if !comps_prefix(&pc, &bc) {
        return None;
    }
    Some(join_comps_from(&pc, bc.len()))
}

/// A project path as a window title shows it: below the home directory, `~` followed by
/// the rest of the path; otherwise the whole path, both with `/` between components.
pub open spec fn title_path_spec(dir: Seq<char>, home: Option<Seq<char>>) -> Seq<char> {
    match home {
        Some(h) => match strip_prefix_key_spec(h, dir) {
            Some(rel) => if rel.len() == 0 {
                seq!['~']
            } else {
                seq!['~', '/'] + rel
            },
            None => path_to_unix_spec(dir),
        },
        None => path_to_unix_spec(dir),
    }
}

/// Formats a project directory for the window title, writing the home directory `home`
/// (when known) as `~`.
pub fn format_project_path_for_title(dir: &str, home: Option<&str>) -> (res: String)
    ensures
        res@ == title_path_spec(dir@, match home {
            Some(h) => Some(h@),
            None => None,
        }),
{
    if let Some(h) = home {
        if let Some(rel) = strip_prefix_key(h, dir) {
            let rc = chars_of(rel.as_str());
            let mut t: Vec<char> = vec!['~'];
            if rc.len() > 0 {
                t.push('/');
                append_chars(&mut t, &rc);
            }
            assert(rc.len() == 0 ==> t@ =~= seq!['~']);
            assert(rc.len() > 0 ==> t@ =~= seq!['~', '/'] + rel@);
            return string_of(t.as_slice());
        }
    }
    path_to_unix(dir)
}

} // verus!
