//! Workspace settings and profiles: their data, where they live under the project root,
//! profile file names, merging of profile listings, the `.gitignore` entry for per-user
//! files, and the check for a stale current profile.
use crate::chars::{
    append_chars, chars_lt, chars_of, compare_chars, has_crlf, lines_of, lines_spec, split_on,
    string_of, trim, trim_range,
};
use vstd::prelude::*;

verus! {

/// The settings of a workspace (or of a profile).
#[derive(Debug, Clone)]
pub struct WorkspaceSettings {
    pub version: u32,
    pub ext_filter: String,
    pub exclude_dirs: String,
    pub exclude_files: String,
    pub remove_prefix: String,
    pub remove_regex: String,
    pub hierarchy_only: bool,
    pub dirs_only: bool,
    pub rust_remove_inline_comments: bool,
    pub rust_remove_doc_comments: bool,
    pub rust_function_signatures_only: bool,
    pub rust_signatures_only_filter: String,
}

impl Default for WorkspaceSettings {
    fn default() -> (res: Self)
        ensures
            res.version == 0,
            res.ext_filter@.len() == 0,
            res.exclude_dirs@.len() == 0,
            res.exclude_files@.len() == 0,
            res.remove_prefix@.len() == 0,
            res.remove_regex@.len() == 0,
            !res.hierarchy_only,
            !res.dirs_only,
            !res.rust_remove_inline_comments,
            !res.rust_remove_doc_comments,
            !res.rust_function_signatures_only,
            res.rust_signatures_only_filter@.len() == 0,
    {
        WorkspaceSettings {
            version: 0,
            ext_filter: String::new(),
            exclude_dirs: String::new(),
            exclude_files: String::new(),
            remove_prefix: String::new(),
            remove_regex: String::new(),
            hierarchy_only: false,
            dirs_only: false,
            rust_remove_inline_comments: false,
            rust_remove_doc_comments: false,
            rust_function_signatures_only: false,
            rust_signatures_only_filter: String::new(),
        }
    }
}

/// Per-user settings of a workspace.
#[derive(Debug, Clone)]
pub struct LocalSettings {
    pub current_profile: Option<String>,
}

impl Default for LocalSettings {
    fn default() -> (res: Self)
        ensures
            res.current_profile is None,
    {
        LocalSettings { current_profile: None }
    }
}

/// Where a profile is stored: shared with the project, or per user.
#[derive(Debug, Clone, Copy, PartialEq, Eq, Structural)]
pub enum ProfileScope {
    Shared,
    Local,
}

/// One explicit check state of a profile: a project-relative path with forward slashes
/// (empty for the project root) and its state.
#[derive(Debug, Clone)]
pub struct ProfileSelection {
    pub path: String,
    pub state: bool,
}

/// A named set of settings and explicit selections.
#[derive(Debug, Clone)]
pub struct Profile {
    pub name: String,
    pub settings: WorkspaceSettings,
    pub explicit: Vec<ProfileSelection>,
}

/// A profile's name and scope, as listed.
#[derive(Debug, Clone)]
pub struct ProfileMeta {
    pub name: String,
    pub scope: ProfileScope,
}

/* ------------------------------- locations -------------------------------- */

/// `base` joined with a relative path `rel` (`Path::join`): a `/` is inserted unless
/// `base` is empty or already ends with one.
pub open spec fn join_rel(base: Seq<char>, rel: Seq<char>) -> Seq<char> {
    if base.len() == 0 || base.last() == '/' {
        base + rel
    } else {
        base + seq!['/'] + rel
    }
}

pub(crate) fn join_rel_exec(base: &Vec<char>, rel: &Vec<char>) -> (res: Vec<char>)
    ensures
        res@ == join_rel(base@, rel@),
{
    let mut out = crate::chars::slice_to_vec(base, 0, base.len());
    assert(out@ =~= base@);
    if !(base.len() == 0 || base[base.len() - 1] == '/') {
        out.push('/');
    }
    append_chars(&mut out, rel);
    out
}

pub open spec fn ws_dir_name() -> Seq<char> {
    seq!['.', 's', 't', 'i', 't', 'c', 'h', 'w', 'o', 'r', 'k', 's', 'p', 'a', 'c', 'e']
}

fn ws_dir_name_exec() -> (res: Vec<char>)
    ensures
        res@ == ws_dir_name(),
{
    let v = vec!['.', 's', 't', 'i', 't', 'c', 'h', 'w', 'o', 'r', 'k', 's', 'p', 'a', 'c', 'e'];
    assert(v@ =~= ws_dir_name());
    v
}

/// The name of the workspace folder, `.stitchworkspace`.
pub fn workspace_dir_name() -> (res: String)
    ensures
        res@ == ws_dir_name(),
{
    string_of(ws_dir_name_exec().as_slice())
}

/// The workspace directory of a project: `<root>/.stitchworkspace`.
pub open spec fn workspace_dir_spec(root: Seq<char>) -> Seq<char> {
    join_rel(root, ws_dir_name())
}

/// The workspace directory of a project: `<root>/.stitchworkspace`.
pub fn workspace_dir(project_root: &str) -> (res: String)
    ensures
        res@ == workspace_dir_spec(project_root@),
{
    let r = join_rel_exec(&chars_of(project_root), &ws_dir_name_exec());
    string_of(r.as_slice())
}

fn join_name(base: &str, name: &Vec<char>) -> (res: String)
    ensures
        res@ == join_rel(base@, name@),
{
    let r = join_rel_exec(&chars_of(base), name);
    string_of(r.as_slice())
}

pub open spec fn workspace_json() -> Seq<char> {
    seq!['w', 'o', 'r', 'k', 's', 'p', 'a', 'c', 'e', '.', 'j', 's', 'o', 'n']
}

pub open spec fn local_name() -> Seq<char> {
    seq!['l', 'o', 'c', 'a', 'l']
}

pub open spec fn settings_json() -> Seq<char> {
    seq!['s', 'e', 't', 't', 'i', 'n', 'g', 's', '.', 'j', 's', 'o', 'n']
}

pub open spec fn profiles_name() -> Seq<char> {
    seq!['p', 'r', 'o', 'f', 'i', 'l', 'e', 's']
}

/// The workspace settings file: `<root>/.stitchworkspace/workspace.json`.
pub fn workspace_file(project_root: &str) -> (res: String)
    ensures
        res@ == join_rel(workspace_dir_spec(project_root@), workspace_json()),
{
    let d = workspace_dir(project_root);
    let n = vec!['w', 'o', 'r', 'k', 's', 'p', 'a', 'c', 'e', '.', 'j', 's', 'o', 'n'];
    assert(n@ =~= workspace_json());
    join_name(d.as_str(), &n)
}

/// The per-user settings file: `<root>/.stitchworkspace/local/settings.json`.
pub fn local_settings_file(project_root: &str) -> (res: String)
    ensures
        res@ == join_rel(join_rel(workspace_dir_spec(project_root@), local_name()), settings_json()),
{
    let d = workspace_dir(project_root);
    let l = vec!['l', 'o', 'c', 'a', 'l'];
    assert(l@ =~= local_name());
    let dl = join_name(d.as_str(), &l);
    let s = vec!['s', 'e', 't', 't', 'i', 'n', 'g', 's', '.', 'j', 's', 'o', 'n'];
    assert(s@ =~= settings_json());
    join_name(dl.as_str(), &s)
}

/// The directory of shared profiles: `<root>/.stitchworkspace/profiles`.
pub open spec fn profiles_shared_dir_spec(root: Seq<char>) -> Seq<char> {
    join_rel(workspace_dir_spec(root), profiles_name())
}

/// The directory of per-user profiles: `<root>/.stitchworkspace/local/profiles`.
pub open spec fn profiles_local_dir_spec(root: Seq<char>) -> Seq<char> {
    join_rel(join_rel(workspace_dir_spec(root), local_name()), profiles_name())
}

/// The directory of shared profiles.
pub fn profiles_shared_dir(project_root: &str) -> (res: String)
    ensures
        res@ == profiles_shared_dir_spec(project_root@),
{
    let d = workspace_dir(project_root);
    let p = vec!['p', 'r', 'o', 'f', 'i', 'l', 'e', 's'];
    assert(p@ =~= profiles_name());
    join_name(d.as_str(), &p)
}

/// The directory of per-user profiles.
pub fn profiles_local_dir(project_root: &str) -> (res: String)
    ensures
        res@ == profiles_local_dir_spec(project_root@),
{
    let d = workspace_dir(project_root);
    let l = vec!['l', 'o', 'c', 'a', 'l'];
    assert(l@ =~= local_name());
    let dl = join_name(d.as_str(), &l);
    let p = vec!['p', 'r', 'o', 'f', 'i', 'l', 'e', 's'];
    assert(p@ =~= profiles_name());
    join_name(dl.as_str(), &p)
}

/* ------------------------------ profile names ------------------------------ */

/// Whether a character may stay in a profile file name.
pub open spec fn name_char_ok(c: char) -> bool {
    ('a' <= c && c <= 'z') || ('A' <= c && c <= 'Z') || ('0' <= c && c <= '9') || c == '-' || c
        == '_' || c == ' '
}

pub open spec fn unnamed() -> Seq<char> {
    seq!['u', 'n', 'n', 'a', 'm', 'e', 'd']
}

/// The name under which a stored profile is listed: the name it holds when that is not
/// blank; otherwise its file name without the extension, or `unnamed` when there is none.
pub open spec fn profile_display_name_spec(stored_name: Option<Seq<char>>, file_stem: Option<Seq<char>>) -> Seq<char> {
    match stored_name {
        Some(n) if trim(n).len() > 0 => n,
        _ => match file_stem {
            Some(f) => f,
            None => unnamed(),
        },
    }
}

/// The name under which a stored profile is listed, from the name read from the file
/// (`None` when the file could not be read as a profile) and the file's stem.
pub fn profile_display_name(stored_name: Option<&str>, file_stem: Option<&str>) -> (res: String)
    ensures
        res@ == profile_display_name_spec(
            match stored_name {
                Some(n) => Some(n@),
                None => None,
            },
            match file_stem {
                Some(f) => Some(f@),
                None => None,
            },
        ),
{
    if let Some(n) = stored_name {
        let nc = chars_of(n);
        let t = trim_range(&nc, 0, nc.len());
        assert(nc@.subrange(0, nc@.len() as int) =~= nc@);
        if t.len() > 0 {
            return n.to_owned();
        }
    }
    match file_stem {
        Some(f) => f.to_owned(),
        None => {
            let u = vec!['u', 'n', 'n', 'a', 'm', 'e', 'd'];
            assert(u@ =~= unnamed());
            string_of(u.as_slice())
        },
    }
}

/// The file-name form of a profile name: trimmed (`unnamed` when empty), every character
/// other than ASCII letters, digits, `-`, `_` and space replaced by `_`.
pub open spec fn sanitize_spec(name: Seq<char>) -> Seq<char> {
    let t = trim(name);
    let s = if t.len() == 0 {
        unnamed()
    } else {
        t
    };
    s.map_values(|c: char| if name_char_ok(c) { c } else { '_' })
}

/// The file-name form of a profile name.
pub fn sanitize_profile_name(name: &str) -> (res: String)
    ensures
        res@ == sanitize_spec(name@),
{
    let cs = chars_of(name);
    let t = trim_range(&cs, 0, cs.len());
    assert(cs@.subrange(0, cs@.len() as int) =~= cs@);
    let s = if t.len() == 0 {
        let u = vec!['u', 'n', 'n', 'a', 'm', 'e', 'd'];
        assert(u@ =~= unnamed());
        u
    } else {
        t
    };
    let mut out: Vec<char> = Vec::new();
    let mut i: usize = 0;
    while i < s.len()
        invariant
            i <= s.len(),
            out@ == s@.subrange(0, i as int).map_values(|c: char| if name_char_ok(c) { c } else { '_' }),
        decreases s.len() - i,
    {
        let c = s[i];
        let ok = ('a' <= c && c <= 'z') || ('A' <= c && c <= 'Z') || ('0' <= c && c <= '9') || c == '-' || c == '_' || c == ' ';
        if ok {
            out.push(c);
        } else {
            out.push('_');
        }
        i = i + 1;
        assert(out@ =~= s@.subrange(0, i as int).map_values(|c: char| if name_char_ok(c) { c } else { '_' }));
    }
    assert(s@.subrange(0, s.len() as int) =~= s@);
    string_of(out.as_slice())
}

pub open spec fn json_ext() -> Seq<char> {
    seq!['.', 'j', 's', 'o', 'n']
}

/// The file of a profile: `<profiles dir of scope>/<sanitized name>.json`.
pub open spec fn profile_path_spec(root: Seq<char>, scope: ProfileScope, name: Seq<char>) -> Seq<char> {
    let base = match scope {
        ProfileScope::Shared => profiles_shared_dir_spec(root),
        ProfileScope::Local => profiles_local_dir_spec(root),
    };
    join_rel(base, sanitize_spec(name) + json_ext())
}

/// The file of a profile.
pub fn profile_path(project_root: &str, scope: ProfileScope, name: &str) -> (res: String)
    ensures
        res@ == profile_path_spec(project_root@, scope, name@),
{
    let base = match scope {
        ProfileScope::Shared => profiles_shared_dir(project_root),
        ProfileScope::Local => profiles_local_dir(project_root),
    };
    let mut f = chars_of(sanitize_profile_name(name).as_str());
    let e = vec!['.', 'j', 's', 'o', 'n'];
    assert(e@ =~= json_ext());
    append_chars(&mut f, &e);
    join_name(base.as_str(), &f)
}

/* ---------------------------- profile listings ---------------------------- */

/// Whether a listed entry replaces the one kept so far for the same name: a per-user
/// profile replaces a shared one, and within one scope a newer one replaces an older one.
pub open spec fn replaces(prev: (ProfileScope, u128), new: (ProfileScope, u128)) -> bool {
    (prev.0 == ProfileScope::Shared && new.0 == ProfileScope::Local) || (prev.0 == new.0 && new.1
        > prev.1)
}

/// The scope and timestamp kept for `name` after the entries `raw`, in order.
pub open spec fn kept_entry(raw: Seq<(Seq<char>, ProfileScope, u128)>, name: Seq<char>) -> Option<(ProfileScope, u128)>
    decreases raw.len(),
{
    if raw.len() == 0 {
        None
    } else {
        let prev = kept_entry(raw.drop_last(), name);
        let e = raw.last();
        if e.0 != name {
            prev
        } else {
            match prev {
                None => Some((e.1, e.2)),
                Some(p) => if replaces(p, (e.1, e.2)) {
                    Some((e.1, e.2))
                } else {
                    prev
                },
            }
        }
    }
}

/// Listing order: newer first; equal timestamps by name.
pub open spec fn listed_before(a: (Seq<char>, ProfileScope, u128), b: (Seq<char>, ProfileScope, u128)) -> bool {
    a.2 > b.2 || (a.2 == b.2 && chars_lt(a.0, b.0))
}

/// The views of raw listing entries.
pub open spec fn raw_view(v: Seq<(String, ProfileScope, u128)>) -> Seq<(Seq<char>, ProfileScope, u128)> {
    v.map_values(|e: (String, ProfileScope, u128)| (e.0@, e.1, e.2))
}

fn find_name(v: &Vec<(String, ProfileScope, u128)>, name: &str) -> (res: Option<usize>)
    ensures
        match res {
            Some(i) => i < v@.len() && v@[i as int].0@ == name@,
            None => forall|i: int| 0 <= i < v@.len() ==> v@[i].0@ != name@,
        },
{
    let mut i: usize = 0;
    while i < v.len()
        invariant
            i <= v.len(),
            forall|j: int| 0 <= j < i ==> v@[j].0@ != name@,
        decreases v.len() - i,
    {
        if crate::text::str_eq(v[i].0.as_str(), name) {
            return Some(i);
        }
        i = i + 1;
    }
    None
}

/// Whether some entry of `v` carries the name `n`.
pub open spec fn lists_name(v: Seq<(Seq<char>, ProfileScope, u128)>, n: Seq<char>) -> bool {
    exists|k: int| 0 <= k < v.len() && #[trigger] v[k].0 == n
}

/// Whether some listed profile of `v` carries the name `n`.
pub open spec fn lists_meta(v: Seq<(Seq<char>, ProfileScope)>, n: Seq<char>) -> bool {
    exists|k: int| 0 <= k < v.len() && #[trigger] v[k].0 == n
}

/// The names and scopes of listed profiles.
pub open spec fn metas_view(v: Seq<ProfileMeta>) -> Seq<(Seq<char>, ProfileScope)> {
    v.map_values(|m: ProfileMeta| (m.name@, m.scope))
}

/// The names and scopes of listing entries.
pub open spec fn name_scope(v: Seq<(Seq<char>, ProfileScope, u128)>) -> Seq<(Seq<char>, ProfileScope)> {
    v.map_values(|e: (Seq<char>, ProfileScope, u128)| (e.0, e.1))
}

/// What a merged listing `m` is of the raw entries `rv`: one entry per name found in
/// `rv` and no other, each with the scope kept for that name, newest first and equal
/// timestamps by name.
pub open spec fn merged_listing(rv: Seq<(Seq<char>, ProfileScope, u128)>, m: Seq<(Seq<char>, ProfileScope)>) -> bool {
    &&& forall|i: int, j: int| 0 <= i < j < m.len() ==> #[trigger] m[i].0 != #[trigger] m[j].0
    &&& forall|i: int| 0 <= i < m.len() ==> lists_name(rv, #[trigger] m[i].0)
    &&& forall|k: int| 0 <= k < rv.len() ==> lists_meta(m, #[trigger] rv[k].0)
    &&& forall|i: int| 0 <= i < m.len() ==> (kept_entry(rv, #[trigger] m[i].0) matches Some(e) && e.0 == m[i].1)
    &&& forall|i: int, j: int| 0 <= i < j < m.len() ==> ({
            let ei = kept_entry(rv, #[trigger] m[i].0).unwrap();
            let ej = kept_entry(rv, #[trigger] m[j].0).unwrap();
            listed_before((m[i].0, ei.0, ei.1), (m[j].0, ej.0, ej.1))
        })
}

/// Merges the profiles found in both scopes into one listing: one entry per name (a
/// per-user profile over a shared one; within a scope the newest), newest first, equal
/// timestamps by name.
pub fn merge_profile_listing(raw: &Vec<(String, ProfileScope, u128)>) -> (res: Vec<ProfileMeta>)
    ensures
        merged_listing(raw_view(raw@), metas_view(res@)),
{
    let acc = dedupe_listing(raw);
    let ghost av = raw_view(acc@);
    assert forall|a: int, b: int| 0 <= a < b < acc@.len() implies acc@[a].0@ != acc@[b].0@ by {
        assert(raw_view(acc@)[a] == (acc@[a].0@, acc@[a].1, acc@[a].2));
        assert(raw_view(acc@)[b] == (acc@[b].0@, acc@[b].1, acc@[b].2));
        assert(raw_view(acc@)[a].0 != raw_view(acc@)[b].0);
    }
    let sorted = sort_listing(acc);
    let res = metas_of(&sorted);
    proof {
        lemma_merged(raw_view(raw@), av, raw_view(sorted@), metas_view(res@));
    }
    res
}

/// The names and scopes of `sorted`, in order.
fn metas_of(sorted: &Vec<(String, ProfileScope, u128)>) -> (res: Vec<ProfileMeta>)
    ensures
        metas_view(res@) == name_scope(raw_view(sorted@)),
{
    let ghost target = name_scope(raw_view(sorted@));
    let mut res: Vec<ProfileMeta> = Vec::new();
    let mut j: usize = 0;
    while j < sorted.len()
        invariant
            j <= sorted.len(),
            target == name_scope(raw_view(sorted@)),
            metas_view(res@) == target.take(j as int),
        decreases sorted.len() - j,
    {
        let ghost m0 = metas_view(res@);
        res.push(ProfileMeta { name: sorted[j].0.clone(), scope: sorted[j].1 });
        assert(metas_view(res@) =~= m0.push((sorted@[j as int].0@, sorted@[j as int].1)));
        assert(target.take(j + 1) =~= target.take(j as int).push(target[j as int]));
        j = j + 1;
    }
    assert(target.take(j as int) =~= target);
    res
}

/// The merged listing built from a deduplicated listing `av` and its sorted form `sv`.
proof fn lemma_merged(
    rv: Seq<(Seq<char>, ProfileScope, u128)>,
    av: Seq<(Seq<char>, ProfileScope, u128)>,
    sv: Seq<(Seq<char>, ProfileScope, u128)>,
    m: Seq<(Seq<char>, ProfileScope)>,
)
    requires
        forall|a: int| 0 <= a < av.len() ==> lists_name(rv, #[trigger] av[a].0),
        forall|k: int| 0 <= k < rv.len() ==> lists_name(av, #[trigger] rv[k].0),
        forall|a: int| 0 <= a < av.len() ==> kept_entry(rv, #[trigger] av[a].0) == Some((av[a].1, av[a].2)),
        sv.to_multiset() == av.to_multiset(),
        forall|a: int, b: int| 0 <= a < b < sv.len() ==> listed_before(#[trigger] sv[a], #[trigger] sv[b]),
        forall|a: int, b: int| 0 <= a < b < sv.len() ==> #[trigger] sv[a].0 != #[trigger] sv[b].0,
        m == name_scope(sv),
    ensures
        merged_listing(rv, m),
{
    assert forall|a: int| 0 <= a < sv.len() implies kept_entry(rv, #[trigger] sv[a].0) == Some((sv[a].1, sv[a].2))
        && lists_name(rv, sv[a].0) by {
        lemma_in_other(sv, av, a);
        let b = choose|b: int| 0 <= b < av.len() && #[trigger] av[b] == sv[a];
        assert(av[b].0 == sv[a].0);
    }
    assert forall|i: int| 0 <= i < m.len() implies #[trigger] m[i] == (sv[i].0, sv[i].1) by {}
    assert forall|i: int, j: int| 0 <= i < j < m.len() implies #[trigger] m[i].0 != #[trigger] m[j].0 by {
        assert(m[i] == (sv[i].0, sv[i].1));
        assert(m[j] == (sv[j].0, sv[j].1));
    }
    assert forall|i: int| 0 <= i < m.len() implies lists_name(rv, #[trigger] m[i].0) by {
        assert(m[i] == (sv[i].0, sv[i].1));
    }
    assert forall|k: int| 0 <= k < rv.len() implies lists_meta(m, #[trigger] rv[k].0) by {
        assert(lists_name(av, rv[k].0));
        let b = choose|b: int| 0 <= b < av.len() && #[trigger] av[b].0 == rv[k].0;
        lemma_in_other(av, sv, b);
        let a = choose|a: int| 0 <= a < sv.len() && #[trigger] sv[a] == av[b];
        assert(m[a] == (sv[a].0, sv[a].1));
        assert(m[a].0 == rv[k].0);
    }
    assert forall|i: int| 0 <= i < m.len() implies (kept_entry(rv, #[trigger] m[i].0) matches Some(e) && e.0 == m[i].1) by {
        assert(m[i] == (sv[i].0, sv[i].1));
        assert(kept_entry(rv, sv[i].0) == Some((sv[i].1, sv[i].2)));
    }
    assert forall|i: int, j: int| 0 <= i < j < m.len() implies ({
        let ei = kept_entry(rv, #[trigger] m[i].0).unwrap();
        let ej = kept_entry(rv, #[trigger] m[j].0).unwrap();
        listed_before((m[i].0, ei.0, ei.1), (m[j].0, ej.0, ej.1))
    }) by {
        assert(m[i] == (sv[i].0, sv[i].1));
        assert(m[j] == (sv[j].0, sv[j].1));
        assert(kept_entry(rv, sv[i].0) == Some((sv[i].1, sv[i].2)));
        assert(kept_entry(rv, sv[j].0) == Some((sv[j].1, sv[j].2)));
        assert(listed_before(sv[i], sv[j]));
    }
}

proof fn lemma_in_other(x: Seq<(Seq<char>, ProfileScope, u128)>, y: Seq<(Seq<char>, ProfileScope, u128)>, a: int)
    requires
        x.to_multiset() == y.to_multiset(),
        0 <= a < x.len(),
    ensures
        exists|b: int| 0 <= b < y.len() && #[trigger] y[b] == x[a],
{
    vstd::seq_lib::to_multiset_contains(x, x[a]);
    assert(x.contains(x[a]));
    vstd::seq_lib::to_multiset_contains(y, x[a]);
}

/// One entry per name, with the scope and timestamp kept for it, in order of first sight.
fn dedupe_listing(raw: &Vec<(String, ProfileScope, u128)>) -> (acc: Vec<(String, ProfileScope, u128)>)
    ensures
        forall|a: int, b: int| 0 <= a < b < acc@.len() ==> #[trigger] raw_view(acc@)[a].0 != #[trigger] raw_view(acc@)[b].0,
        forall|a: int| 0 <= a < acc@.len() ==> lists_name(raw_view(raw@), #[trigger] raw_view(acc@)[a].0),
        forall|k: int| 0 <= k < raw@.len() ==> lists_name(raw_view(acc@), #[trigger] raw_view(raw@)[k].0),
        forall|a: int| 0 <= a < acc@.len() ==> kept_entry(raw_view(raw@), #[trigger] raw_view(acc@)[a].0)
            == Some((raw_view(acc@)[a].1, raw_view(acc@)[a].2)),
{
    let ghost rv = raw_view(raw@);
    let mut acc: Vec<(String, ProfileScope, u128)> = Vec::new();
    let mut i: usize = 0;
    while i < raw.len()
        invariant
            i <= raw.len(),
            rv == raw_view(raw@),
            forall|a: int, b: int| 0 <= a < b < acc@.len() ==> #[trigger] raw_view(acc@)[a].0 != #[trigger] raw_view(acc@)[b].0,
            forall|a: int| 0 <= a < acc@.len() ==> lists_name(rv.subrange(0, i as int), #[trigger] raw_view(acc@)[a].0),
            forall|k: int| 0 <= k < i ==> lists_name(raw_view(acc@), #[trigger] rv[k].0),
            forall|a: int| 0 <= a < acc@.len() ==> kept_entry(rv.subrange(0, i as int), #[trigger] raw_view(acc@)[a].0)
                == Some((raw_view(acc@)[a].1, raw_view(acc@)[a].2)),
        decreases raw.len() - i,
    {
        let ghost av0 = raw_view(acc@);
        let ghost pre = rv.subrange(0, i as int);
        let ghost post = rv.subrange(0, i + 1);
        proof {
            assert(post.drop_last() =~= pre);
            assert(post.last() == rv[i as int]);
            assert(rv[i as int] == (raw@[i as int].0@, raw@[i as int].1, raw@[i as int].2));
        }
        let e = &raw[i];
        let ghost mut hit: int = 0;
        match find_name(&acc, e.0.as_str()) {
            None => {
                proof {
                    assert forall|k: int| 0 <= k < pre.len() implies pre[k].0 != e.0@ by {
                        assert(pre[k] == rv[k]);
                        if rv[k].0 == e.0@ {
                            let a = choose|a: int| 0 <= a < av0.len() && #[trigger] av0[a].0 == rv[k].0;
                            assert(av0[a] == (acc@[a].0@, acc@[a].1, acc@[a].2));
                        }
                    }
                    lemma_kept_entry_none(pre, e.0@);
                    hit = av0.len() as int;
                }
                acc.push((e.0.clone(), e.1, e.2));
                proof {
                    assert(raw_view(acc@) =~= av0.push(rv[i as int]));
                }
            },
            Some(k) => {
                proof {
                    hit = k as int;
                    assert(av0[k as int] == (acc@[k as int].0@, acc@[k as int].1, acc@[k as int].2));
                }
                let prev_e = (acc[k].1, acc[k].2);
                let rep = (prev_e.0 == ProfileScope::Shared && e.1 == ProfileScope::Local) || (prev_e.0 == e.1
                    && e.2 > prev_e.1);
                if rep {
                    let nm = acc[k].0.clone();
                    acc.set(k, (nm, e.1, e.2));
                    proof {
                        assert(raw_view(acc@) =~= av0.update(k as int, (av0[k as int].0, e.1, e.2)));
                    }
                } else {
                    assert(raw_view(acc@) =~= av0);
                }
            },
        }
        let ghost av = raw_view(acc@);
        proof {
            assert(0 <= hit < av.len() && av[hit].0 == rv[i as int].0);
            assert(forall|a: int| 0 <= a < av0.len() ==> #[trigger] av[a].0 == av0[a].0);
            assert(forall|a: int| 0 <= a < av.len() && a != hit ==> av[a] == av0[a]);
            assert forall|a: int| 0 <= a < av.len() implies lists_name(post, #[trigger] av[a].0) by {
                if a != hit {
                    let k0 = choose|k0: int| 0 <= k0 < pre.len() && #[trigger] pre[k0].0 == av0[a].0;
                    assert(post[k0] == pre[k0]);
                } else {
                    assert(post[i as int] == rv[i as int]);
                }
            }
            assert forall|k: int| 0 <= k < i + 1 implies lists_name(av, #[trigger] rv[k].0) by {
                if k < i {
                    let a = choose|a: int| 0 <= a < av0.len() && #[trigger] av0[a].0 == rv[k].0;
                    assert(av[a].0 == av0[a].0);
                } else {
                    assert(av[hit].0 == rv[k].0);
                }
            }
            assert forall|a: int| 0 <= a < av.len() implies kept_entry(post, #[trigger] av[a].0) == Some((av[a].1, av[a].2)) by {
                if a != hit {
                    assert(av[a] == av0[a]);
                    assert(av[a].0 != av[hit].0);
                }
            }
        }
        i = i + 1;
    }
    assert(rv.subrange(0, raw.len() as int) =~= rv);
    acc
}

proof fn lemma_kept_entry_none(raw: Seq<(Seq<char>, ProfileScope, u128)>, name: Seq<char>)
    ensures
        (forall|k: int| 0 <= k < raw.len() ==> raw[k].0 != name) ==> kept_entry(raw, name) is None,
    decreases raw.len(),
{
    if raw.len() > 0 {
        lemma_kept_entry_none(raw.drop_last(), name);
        if forall|k: int| 0 <= k < raw.len() ==> raw[k].0 != name {
            assert(forall|k: int| 0 <= k < raw.drop_last().len() ==> raw.drop_last()[k].0 != name) by {
                assert forall|k: int| 0 <= k < raw.drop_last().len() implies raw.drop_last()[k].0 != name by {
                    assert(raw.drop_last()[k] == raw[k]);
                }
            }
        }
    }
}

/// Whether entry `a` is listed before entry `b`.
fn before_exec(a: &(String, ProfileScope, u128), b: &(String, ProfileScope, u128)) -> (r: bool)
    ensures
        r == listed_before((a.0@, a.1, a.2), (b.0@, b.1, b.2)),
{
    if a.2 != b.2 {
        a.2 > b.2
    } else {
        compare_chars(&chars_of(a.0.as_str()), &chars_of(b.0.as_str())) == -1
    }
}

proof fn lemma_distinct_names_in_prefix(all: Seq<(String, ProfileScope, u128)>, i: int, rv: Seq<(Seq<char>, ProfileScope, u128)>, a: int)
    requires
        0 <= i < all.len(),
        forall|x: int, y: int| 0 <= x < y < all.len() ==> all[x].0@ != all[y].0@,
        rv.to_multiset() == raw_view(all.subrange(0, i)).to_multiset(),
        0 <= a < rv.len(),
    ensures
        rv[a].0 != all[i].0@,
{
    vstd::seq_lib::to_multiset_contains(rv, rv[a]);
    assert(rv.contains(rv[a]));
    vstd::seq_lib::to_multiset_contains(raw_view(all.subrange(0, i)), rv[a]);
    let b = choose|b: int| 0 <= b < raw_view(all.subrange(0, i)).len() && raw_view(all.subrange(0, i))[b] == rv[a];
    assert(raw_view(all.subrange(0, i))[b] == (all[b].0@, all[b].1, all[b].2));
}

/// Sorts listing entries with distinct names into listing order.
fn sort_listing(v: Vec<(String, ProfileScope, u128)>) -> (res: Vec<(String, ProfileScope, u128)>)
    requires
        forall|a: int, b: int| 0 <= a < b < v@.len() ==> v@[a].0@ != v@[b].0@,
    ensures
        raw_view(res@).to_multiset() == raw_view(v@).to_multiset(),
        res@.len() == v@.len(),
        forall|a: int, b: int| 0 <= a < b < res@.len() ==> listed_before(#[trigger] raw_view(res@)[a], #[trigger] raw_view(res@)[b]),
        forall|a: int, b: int| 0 <= a < b < res@.len() ==> #[trigger] raw_view(res@)[a].0 != #[trigger] raw_view(res@)[b].0,
{
    let mut res: Vec<(String, ProfileScope, u128)> = Vec::new();
    let mut i: usize = 0;
    let ghost all = v@;
    assert(raw_view(res@) =~= raw_view(all.subrange(0, 0)));
    while i < v.len()
        invariant
            i <= v.len(),
            all == v@,
            forall|a: int, b: int| 0 <= a < b < all.len() ==> all[a].0@ != all[b].0@,
            res@.len() == i,
            raw_view(res@).to_multiset() == raw_view(all.subrange(0, i as int)).to_multiset(),
            forall|a: int, b: int| 0 <= a < b < res@.len() ==> listed_before(#[trigger] raw_view(res@)[a], #[trigger] raw_view(res@)[b]),
            forall|a: int, b: int| 0 <= a < b < res@.len() ==> #[trigger] raw_view(res@)[a].0 != #[trigger] raw_view(res@)[b].0,
        decreases v.len() - i,
    {
        let x = &v[i];
        let ghost rv = raw_view(res@);
        let ghost r0 = res@;
        let ghost xv = (x.0@, x.1, x.2);
        let mut k: usize = res.len();
        while k > 0 && before_exec(x, &res[k - 1])
            invariant
                k <= res.len(),
                rv == raw_view(res@),
                xv == (x.0@, x.1, x.2),
                forall|j: int| k <= j < rv.len() ==> listed_before(xv, #[trigger] rv[j]),
            decreases k,
        {
            assert(rv[k - 1] == (res@[k - 1].0@, res@[k - 1].1, res@[k - 1].2));
            k = k - 1;
        }
        proof {
            if k > 0 {
                assert(rv[k - 1] == (res@[k - 1].0@, res@[k - 1].1, res@[k - 1].2));
                assert(!listed_before(xv, rv[k - 1]));
                crate::chars::lemma_chars_lt_total(xv.0, rv[k - 1].0);
                if xv.0 == rv[k - 1].0 {
                    lemma_distinct_names_in_prefix(all, i as int, rv, k - 1);
                }
            }
        }
        let xc = (x.0.clone(), x.1, x.2);
        res.insert(k, xc);
        let ghost nv = raw_view(res@);
        assert(nv =~= rv.insert(k as int, xv));
        assert forall|a: int, b: int| 0 <= a < b < nv.len() implies listed_before(#[trigger] nv[a], #[trigger] nv[b]) by {
            if a < k && b == k {
                assert(nv[a] == rv[a]);
                if a < k - 1 {
                    assert(listed_before(rv[a], rv[k - 1]));
                    if rv[a].2 == rv[k - 1].2 && rv[k - 1].2 == xv.2 {
                        crate::chars::lemma_chars_lt_trans(rv[a].0, rv[k - 1].0, xv.0);
                    }
                }
            } else if a < k && b > k {
                assert(nv[a] == rv[a]);
                assert(nv[b] == rv[b - 1]);
            } else if a == k {
                assert(nv[b] == rv[b - 1]);
            } else if a > k {
                assert(nv[a] == rv[a - 1]);
                assert(nv[b] == rv[b - 1]);
            } else {
                assert(nv[a] == rv[a]);
                assert(nv[b] == rv[b]);
            }
        }
        assert forall|a: int, b: int| 0 <= a < b < nv.len() implies #[trigger] nv[a].0 != #[trigger] nv[b].0 by {
            if a == k {
                lemma_distinct_names_in_prefix(all, i as int, rv, b - 1);
                assert(nv[b] == rv[b - 1]);
            } else if b == k {
                lemma_distinct_names_in_prefix(all, i as int, rv, a);
                assert(nv[a] == rv[a]);
            } else {
                let a0 = if a < k { a } else { a - 1 };
                let b0 = if b < k { b } else { b - 1 };
                assert(nv[a] == rv[a0]);
                assert(nv[b] == rv[b0]);
            }
        }
        proof {
            vstd::seq_lib::to_multiset_insert(rv, k as int, xv);
            assert(raw_view(all.subrange(0, i + 1)) =~= raw_view(all.subrange(0, i as int)).push(xv));
            vstd::seq_lib::to_multiset_build(raw_view(all.subrange(0, i as int)), xv);
        }
        i = i + 1;
    }
    assert(all.subrange(0, v.len() as int) =~= all);
    res
}

/* --------------------------- .gitignore exclusion --------------------------- */

pub open spec fn local_rule() -> Seq<char> {
    seq!['.', 's', 't', 'i', 't', 'c', 'h', 'w', 'o', 'r', 'k', 's', 'p', 'a', 'c', 'e', '/', 'l', 'o', 'c', 'a', 'l']
}

pub open spec fn marker_comment() -> Seq<char> {
    seq!['#', ' ', 'S', 't', 'i', 't', 'c', 'h', ' ', 'w', 'o', 'r', 'k', 's', 'p', 'a', 'c', 'e', ' ', '(', 'p', 'e', 'r', '-', 'u', 's', 'e', 'r', ')']
}

/// `s` without its trailing `/` characters.
pub open spec fn trim_end_slashes(s: Seq<char>) -> Seq<char>
    decreases s.len(),
{
    if s.len() > 0 && s.last() == '/' {
        trim_end_slashes(s.drop_last())
    } else {
        s
    }
}

/// Whether a `.gitignore` line already ignores the per-user workspace folder: not blank,
/// not a comment, and ending (after trailing `/`s) with `.stitchworkspace/local`.
pub open spec fn ignores_local(line: Seq<char>) -> bool {
    let s = trim(line);
    let n = trim_end_slashes(s);
    !(s.len() == 0 || s[0] == '#') && n.len() >= local_rule().len() && n.subrange(n.len() - local_rule().len(), n.len() as int) == local_rule()
}


/// The `.gitignore` text with the per-user workspace folder added, or `None` when some line
/// already ignores it. The added block is an empty line, a comment and the rule, using the
/// file's line ending (`\r\n` when it has one); a missing final newline is added first.
pub open spec fn gitignore_update_spec(contents: Seq<char>) -> Option<Seq<char>> {
    let ls = lines_spec(contents);
    if exists|i: int| 0 <= i < ls.len() && ignores_local(#[trigger] ls[i]) {
        None
    } else {
        let eol: Seq<char> = if has_crlf(contents) {
            seq!['\r', '\n']
        } else {
            seq!['\n']
        };
        let base = if contents.len() > 0 && contents.last() != '\n' {
            contents.push('\n')
        } else {
            contents
        };
        Some(base + eol + marker_comment() + eol + local_rule() + seq!['/'] + eol)
    }
}

fn ignores_local_exec(line: &Vec<char>) -> (b: bool)
    ensures
        b == ignores_local(line@),
{
    let s = trim_range(line, 0, line.len());
    assert(line@.subrange(0, line@.len() as int) =~= line@);
    if s.len() == 0 || s[0] == '#' {
        return false;
    }
    let mut e = s.len();
    assert(s@.subrange(0, e as int) =~= s@);
    while e > 0 && s[e - 1] == '/'
        invariant
            e <= s.len(),
            trim_end_slashes(s@) == trim_end_slashes(s@.subrange(0, e as int)),
        decreases e,
    {
        assert(s@.subrange(0, e as int).drop_last() =~= s@.subrange(0, e - 1));
        e = e - 1;
    }
    proof {
        assert(s@.subrange(0, s.len() as int) =~= s@);
        let t = s@.subrange(0, e as int);
        if t.len() > 0 {
            assert(t.last() == s@[e - 1]);
        }
    }
    let rule = vec!['.', 's', 't', 'i', 't', 'c', 'h', 'w', 'o', 'r', 'k', 's', 'p', 'a', 'c', 'e', '/', 'l', 'o', 'c', 'a', 'l'];
    assert(rule@ =~= local_rule());
    if e < rule.len() {
        return false;
    }
    let n = crate::chars::slice_to_vec(&s, 0, e);
    let r = crate::chars::matches_at(&n, e - rule.len(), &rule);
    assert(r == (n@.subrange(n@.len() - local_rule().len(), n@.len() as int) == local_rule()));
    r
}

/// The `.gitignore` text with the per-user workspace folder added (see
/// `gitignore_update_spec`), or `None` when it is already ignored.
pub fn gitignore_with_local_exclusion(contents: &str) -> (res: Option<String>)
    ensures
        match res {
            None => gitignore_update_spec(contents@) is None,
            Some(s) => gitignore_update_spec(contents@) == Some(s@),
        },
{
    let cs = chars_of(contents);
    let lines = lines_of(&cs);
    let ghost ls = lines_spec(contents@);
    let mut i: usize = 0;
    while i < lines.len()
        invariant
            i <= lines.len(),
            lines@.map_values(|v: Vec<char>| v@) == ls,
            ls == lines_spec(contents@),
            forall|j: int| 0 <= j < i ==> !ignores_local(#[trigger] ls[j]),
        decreases lines.len() - i,
    {
        assert(lines@[i as int]@ == ls[i as int]) by {
            assert(lines@.map_values(|v: Vec<char>| v@)[i as int] == lines@[i as int]@);
        }
        if ignores_local_exec(&lines[i]) {
            assert(ignores_local(ls[i as int]));
            return None;
        }
        i = i + 1;
    }
    let mut crlf = false;
    let mut k: usize = 0;
    while k < cs.len() && cs.len() - k > 1
        invariant
            k <= cs.len(),
            cs@ == contents@,
            crlf == (exists|j: int| #![trigger cs@[j]] 0 <= j < k && j < cs@.len() - 1 && cs@[j] == '\r' && cs@[j + 1] == '\n'),
        decreases cs.len() - k,
    {
        if cs[k] == '\r' && cs[k + 1] == '\n' {
            crlf = true;
        }
        k = k + 1;
    }
    let eol: Vec<char> = if crlf {
        vec!['\r', '\n']
    } else {
        vec!['\n']
    };
    let mut out = crate::chars::slice_to_vec(&cs, 0, cs.len());
    assert(out@ =~= cs@);
    if cs.len() > 0 && cs[cs.len() - 1] != '\n' {
        out.push('\n');
    }
    let marker = vec!['#', ' ', 'S', 't', 'i', 't', 'c', 'h', ' ', 'w', 'o', 'r', 'k', 's', 'p', 'a', 'c', 'e', ' ', '(', 'p', 'e', 'r', '-', 'u', 's', 'e', 'r', ')'];
    assert(marker@ =~= marker_comment());
    let rule = vec!['.', 's', 't', 'i', 't', 'c', 'h', 'w', 'o', 'r', 'k', 's', 'p', 'a', 'c', 'e', '/', 'l', 'o', 'c', 'a', 'l', '/'];
    assert(rule@ =~= local_rule() + seq!['/']);
    let ghost base = out@;
    append_chars(&mut out, &eol);
    append_chars(&mut out, &marker);
    append_chars(&mut out, &eol);
    append_chars(&mut out, &rule);
    append_chars(&mut out, &eol);
    proof {
        let e2: Seq<char> = if has_crlf(contents@) {
            seq!['\r', '\n']
        } else {
            seq!['\n']
        };
        assert(crlf == has_crlf(contents@));
        assert(eol@ =~= e2);
        assert(out@ =~= base + e2 + marker_comment() + e2 + local_rule() + seq!['/'] + e2);
    }
    Some(string_of(out.as_slice()))
}

/* ------------------------------ stale profile ------------------------------ */

/// Clears the current profile of the per-user settings when that profile no longer loads;
/// says whether it cleared one. `current_profile_loads` tells whether the profile named
/// by `settings.current_profile` can be loaded.
pub fn clear_stale_current_profile(settings: &mut LocalSettings, current_profile_loads: bool) -> (cleared: bool)
    ensures
        cleared == (old(settings).current_profile is Some && !current_profile_loads),
        cleared ==> final(settings).current_profile is None,
        !cleared ==> final(settings).current_profile == old(settings).current_profile,
{
    if settings.current_profile.is_none() {
        return false;
    }
    if current_profile_loads {
        return false;
    }
    settings.current_profile = None;
    true
}

/* ------------------------------ comparisons ------------------------------ */

/// Whether two workspace settings are equal in every field.
pub open spec fn settings_equal_spec(a: &WorkspaceSettings, b: &WorkspaceSettings) -> bool {
    a.version == b.version && a.ext_filter@ == b.ext_filter@ && a.exclude_dirs@ == b.exclude_dirs@
        && a.exclude_files@ == b.exclude_files@ && a.remove_prefix@ == b.remove_prefix@
        && a.remove_regex@ == b.remove_regex@ && a.hierarchy_only == b.hierarchy_only
        && a.dirs_only == b.dirs_only && a.rust_remove_inline_comments
        == b.rust_remove_inline_comments && a.rust_remove_doc_comments
        == b.rust_remove_doc_comments && a.rust_function_signatures_only
        == b.rust_function_signatures_only && a.rust_signatures_only_filter@
        == b.rust_signatures_only_filter@
}

/// Whether two workspace settings are equal in every field.
pub fn workspace_settings_equal(a: &WorkspaceSettings, b: &WorkspaceSettings) -> (r: bool)
    ensures
        r == settings_equal_spec(a, b),
{
    a.version == b.version && a.ext_filter == b.ext_filter && a.exclude_dirs == b.exclude_dirs
        && a.exclude_files == b.exclude_files && a.remove_prefix == b.remove_prefix
        && a.remove_regex == b.remove_regex && a.hierarchy_only == b.hierarchy_only
        && a.dirs_only == b.dirs_only && a.rust_remove_inline_comments
        == b.rust_remove_inline_comments && a.rust_remove_doc_comments
        == b.rust_remove_doc_comments && a.rust_function_signatures_only
        == b.rust_function_signatures_only && a.rust_signatures_only_filter
        == b.rust_signatures_only_filter
}

/// A profile's explicit selections as (path, state) pairs.
pub open spec fn selections_view(v: Seq<ProfileSelection>) -> Seq<(Seq<char>, bool)> {
    v.map_values(|e: ProfileSelection| (e.path@, e.state))
}

/// Whether two profiles are equal: the same name, equal settings, and the same explicit
/// selections in any order.
pub open spec fn profiles_equal_spec(a: &Profile, b: &Profile) -> bool {
    &&& a.name@ == b.name@
    &&& settings_equal_spec(&a.settings, &b.settings)
    &&& selections_view(a.explicit@).to_multiset() == selections_view(b.explicit@).to_multiset()
}

/// Whether two lists of selections hold the same pairs, each as often, in any order.
fn same_selections(a: &Vec<ProfileSelection>, b: &Vec<ProfileSelection>) -> (r: bool)
    ensures
        r == (selections_view(a@).to_multiset() == selections_view(b@).to_multiset()),
{
    broadcast use vstd::seq_lib::group_to_multiset_ensures, vstd::multiset::group_multiset_axioms;

    let ghost av = selections_view(a@);
    let ghost bv = selections_view(b@);
    if a.len() != b.len() {
        assert(av.to_multiset().len() != bv.to_multiset().len());
        return false;
    }
    let mut rest: Vec<usize> = Vec::new();
    let mut k: usize = 0;
    while k < b.len()
        invariant
            k <= b.len(),
            rest@.len() == k,
            forall|t: int| 0 <= t < k ==> rest@[t] == t,
        decreases b.len() - k,
    {
        rest.push(k);
        k = k + 1;
    }
    assert(rest@.map_values(|t: usize| bv[t as int]) =~= bv);
    let mut i: usize = 0;
    while i < a.len()
        invariant
            i <= a.len() == b.len(),
            av == selections_view(a@),
            bv == selections_view(b@),
            rest@.len() + i == b.len(),
            forall|t: int| 0 <= t < rest@.len() ==> rest@[t] < b.len(),
            rest@.map_values(|t: usize| bv[t as int]).to_multiset().add(
                av.subrange(0, i as int).to_multiset(),
            ) == bv.to_multiset(),
        decreases a.len() - i,
    {
        let ghost rv = rest@.map_values(|t: usize| bv[t as int]);
        let ghost x = av[i as int];
        let mut j: usize = 0;
        let mut found = false;
        while j < rest.len()
            invariant_except_break
                !found,
                forall|t: int| 0 <= t < j ==> rv[t] != x,
            invariant
                j <= rest@.len(),
                i < a.len() == b.len(),
                rv == rest@.map_values(|t: usize| bv[t as int]),
                x == av[i as int],
                av == selections_view(a@),
                bv == selections_view(b@),
                forall|t: int| 0 <= t < rest@.len() ==> rest@[t] < b.len(),
            ensures
                found ==> j < rest@.len() && rv[j as int] == x,
                !found ==> forall|t: int| 0 <= t < rest@.len() ==> rv[t] != x,
            decreases rest@.len() - j,
        {
            let e = &b[rest[j]];
            if e.state == a[i].state && crate::text::str_eq(e.path.as_str(), a[i].path.as_str()) {
                assert(rv[j as int] == x);
                found = true;
                break;
            }
            assert(rv[j as int] != x);
            j = j + 1;
        }
        if !found {
            proof {
                assert(!rv.contains(x));
                rv.to_multiset_ensures();
                av.to_multiset_ensures();
                assert(rv.to_multiset().count(x) == 0);
                let pre = av.subrange(0, i as int);
                let post = av.subrange(i as int, av.len() as int);
                assert(av =~= pre + post);
                vstd::seq_lib::lemma_multiset_commutative(pre, post);
                assert(post[0] == x);
                assert(post.contains(x));
                post.to_multiset_ensures();
                assert(av.to_multiset().count(x) > bv.to_multiset().count(x));
            }
            return false;
        }
        proof {
            let pre = av.subrange(0, i as int);
            assert(av.subrange(0, i + 1) =~= pre.push(x));
            assert(rest@.remove(j as int).map_values(|t: usize| bv[t as int]) =~= rv.remove(j as int));
            rv.to_multiset_ensures();
            assert(rv[j as int] == x);
            assert(rv.contains(x));
            assert(rv.remove(j as int).to_multiset() =~= rv.to_multiset().remove(x));
            assert(rv.to_multiset().count(x) > 0);
            pre.to_multiset_ensures();
            assert(pre.push(x).to_multiset() =~= pre.to_multiset().insert(x));
            let lhs = rv.remove(j as int).to_multiset().add(pre.push(x).to_multiset());
            let rhs = rv.to_multiset().add(pre.to_multiset());
            assert forall|y: (Seq<char>, bool)| lhs.count(y) == rhs.count(y) by {
                if y == x {
                    assert(lhs.count(y) == (rv.to_multiset().count(x) - 1) + (pre.to_multiset().count(x) + 1));
                }
            }
            assert(lhs =~= rhs);
        }
        rest.remove(j);
        i = i + 1;
    }
    proof {
        assert(rest@.map_values(|t: usize| bv[t as int]) =~= Seq::<(Seq<char>, bool)>::empty());
        assert(av.subrange(0, i as int) =~= av);
        assert(av.to_multiset() =~= bv.to_multiset());
    }
    true
}

/// Whether two profiles are equal: the same name, equal settings, and the same explicit
/// selections regardless of their order.
pub fn profiles_equal(a: &Profile, b: &Profile) -> (r: bool)
    ensures
        r == profiles_equal_spec(a, b),
{
    if !crate::text::str_eq(a.name.as_str(), b.name.as_str()) {
        return false;
    }
    if !workspace_settings_equal(&a.settings, &b.settings) {
        return false;
    }
    same_selections(&a.explicit, &b.explicit)
}

/// The rule line that the update appends ignores the per-user folder.
proof fn lemma_rule_line_ignores_local()
    ensures
        ignores_local(local_rule() + seq!['/']),
{
    let r = local_rule() + seq!['/'];
    assert(r.len() == 23);
    crate::chars::lemma_trim_end_of_range(r, 0, 23, 23);
    assert(r.subrange(0, 23) =~= r);
    crate::chars::lemma_trim_start_of_range(r, 0, 0, 23);
    assert(trim(r) == r);
    assert(r.drop_last() =~= local_rule());
    assert(trim_end_slashes(local_rule()) == local_rule());
    assert(trim_end_slashes(r) == local_rule());
    assert(local_rule().subrange(0, 22) =~= local_rule());
}

/// Updating `.gitignore` is idempotent: once the per-user folder was added, a second update
/// finds it ignored and adds nothing.
pub proof fn lemma_gitignore_update_idempotent(contents: Seq<char>)
    requires
        gitignore_update_spec(contents) is Some,
    ensures
        gitignore_update_spec(gitignore_update_spec(contents).unwrap()) is None,
{
    let new = gitignore_update_spec(contents).unwrap();
    let eol: Seq<char> = if has_crlf(contents) { seq!['\r', '\n'] } else { seq!['\n'] };
    let base = if contents.len() > 0 && contents.last() != '\n' { contents.push('\n') } else { contents };
    let r = local_rule() + seq!['/'];
    let a = base + eol + marker_comment() + eol.drop_last();
    let tail = if has_crlf(contents) { r.push('\r') } else { r };
    assert(new =~= a + seq!['\n'] + tail + seq!['\n']);
    assert(!tail.contains('\n')) by {
        if tail.contains('\n') {
            let i = choose|i: int| 0 <= i < tail.len() && tail[i] == '\n';
            assert(i < 23 || (has_crlf(contents) && i == 23));
        }
    }
    let an = a + seq!['\n'];
    crate::chars::lemma_split_on_nonempty(a, '\n');
    assert(an.drop_last() =~= a);
    assert(split_on(an, '\n') == split_on(a, '\n').push(Seq::<char>::empty()));
    crate::text::lemma_split_append_plain(an, tail, '\n');
    let p0 = split_on(an + tail, '\n');
    assert(p0 =~= split_on(a, '\n').push(tail)) by {
        assert(Seq::<char>::empty() + tail =~= tail);
    }
    assert((an + tail + seq!['\n']).drop_last() =~= an + tail);
    assert(an + tail + seq!['\n'] =~= new);
    crate::chars::lemma_split_on_nonempty(an + tail, '\n');
    let p = split_on(new, '\n');
    assert(p == p0.push(Seq::<char>::empty()));
    let ls = lines_spec(new);
    let i = split_on(a, '\n').len() as int;
    assert(ls[i] == crate::chars::strip_cr(tail));
    assert(crate::chars::strip_cr(tail) =~= r);
    lemma_rule_line_ignores_local();
    assert(ignores_local(ls[i]));
}

/// A per-user profile wins over shared ones of the same name: the entry kept for a name
/// that some per-user entry carries is a per-user one.
pub proof fn lemma_local_profile_wins(raw: Seq<(Seq<char>, ProfileScope, u128)>, name: Seq<char>, k: int)
    requires
        0 <= k < raw.len(),
        raw[k].0 == name,
        raw[k].1 == ProfileScope::Local,
    ensures
        kept_entry(raw, name) matches Some(e) && e.0 == ProfileScope::Local,
    decreases raw.len(),
{
    let l0 = raw.drop_last();
    if k < raw.len() - 1 {
        assert(l0[k] == raw[k]);
        lemma_local_profile_wins(l0, name, k);
    }
}

} // verus!
