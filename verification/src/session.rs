//! The decisions of an editing session: the filters read from the form, the profile
//! choices offered, whether there are unsaved changes, and the conversions between a
//! profile's relative selections and the tree's explicit states.
use crate::chars::trim;
use crate::text::{
    clean_remove_regex, clean_remove_regex_defined, clean_remove_regex_spec,
    compile_remove_regex_opt, ext_filter_set, parse_extension_filters, prefix_list_spec,
    regex_compiles, regex_flags, split_csv_set, split_prefix_list, StringSet,
};
use crate::paths::{extension_spec, path_extension, strip_prefix_key, strip_prefix_key_spec};
use crate::tree::{Node, SelectionMap};
use crate::workspace::{
    join_rel, profiles_equal, profiles_equal_spec, selections_view, settings_equal_spec,
    workspace_settings_equal, ws_dir_name, Profile, ProfileMeta, ProfileSelection,
    WorkspaceSettings,
};
use vstd::prelude::*;

verus! {

/* ------------------------------ filters ------------------------------ */

/// The filters in effect, as read from the form.
pub struct FilterState {
    pub include_exts: StringSet,
    pub exclude_exts: StringSet,
    pub exclude_dirs: StringSet,
    pub exclude_files: StringSet,
    pub remove_prefixes: Vec<String>,
    pub remove_regex_str: Option<String>,
    pub remove_regex: Option<regex::Regex>,
}

/// The removal pattern kept from the form: the cleaned text, unless it is blank.
pub open spec fn kept_remove_regex(raw: Seq<char>) -> Option<Seq<char>> {
    let c = clean_remove_regex_spec(raw);
    if trim(c).len() == 0 {
        None
    } else {
        Some(c)
    }
}

/// Reads the filters from the texts of the form: the extension filter, the excluded folders
/// (the workspace folder always among them) and files, the line prefixes to remove, and the
/// removal pattern, cleaned and compiled unless blank.
pub fn parse_filters(
    ext_raw: &str,
    exclude_dirs_raw: &str,
    exclude_files_raw: &str,
    remove_prefix_raw: &str,
    remove_regex_raw: &str,
) -> (res: FilterState)
    requires
        clean_remove_regex_defined(remove_regex_raw@),
    ensures
        res.include_exts.wf(),
        res.exclude_exts.wf(),
        res.exclude_dirs.wf(),
        res.exclude_files.wf(),
        res.include_exts@ == ext_filter_set(ext_raw@, false),
        res.exclude_exts@ == ext_filter_set(ext_raw@, true),
        res.exclude_dirs@ == prefix_list_spec(exclude_dirs_raw@).to_set().insert(ws_dir_name()),
        res.exclude_files@ == prefix_list_spec(exclude_files_raw@).to_set(),
        res.remove_prefixes@.map_values(|s: String| s@) == prefix_list_spec(remove_prefix_raw@),
        match res.remove_regex_str {
            Some(r) => kept_remove_regex(remove_regex_raw@) == Some(r@),
            None => kept_remove_regex(remove_regex_raw@) is None,
        },
        match kept_remove_regex(remove_regex_raw@) {
            Some(r) => res.remove_regex is Some == regex_compiles(regex_flags() + r),
            None => res.remove_regex is None,
        },
{
    let (include_exts, exclude_exts) = parse_extension_filters(ext_raw);
    let mut exclude_dirs = split_csv_set(exclude_dirs_raw);
    let exclude_files = split_csv_set(exclude_files_raw);
    exclude_dirs.insert(crate::workspace::workspace_dir_name());
    let cleaned = clean_remove_regex(remove_regex_raw);
    let cc = crate::chars::chars_of(cleaned.as_str());
    let trimmed = crate::chars::trim_range(&cc, 0, cc.len());
    assert(cc@.subrange(0, cc@.len() as int) =~= cc@);
    let remove_regex_str = if trimmed.len() == 0 {
        None
    } else {
        Some(cleaned)
    };
    let remove_regex = match &remove_regex_str {
        Some(r) => compile_remove_regex_opt(Some(r.as_str())),
        None => None,
    };
    FilterState {
        include_exts,
        exclude_exts,
        exclude_dirs,
        exclude_files,
        remove_prefixes: split_prefix_list(remove_prefix_raw),
        remove_regex_str,
        remove_regex,
    }
}

/* --------------------------- profile choices --------------------------- */

/// The first entry of the profile choices, which stands for the workspace settings.
pub open spec fn workspace_choice_label() -> Seq<char> {
    seq!['—', ' ', 'W', 'o', 'r', 'k', 's', 'p', 'a', 'c', 'e', ' ', '—']
}

/// The profile choices offered: the workspace entry, then each profile's name in order.
pub open spec fn profile_choice_names(ps: Seq<ProfileMeta>) -> Seq<Seq<char>> {
    seq![workspace_choice_label()] + ps.map_values(|m: ProfileMeta| m.name@)
}

/// The position of the first profile named `name` in `ps`, or -1.
pub open spec fn first_profile_named(ps: Seq<ProfileMeta>, name: Seq<char>) -> int
    decreases ps.len(),
{
    if ps.len() == 0 {
        -1
    } else if ps[0].name@ == name {
        0
    } else {
        let r = first_profile_named(ps.drop_first(), name);
        if r < 0 {
            -1
        } else {
            r + 1
        }
    }
}

/// The choice selected: the current profile's entry when it is listed, else the workspace.
pub open spec fn profile_choice_index(ps: Seq<ProfileMeta>, current: Option<Seq<char>>) -> int {
    match current {
        Some(n) => if first_profile_named(ps, n) < 0 {
            0
        } else {
            first_profile_named(ps, n) + 1
        },
        None => 0,
    }
}

proof fn lemma_first_profile_named(ps: Seq<ProfileMeta>, name: Seq<char>, k: int)
    requires
        0 <= k <= ps.len(),
        forall|j: int| 0 <= j < k ==> ps[j].name@ != name,
    ensures
        k < ps.len() && ps[k].name@ == name ==> first_profile_named(ps, name) == k,
        k == ps.len() ==> first_profile_named(ps, name) == -1,
    decreases k,
{
    if k > 0 {
        lemma_first_profile_named(ps.drop_first(), name, k - 1);
    }
}

/// The profile choices to offer and the index of the one to select: the workspace entry
/// first, then the profiles in order; the selected one is the current profile when it is
/// listed, else the workspace entry.
pub fn profile_choices(profiles: &Vec<ProfileMeta>, current: Option<&str>) -> (res: (Vec<String>, i32))
    requires
        profiles.len() < i32::MAX,
    ensures
        res.0@.map_values(|s: String| s@) == profile_choice_names(profiles@),
        res.1 == profile_choice_index(profiles@, match current {
            Some(c) => Some(c@),
            None => None,
        }),
{
    let ghost ps = profiles@;
    let mut names: Vec<String> = Vec::new();
    let label = vec!['—', ' ', 'W', 'o', 'r', 'k', 's', 'p', 'a', 'c', 'e', ' ', '—'];
    assert(label@ =~= workspace_choice_label());
    names.push(crate::chars::string_of(label.as_slice()));
    let mut i: usize = 0;
    while i < profiles.len()
        invariant
            i <= profiles.len(),
            ps == profiles@,
            names@.map_values(|s: String| s@) == profile_choice_names(ps.subrange(0, i as int)),
        decreases profiles.len() - i,
    {
        let ghost n0 = names@.map_values(|s: String| s@);
        names.push(profiles[i].name.clone());
        assert(names@.map_values(|s: String| s@) =~= n0.push(ps[i as int].name@));
        i = i + 1;
        assert(profile_choice_names(ps.subrange(0, i as int)) =~= profile_choice_names(ps.subrange(0, i - 1)).push(ps[i - 1].name@));
    }
    assert(ps.subrange(0, profiles.len() as int) =~= ps);
    let idx: i32 = match current {
        None => 0,
        Some(c) => {
            let mut k: usize = 0;
            let mut found: i32 = 0;
            while k < profiles.len()
                invariant_except_break
                    found == 0,
                invariant
                    k <= profiles.len() < i32::MAX,
                    ps == profiles@,
                    forall|j: int| 0 <= j < k ==> ps[j].name@ != c@,
                ensures
                    found == 0 ==> k == profiles.len(),
                    found != 0 ==> found == first_profile_named(ps, c@) + 1 && first_profile_named(ps, c@) >= 0,
                decreases profiles.len() - k,
            {
                if crate::text::str_eq(profiles[k].name.as_str(), c) {
                    proof {
                        lemma_first_profile_named(ps, c@, k as int);
                    }
                    found = (k + 1) as i32;
                    break;
                }
                k = k + 1;
            }
            proof {
                if k == profiles.len() {
                    lemma_first_profile_named(ps, c@, k as int);
                }
            }
            found
        },
    };
    (names, idx)
}

/* ----------------------------- unsaved changes ----------------------------- */

/// Whether saving is offered: for the workspace entry, when the settings differ from the
/// last loaded or saved ones (or there are none); for a profile, when it has a non-blank
/// name and a current profile that differs from its baseline (or there is none); never
/// when no entry is selected.
pub open spec fn save_enabled_spec(
    selected_index: i32,
    workspace_baseline: Option<&WorkspaceSettings>,
    current_settings: &WorkspaceSettings,
    profile_name: Seq<char>,
    profile_baseline: Option<&Profile>,
    current_profile: Option<&Profile>,
) -> bool {
    if selected_index < 0 {
        false
    } else if selected_index == 0 {
        match workspace_baseline {
            Some(b) => !settings_equal_spec(b, current_settings),
            None => true,
        }
    } else if trim(profile_name).len() == 0 {
        false
    } else {
        match current_profile {
            None => false,
            Some(c) => match profile_baseline {
                Some(b) => !profiles_equal_spec(b, c),
                None => true,
            },
        }
    }
}

/// Whether the save button is enabled: whether the selected entry has unsaved changes.
pub fn save_button_enabled(
    selected_index: i32,
    workspace_baseline: Option<&WorkspaceSettings>,
    current_settings: &WorkspaceSettings,
    profile_name: &str,
    profile_baseline: Option<&Profile>,
    current_profile: Option<&Profile>,
) -> (b: bool)
    ensures
        b == save_enabled_spec(
            selected_index,
            workspace_baseline,
            current_settings,
            profile_name@,
            profile_baseline,
            current_profile,
        ),
{
    if selected_index < 0 {
        return false;
    }
    if selected_index == 0 {
        return match workspace_baseline {
            Some(b) => !workspace_settings_equal(b, current_settings),
            None => true,
        };
    }
    let nc = crate::chars::chars_of(profile_name);
    let t = crate::chars::trim_range(&nc, 0, nc.len());
    assert(nc@.subrange(0, nc@.len() as int) =~= nc@);
    if t.len() == 0 {
        return false;
    }
    match current_profile {
        None => false,
        Some(c) => match profile_baseline {
            Some(b) => !profiles_equal(b, c),
            None => true,
        },
    }
}

/* ------------------------- profiles and selections ------------------------- */

/// What a profile stores for the explicit state of `abs`: the path relative to `dir` (empty
/// for `dir` itself) and the state; nothing for a path outside `dir`.
pub open spec fn stored_pair(explicit: Map<Seq<char>, bool>, dir: Seq<char>, abs: Seq<char>) -> Option<(Seq<char>, bool)> {
    match strip_prefix_key_spec(dir, abs) {
        Some(k) => if explicit.contains_key(abs) {
            Some((k, explicit[abs]))
        } else {
            None
        },
        None => None,
    }
}

/// The pairs that a profile stores for the explicit states `explicit` of a project at `dir`.
pub open spec fn captured_pairs(explicit: Map<Seq<char>, bool>, dir: Seq<char>) -> Set<(Seq<char>, bool)> {
    Set::new(|e: (Seq<char>, bool)| exists|abs: Seq<char>| #[trigger] stored_pair(explicit, dir, abs) == Some(e))
}

/// The explicit states as a profile stores them: for each path at or below `dir`, the path
/// relative to `dir` (empty for `dir` itself) and its state; paths outside `dir` are left
/// out.
pub fn capture_selections(explicit: &SelectionMap, dir: &str) -> (res: Vec<ProfileSelection>)
    requires
        explicit.wf(),
    ensures
        selections_view(res@).to_set() == captured_pairs(explicit@, dir@),
{
    let keys = explicit.keys();
    let ghost kv = keys@.map_values(|x: String| x@);
    let ghost m = explicit@;
    let mut res: Vec<ProfileSelection> = Vec::new();
    let mut i: usize = 0;
    while i < keys.len()
        invariant
            i <= keys.len(),
            explicit.wf(),
            m == explicit@,
            kv == keys@.map_values(|x: String| x@),
            forall|k: Seq<char>| m.contains_key(k) <==> exists|j: int| 0 <= j < keys@.len() && #[trigger] keys@[j]@ == k,
            selections_view(res@).to_set() == Set::new(|e: (Seq<char>, bool)|
                exists|j: int| 0 <= j < i && #[trigger] stored_pair(m, dir@, kv[j]) == Some(e)),
        decreases keys.len() - i,
    {
        let ghost r0 = selections_view(res@);
        let ghost p = stored_pair(m, dir@, kv[i as int]);
        assert(m.contains_key(kv[i as int]));
        match strip_prefix_key(dir, keys[i].as_str()) {
            Some(rel) => {
                let st = match explicit.get(keys[i].as_str()) {
                    Some(b) => b,
                    None => false,
                };
                res.push(ProfileSelection { path: rel, state: st });
                assert(selections_view(res@) =~= r0.push(p.unwrap()));
                proof {
                    Seq::<(Seq<char>, bool)>::lemma_to_set_insert_commutes(r0, p.unwrap());
                    assert(r0.push(p.unwrap()) =~= r0 + seq![p.unwrap()]);
                }
            },
            None => {
                assert(selections_view(res@) =~= r0);
            },
        }
        i = i + 1;
        assert(selections_view(res@).to_set() =~= Set::new(|e: (Seq<char>, bool)|
            exists|j: int| 0 <= j < i && #[trigger] stored_pair(m, dir@, kv[j]) == Some(e))) by {
            assert forall|e: (Seq<char>, bool)| (exists|j: int| 0 <= j < i && #[trigger] stored_pair(m, dir@, kv[j]) == Some(e))
                implies selections_view(res@).to_set().contains(e) by {
                let j = choose|j: int| 0 <= j < i && #[trigger] stored_pair(m, dir@, kv[j]) == Some(e);
                if j < i - 1 {
                    assert(r0.to_set().contains(e));
                }
            }
            assert forall|e: (Seq<char>, bool)| selections_view(res@).to_set().contains(e)
                implies (exists|j: int| 0 <= j < i && #[trigger] stored_pair(m, dir@, kv[j]) == Some(e)) by {
                if r0.to_set().contains(e) {
                    let j = choose|j: int| 0 <= j < i - 1 && #[trigger] stored_pair(m, dir@, kv[j]) == Some(e);
                    assert(0 <= j < i && stored_pair(m, dir@, kv[j]) == Some(e));
                } else {
                    assert(stored_pair(m, dir@, kv[i - 1]) == Some(e));
                }
            }
        }
    }
    assert(selections_view(res@).to_set() =~= captured_pairs(m, dir@)) by {
        assert forall|e: (Seq<char>, bool)| #[trigger] captured_pairs(m, dir@).contains(e)
            implies selections_view(res@).to_set().contains(e) by {
            let abs = choose|abs: Seq<char>| #[trigger] stored_pair(m, dir@, abs) == Some(e);
            assert(m.contains_key(abs));
            let j = choose|j: int| 0 <= j < keys@.len() && #[trigger] keys@[j]@ == abs;
            assert(kv[j] == abs);
            assert(stored_pair(m, dir@, kv[j]) == Some(e));
        }
        assert forall|e: (Seq<char>, bool)| selections_view(res@).to_set().contains(e)
            implies #[trigger] captured_pairs(m, dir@).contains(e) by {
            let j = choose|j: int| 0 <= j < i && #[trigger] stored_pair(m, dir@, kv[j]) == Some(e);
            assert(stored_pair(m, dir@, kv[j]) == Some(e));
        }
    }
    res
}

/// The path that a stored relative path `rel` stands for in a project at `root`: the root
/// itself for an empty path, else `root` joined with `rel` (an absolute `rel` replaces the
/// root, as `Path::join` does).
pub open spec fn profile_abs_path(root: Seq<char>, rel: Seq<char>) -> Seq<char> {
    if rel.len() == 0 {
        root
    } else if rel[0] == '/' {
        rel
    } else {
        join_rel(root, rel)
    }
}

/// The explicit states that stored pairs give in a project at `root`, later pairs
/// overriding earlier ones for the same path.
pub open spec fn explicit_from_pairs(root: Seq<char>, sels: Seq<(Seq<char>, bool)>) -> Map<Seq<char>, bool>
    decreases sels.len(),
{
    if sels.len() == 0 {
        Map::empty()
    } else {
        explicit_from_pairs(root, sels.drop_last()).insert(profile_abs_path(root, sels.last().0), sels.last().1)
    }
}

/// The explicit states that a profile's selections give in a project at `root`.
pub fn explicit_states_from_profile(root: &str, sels: &Vec<ProfileSelection>) -> (res: SelectionMap)
    ensures
        res.wf(),
        res@ == explicit_from_pairs(root@, selections_view(sels@)),
{
    let ghost sv = selections_view(sels@);
    let rc = crate::chars::chars_of(root);
    let mut res = SelectionMap::new();
    let mut i: usize = 0;
    while i < sels.len()
        invariant
            i <= sels.len(),
            res.wf(),
            rc@ == root@,
            sv == selections_view(sels@),
            res@ == explicit_from_pairs(root@, sv.subrange(0, i as int)),
        decreases sels.len() - i,
    {
        let pc = crate::chars::chars_of(sels[i].path.as_str());
        let abs: String = if pc.len() == 0 {
            crate::chars::string_of(rc.as_slice())
        } else if pc[0] == '/' {
            crate::chars::string_of(pc.as_slice())
        } else {
            crate::chars::string_of(crate::workspace::join_rel_exec(&rc, &pc).as_slice())
        };
        assert(abs@ == profile_abs_path(root@, sv[i as int].0));
        res.insert(abs, sels[i].state);
        assert(sv.subrange(0, i + 1).drop_last() =~= sv.subrange(0, i as int));
        i = i + 1;
    }
    assert(sv.subrange(0, sels.len() as int) =~= sv);
    res
}

proof fn lemma_explicit_from_pairs(root: Seq<char>, sels: Seq<(Seq<char>, bool)>, x: Seq<char>)
    ensures
        explicit_from_pairs(root, sels).contains_key(x) <==> exists|i: int|
            0 <= i < sels.len() && #[trigger] profile_abs_path(root, sels[i].0) == x,
        explicit_from_pairs(root, sels).contains_key(x) ==> exists|i: int|
            0 <= i < sels.len() && #[trigger] profile_abs_path(root, sels[i].0) == x
                && explicit_from_pairs(root, sels)[x] == sels[i].1,
    decreases sels.len(),
{
    if sels.len() > 0 {
        let front = sels.drop_last();
        let n = sels.len() - 1;
        lemma_explicit_from_pairs(root, front, x);
        if profile_abs_path(root, sels.last().0) == x {
            assert(sels[n] == sels.last());
            assert(profile_abs_path(root, sels[n].0) == x);
        } else if explicit_from_pairs(root, sels).contains_key(x) {
            let i = choose|i: int| 0 <= i < front.len() && #[trigger] profile_abs_path(root, front[i].0) == x
                && explicit_from_pairs(root, front)[x] == front[i].1;
            assert(sels[i] == front[i]);
            assert(profile_abs_path(root, sels[i].0) == x);
        }
        assert forall|i: int| 0 <= i < sels.len() && #[trigger] profile_abs_path(root, sels[i].0) == x
            implies explicit_from_pairs(root, sels).contains_key(x) by {
            if i < front.len() {
                assert(front[i] == sels[i]);
            }
        }
    }
}

/// Whether every path with an explicit state lies at or below `dir` and is written so that
/// the path stored for it leads back to it.
pub open spec fn stores_back(explicit: Map<Seq<char>, bool>, dir: Seq<char>) -> bool {
    forall|abs: Seq<char>| #[trigger] explicit.contains_key(abs) ==> (strip_prefix_key_spec(dir, abs) matches Some(k)
        && profile_abs_path(dir, k) == abs)
}

/// Storing the explicit states in a profile and applying that profile to the same project
/// gives back the same explicit states, whatever order the stored pairs come in, when
/// every path lies at or below the project folder and is written in the form the stored
/// path leads back to.
pub proof fn lemma_capture_then_apply(explicit: Map<Seq<char>, bool>, dir: Seq<char>, sels: Seq<(Seq<char>, bool)>)
    requires
        stores_back(explicit, dir),
        sels.to_set() == captured_pairs(explicit, dir),
    ensures
        explicit_from_pairs(dir, sels) == explicit,
{
    let r = explicit_from_pairs(dir, sels);
    assert forall|x: Seq<char>| #[trigger] r.contains_key(x) <==> explicit.contains_key(x) by {
        lemma_explicit_from_pairs(dir, sels, x);
        if r.contains_key(x) {
            let i = choose|i: int| 0 <= i < sels.len() && #[trigger] profile_abs_path(dir, sels[i].0) == x;
            assert(sels.to_set().contains(sels[i]));
            let abs = choose|abs: Seq<char>| #[trigger] stored_pair(explicit, dir, abs) == Some(sels[i]);
            assert(explicit.contains_key(abs));
            assert(abs == x);
        }
        if explicit.contains_key(x) {
            let k = strip_prefix_key_spec(dir, x).unwrap();
            assert(stored_pair(explicit, dir, x) == Some((k, explicit[x])));
            assert(captured_pairs(explicit, dir).contains((k, explicit[x])));
            let i = sels.index_of((k, explicit[x]));
            assert(profile_abs_path(dir, sels[i].0) == x);
        }
    }
    assert forall|x: Seq<char>| #[trigger] r.contains_key(x) implies r[x] == explicit[x] by {
        lemma_explicit_from_pairs(dir, sels, x);
        let i = choose|i: int| 0 <= i < sels.len() && #[trigger] profile_abs_path(dir, sels[i].0) == x
            && r[x] == sels[i].1;
        assert(sels.to_set().contains(sels[i]));
        let abs = choose|abs: Seq<char>| #[trigger] stored_pair(explicit, dir, abs) == Some(sels[i]);
        assert(explicit.contains_key(abs));
        assert(abs == x);
    }
    assert(r =~= explicit);
}

/* ------------------------------ Rust files ------------------------------ */

/// Whether the tree at `n` has a file node with extension `rs`, looking below every node.
pub open spec fn has_rust_file(n: Node) -> bool
    decreases n, 1nat,
{
    (!n.is_dir && extension_spec(n.path@) == Some(seq!['r', 's'])) || forest_has_rust_file(n.children@)
}

/// Whether one of the trees `cs` has a file node with extension `rs`.
pub open spec fn forest_has_rust_file(cs: Seq<Node>) -> bool
    decreases cs, 0nat,
{
    cs.len() > 0 && (forest_has_rust_file(cs.drop_last()) || has_rust_file(cs.last()))
}

proof fn lemma_forest_has_rust_file_prefix(cs: Seq<Node>, i: int)
    requires
        0 <= i <= cs.len(),
    ensures
        forest_has_rust_file(cs.subrange(0, i)) ==> forest_has_rust_file(cs),
    decreases cs.len() - i,
{
    if i < cs.len() {
        lemma_forest_has_rust_file_prefix(cs, i + 1);
        assert(cs.subrange(0, i + 1).drop_last() =~= cs.subrange(0, i));
    } else {
        assert(cs.subrange(0, i) =~= cs);
    }
}

fn is_rs_file(n: &Node) -> (b: bool)
    ensures
        b == (!n.is_dir && extension_spec(n.path@) == Some(seq!['r', 's'])),
{
    if n.is_dir {
        return false;
    }
    match path_extension(n.path.as_str()) {
        Some(e) => {
            let b = e.len() == 2 && e[0] == 'r' && e[1] == 's';
            assert(b == (e@ =~= seq!['r', 's']));
            b
        },
        None => false,
    }
}

fn forest_has_rust_file_exec(cs: &Vec<Node>) -> (b: bool)
    ensures
        b == forest_has_rust_file(cs@),
    decreases cs@, 0nat,
{
    let mut i: usize = 0;
    assert(cs@.subrange(0, 0) =~= Seq::<Node>::empty());
    while i < cs.len()
        invariant
            i <= cs.len(),
            !forest_has_rust_file(cs@.subrange(0, i as int)),
        decreases cs.len() - i,
    {
        assert(cs@.subrange(0, i + 1).drop_last() =~= cs@.subrange(0, i as int));
        assert(cs@.subrange(0, i + 1).last() == cs@[i as int]);
        assert(decreases_to!(cs@ => cs@[i as int]));
        if tree_has_rust_file(&cs[i]) {
            proof {
                lemma_forest_has_rust_file_prefix(cs@, i + 1);
            }
            return true;
        }
        i = i + 1;
    }
    assert(cs@.subrange(0, cs.len() as int) =~= cs@);
    false
}

/// Whether the tree has a Rust source file (a file node whose extension is `rs`), which
/// decides whether the Rust options are shown.
pub fn tree_has_rust_file(n: &Node) -> (b: bool)
    ensures
        b == has_rust_file(*n),
    decreases *n, 1nat,
{
    if is_rs_file(n) {
        return true;
    }
    forest_has_rust_file_exec(&n.children)
}

} // verus!
