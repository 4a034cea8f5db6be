//! The project tree: nodes, the filtering and assembly steps of a directory scan, the
//! set of paths in a tree, and the files and directories that a selection covers.
use crate::chars::{chars_lt, chars_of, compare_chars};
use crate::paths::matches_ext_filters_spec;
use crate::paths::path_matches_extension_filters;
use crate::text::StringSet;
use vstd::prelude::*;

verus! {

/// A file-system node of the project tree. `path` is the node's path text; `has_children`
/// tells whether a directory shows any content (a file, or a directory with content).
#[derive(Debug)]
pub struct Node {
    pub name: String,
    pub path: String,
    pub is_dir: bool,
    pub children: Vec<Node>,
    pub expanded: bool,
    pub has_children: bool,
}

/// Whether a node stands for a file or for a directory that shows some content.
pub open spec fn contains_file_spec(node: &Node) -> bool {
    !node.is_dir || node.has_children
}

/// Whether the node is a file, or a directory with content to show.
pub fn dir_contains_file(node: &Node) -> (b: bool)
    ensures
        b == contains_file_spec(node),
{
    !node.is_dir || node.has_children
}

/* ------------------------------ paths of a tree ------------------------------ */

/// The paths of a node and all nodes below it.
pub open spec fn tree_paths(n: Node) -> Set<Seq<char>>
    decreases n, 1nat,
{
    forest_paths(n.children@).insert(n.path@)
}

/// The paths of the nodes in `cs` and all nodes below them.
pub open spec fn forest_paths(cs: Seq<Node>) -> Set<Seq<char>>
    decreases cs, 0nat,
{
    if cs.len() == 0 {
        Set::empty()
    } else {
        forest_paths(cs.drop_last()).union(tree_paths(cs.last()))
    }
}

fn gather_paths_rec(n: &Node, set: &mut StringSet)
    requires
        old(set).wf(),
    ensures
        final(set).wf(),
        final(set)@ == old(set)@.union(tree_paths(*n)),
    decreases *n, 1nat,
{
    set.insert(n.path.clone());
    let ghost s1 = set@;
    gather_forest_rec(&n.children, set);
    assert(set@ =~= old(set)@.union(tree_paths(*n)));
}

fn gather_forest_rec(cs: &Vec<Node>, set: &mut StringSet)
    requires
        old(set).wf(),
    ensures
        final(set).wf(),
        final(set)@ == old(set)@.union(forest_paths(cs@)),
    decreases cs@, 0nat,
{
    let mut i: usize = 0;
    let ghost s0 = set@;
    assert(cs@.subrange(0, 0) =~= Seq::<Node>::empty());
    while i < cs.len()
        invariant
            i <= cs.len(),
            set.wf(),
            set@ == s0.union(forest_paths(cs@.subrange(0, i as int))),
        decreases cs.len() - i,
    {
        assert(cs@.subrange(0, i + 1).drop_last() =~= cs@.subrange(0, i as int));
        assert(cs@.subrange(0, i + 1).last() == cs@[i as int]);
        assert(decreases_to!(cs@ => cs@[i as int]));
        gather_paths_rec(&cs[i], set);
        i = i + 1;
        assert(set@ =~= s0.union(forest_paths(cs@.subrange(0, i as int))));
    }
    assert(cs@.subrange(0, cs.len() as int) =~= cs@);
}

/// The set of the paths of all nodes of the tree, the root's included.
pub fn gather_paths_set(root: &Node) -> (res: StringSet)
    ensures
        res.wf(),
        res@ == tree_paths(*root),
{
    let mut set = StringSet::new();
    gather_paths_rec(root, &mut set);
    assert(set@ =~= tree_paths(*root));
    set
}

/* ---------------------------- explicit selections ---------------------------- */

/// Explicit check states by path; each path at most once.
#[derive(Debug, Clone)]
pub struct SelectionMap {
    entries: Vec<(String, bool)>,
}

impl View for SelectionMap {
    type V = Map<Seq<char>, bool>;

    closed spec fn view(&self) -> Map<Seq<char>, bool> {
        Map::new(
            |k: Seq<char>| exists|i: int| 0 <= i < self.entries@.len() && self.entries@[i].0@ == k,
            |k: Seq<char>|
                self.entries@[choose|i: int| 0 <= i < self.entries@.len() && self.entries@[i].0@ == k].1,
        )
    }
}

impl SelectionMap {
    /// Each path occurs once.
    pub closed spec fn wf(&self) -> bool {
        forall|i: int, j: int|
            0 <= i < j < self.entries@.len() ==> self.entries@[i].0@ != self.entries@[j].0@
    }

    /// No explicit states.
    pub fn new() -> (res: SelectionMap)
        ensures
            res.wf(),
            res@ == Map::<Seq<char>, bool>::empty(),
    {
        let res = SelectionMap { entries: Vec::new() };
        assert(res@ =~= Map::<Seq<char>, bool>::empty());
        res
    }

    fn find(&self, path: &str) -> (res: Option<usize>)
        requires
            self.wf(),
        ensures
            match res {
                Some(i) => i < self.entries@.len() && self.entries@[i as int].0@ == path@,
                None => forall|i: int| 0 <= i < self.entries@.len() ==> self.entries@[i].0@ != path@,
            },
    {
        let mut i: usize = 0;
        while i < self.entries.len()
            invariant
                i <= self.entries.len(),
                forall|j: int| 0 <= j < i ==> self.entries@[j].0@ != path@,
            decreases self.entries.len() - i,
        {
            if crate::text::str_eq(self.entries[i].0.as_str(), path) {
                return Some(i);
            }
            i = i + 1;
        }
        None
    }

    proof fn lemma_value_at(&self, i: int)
        requires
            self.wf(),
            0 <= i < self.entries@.len(),
        ensures
            self@.contains_key(self.entries@[i].0@),
            self@[self.entries@[i].0@] == self.entries@[i].1,
    {
        let k = self.entries@[i].0@;
        assert(self@.dom().contains(k));
        let j = choose|j: int| 0 <= j < self.entries@.len() && self.entries@[j].0@ == k;
        if j != i {
            if j < i {
                assert(self.entries@[j].0@ != self.entries@[i].0@);
            } else {
                assert(self.entries@[i].0@ != self.entries@[j].0@);
            }
        }
    }

    /// The explicit state of a path, if it has one.
    pub fn get(&self, path: &str) -> (res: Option<bool>)
        requires
            self.wf(),
        ensures
            res == (if self@.contains_key(path@) {
                Some(self@[path@])
            } else {
                None
            }),
    {
        match self.find(path) {
            Some(i) => {
                proof {
                    self.lemma_value_at(i as int);
                }
                Some(self.entries[i].1)
            },
            None => {
                assert(!self@.contains_key(path@));
                None
            },
        }
    }

    /// Sets the explicit state of a path.
    pub fn insert(&mut self, path: String, state: bool)
        requires
            old(self).wf(),
        ensures
            final(self).wf(),
            final(self)@ == old(self)@.insert(path@, state),
    {
        let ghost k = path@;
        match self.find(path.as_str()) {
            Some(i) => {
                let ghost e0 = self.entries@;
                self.entries.set(i, (path, state));
                assert forall|kk: Seq<char>| #[trigger] self@.contains_key(kk) == old(self)@.insert(k, state).contains_key(kk) by {
                    if old(self)@.insert(k, state).contains_key(kk) {
                        if kk != k {
                            let j = choose|j: int| 0 <= j < e0.len() && e0[j].0@ == kk;
                            assert(self.entries@[j].0@ == kk);
                        } else {
                            assert(self.entries@[i as int].0@ == kk);
                        }
                    }
                }
                assert forall|kk: Seq<char>| #[trigger] self@.contains_key(kk) implies self@[kk] == old(self)@.insert(k, state)[kk] by {
                    let j = choose|j: int| 0 <= j < self.entries@.len() && self.entries@[j].0@ == kk;
                    self.lemma_value_at(j);
                    if j != i {
                        old(self).lemma_value_at(j);
                    }
                }
                assert(self@ =~= old(self)@.insert(k, state));
            },
            None => {
                let ghost e0 = self.entries@;
                self.entries.push((path, state));
                let n = self.entries.len() - 1;
                assert forall|kk: Seq<char>| #[trigger] self@.contains_key(kk) == old(self)@.insert(k, state).contains_key(kk) by {
                    if old(self)@.insert(k, state).contains_key(kk) {
                        if kk != k {
                            let j = choose|j: int| 0 <= j < e0.len() && e0[j].0@ == kk;
                            assert(self.entries@[j].0@ == kk);
                        } else {
                            assert(self.entries@[n as int].0@ == kk);
                        }
                    }
                }
                assert forall|kk: Seq<char>| #[trigger] self@.contains_key(kk) implies self@[kk] == old(self)@.insert(k, state)[kk] by {
                    let j = choose|j: int| 0 <= j < self.entries@.len() && self.entries@[j].0@ == kk;
                    self.lemma_value_at(j);
                    if j != n {
                        old(self).lemma_value_at(j);
                    }
                }
                assert(self@ =~= old(self)@.insert(k, state));
            },
        }
    }

    /// Removes the explicit state of a path.
    pub fn remove(&mut self, path: &str)
        requires
            old(self).wf(),
        ensures
            final(self).wf(),
            final(self)@ == old(self)@.remove(path@),
    {
        match self.find(path) {
            Some(i) => {
                let ghost e0 = self.entries@;
                self.entries.remove(i);
                assert(self.entries@ =~= e0.remove(i as int));
                assert forall|a: int, b: int| 0 <= a < b < self.entries@.len() implies self.entries@[a].0@ != self.entries@[b].0@ by {
                    let a0 = if a < i { a } else { a + 1 };
                    let b0 = if b < i { b } else { b + 1 };
                    assert(self.entries@[a] == e0[a0]);
                    assert(self.entries@[b] == e0[b0]);
                }
                assert forall|kk: Seq<char>| #[trigger] self@.contains_key(kk) == old(self)@.remove(path@).contains_key(kk) by {
                    if old(self)@.remove(path@).contains_key(kk) {
                        let j = choose|j: int| 0 <= j < e0.len() && e0[j].0@ == kk;
                        if j < i {
                            assert(self.entries@[j].0@ == kk);
                        } else {
                            assert(j != i);
                            assert(self.entries@[j - 1].0@ == kk);
                        }
                    }
                    if self@.contains_key(kk) {
                        let j = choose|j: int| 0 <= j < self.entries@.len() && self.entries@[j].0@ == kk;
                        let j0 = if j < i { j } else { j + 1 };
                        assert(e0[j0].0@ == kk);
                        if kk == path@ {
                            if j0 < i {
                                assert(e0[j0].0@ != e0[i as int].0@);
                            } else {
                                assert(e0[i as int].0@ != e0[j0].0@);
                            }
                        }
                    }
                }
                assert forall|kk: Seq<char>| #[trigger] self@.contains_key(kk) implies self@[kk] == old(self)@.remove(path@)[kk] by {
                    let j = choose|j: int| 0 <= j < self.entries@.len() && self.entries@[j].0@ == kk;
                    self.lemma_value_at(j);
                    let j0 = if j < i { j } else { j + 1 };
                    assert(e0[j0] == self.entries@[j]);
                    old(self).lemma_value_at(j0);
                }
                assert(self@ =~= old(self)@.remove(path@));
            },
            None => {
                assert(self@ =~= old(self)@.remove(path@));
            },
        }
    }

    /// The number of explicit states.
    pub fn len(&self) -> (n: usize)
        requires
            self.wf(),
        ensures
            n == self@.dom().len(),
    {
        proof {
            let ks = self.entries@.map_values(|e: (String, bool)| e.0@);
            assert(ks.no_duplicates()) by {
                assert forall|a: int, b: int| 0 <= a < ks.len() && 0 <= b < ks.len() && a != b implies ks[a] != ks[b] by {
                    if a < b {
                        assert(self.entries@[a].0@ != self.entries@[b].0@);
                    } else {
                        assert(self.entries@[b].0@ != self.entries@[a].0@);
                    }
                }
            }
            ks.unique_seq_to_set();
            assert(ks.to_set() =~= self@.dom()) by {
                assert forall|k: Seq<char>| self@.dom().contains(k) implies ks.to_set().contains(k) by {
                    let j = choose|j: int| 0 <= j < self.entries@.len() && self.entries@[j].0@ == k;
                    assert(ks[j] == k);
                }
            }
        }
        self.entries.len()
    }

    /// The paths that have an explicit state, in insertion order.
    pub fn keys(&self) -> (res: Vec<String>)
        ensures
            forall|k: Seq<char>| self@.contains_key(k) <==> exists|i: int| 0 <= i < res@.len() && #[trigger] res@[i]@ == k,
    {
        let mut res: Vec<String> = Vec::new();
        let mut i: usize = 0;
        while i < self.entries.len()
            invariant
                i <= self.entries.len(),
                res@.len() == i,
                forall|j: int| 0 <= j < i ==> #[trigger] res@[j]@ == self.entries@[j].0@,
            decreases self.entries.len() - i,
        {
            res.push(self.entries[i].0.clone());
            i = i + 1;
        }
        assert forall|k: Seq<char>| self@.contains_key(k) <==> exists|j: int| 0 <= j < res@.len() && #[trigger] res@[j]@ == k by {
            if self@.contains_key(k) {
                let j = choose|j: int| 0 <= j < self.entries@.len() && self.entries@[j].0@ == k;
                assert(res@[j]@ == k);
            }
            if exists|j: int| 0 <= j < res@.len() && #[trigger] res@[j]@ == k {
                let j = choose|j: int| 0 <= j < res@.len() && #[trigger] res@[j]@ == k;
                assert(self.entries@[j].0@ == k);
            }
        }
        res
    }
}

/* ------------------------------ selected paths ------------------------------ */

/// A node's effective check state: its explicit state, else the inherited one, else off.
pub open spec fn effective_state(explicit: Map<Seq<char>, bool>, path: Seq<char>, inherited: Option<bool>) -> bool {
    if explicit.contains_key(path) {
        explicit[path]
    } else {
        match inherited {
            Some(b) => b,
            None => false,
        }
    }
}

/// The selected files and directories of a tree, in depth-first order: a file when its
/// effective state is on; a directory when on and showing content; children inherit the
/// effective state of their directory.
pub open spec fn selected_paths(n: Node, explicit: Map<Seq<char>, bool>, inherited: Option<bool>) -> (Seq<Seq<char>>, Seq<Seq<char>>)
    decreases n, 1nat,
{
    let eff = effective_state(explicit, n.path@, inherited);
    if n.is_dir {
        let here: Seq<Seq<char>> = if eff && n.has_children {
            seq![n.path@]
        } else {
            Seq::empty()
        };
        let (f, d) = selected_in_forest(n.children@, explicit, eff);
        (f, here + d)
    } else if eff {
        (seq![n.path@], Seq::empty())
    } else {
        (Seq::empty(), Seq::empty())
    }
}

/// The selected files and directories of the trees `cs`, each inheriting `eff`.
pub open spec fn selected_in_forest(cs: Seq<Node>, explicit: Map<Seq<char>, bool>, eff: bool) -> (Seq<Seq<char>>, Seq<Seq<char>>)
    decreases cs, 0nat,
{
    if cs.len() == 0 {
        (Seq::empty(), Seq::empty())
    } else {
        let (f0, d0) = selected_in_forest(cs.drop_last(), explicit, eff);
        let (f1, d1) = selected_paths(cs.last(), explicit, Some(eff));
        (f0 + f1, d0 + d1)
    }
}

/// The views of a vector of strings.
pub open spec fn strs_view(v: Seq<String>) -> Seq<Seq<char>> {
    v.map_values(|s: String| s@)
}

proof fn lemma_strs_view_push(v: Seq<String>, s: String)
    ensures
        strs_view(v.push(s)) == strs_view(v).push(s@),
{
    assert(strs_view(v.push(s)) =~= strs_view(v).push(s@));
}

/// Appends the selected files and directories of the tree at `node` (see `selected_paths`).
pub fn collect_selected_paths(
    node: &Node,
    explicit: &SelectionMap,
    inherited: Option<bool>,
    files_out: &mut Vec<String>,
    dirs_out: &mut Vec<String>,
)
    requires
        explicit.wf(),
    ensures
        strs_view(final(files_out)@) == strs_view(old(files_out)@) + selected_paths(*node, explicit@, inherited).0,
        strs_view(final(dirs_out)@) == strs_view(old(dirs_out)@) + selected_paths(*node, explicit@, inherited).1,
    decreases *node, 1nat,
{
    let my_effective = match explicit.get(node.path.as_str()) {
        Some(b) => b,
        None => match inherited {
            Some(b) => b,
            None => false,
        },
    };
    let ghost f0 = strs_view(files_out@);
    let ghost d0 = strs_view(dirs_out@);
    if node.is_dir {
        if my_effective && node.has_children {
            proof {
                lemma_strs_view_push(dirs_out@, node.path);
            }
            dirs_out.push(node.path.clone());
        }
        let ghost d1 = strs_view(dirs_out@);
        collect_forest(&node.children, explicit, my_effective, files_out, dirs_out);
        let ghost here: Seq<Seq<char>> = if my_effective && node.has_children {
            seq![node.path@]
        } else {
            Seq::empty()
        };
        assert(d1 =~= d0 + here);
        assert(strs_view(dirs_out@) =~= d0 + (here + selected_in_forest(node.children@, explicit@, my_effective).1));
        assert(strs_view(files_out@) =~= f0 + selected_in_forest(node.children@, explicit@, my_effective).0);
    } else if my_effective {
        proof {
            lemma_strs_view_push(files_out@, node.path);
        }
        files_out.push(node.path.clone());
        assert(strs_view(files_out@) =~= f0 + seq![node.path@]);
        assert(strs_view(dirs_out@) =~= d0 + Seq::<Seq<char>>::empty());
    } else {
        assert(strs_view(files_out@) =~= f0 + Seq::<Seq<char>>::empty());
        assert(strs_view(dirs_out@) =~= d0 + Seq::<Seq<char>>::empty());
    }
}

fn collect_forest(
    cs: &Vec<Node>,
    explicit: &SelectionMap,
    eff: bool,
    files_out: &mut Vec<String>,
    dirs_out: &mut Vec<String>,
)
    requires
        explicit.wf(),
    ensures
        strs_view(final(files_out)@) == strs_view(old(files_out)@) + selected_in_forest(cs@, explicit@, eff).0,
        strs_view(final(dirs_out)@) == strs_view(old(dirs_out)@) + selected_in_forest(cs@, explicit@, eff).1,
    decreases cs@, 0nat,
{
    let ghost f0 = strs_view(files_out@);
    let ghost d0 = strs_view(dirs_out@);
    let mut i: usize = 0;
    assert(cs@.subrange(0, 0) =~= Seq::<Node>::empty());
    assert(f0 =~= f0 + Seq::<Seq<char>>::empty());
    assert(d0 =~= d0 + Seq::<Seq<char>>::empty());
    while i < cs.len()
        invariant
            i <= cs.len(),
            explicit.wf(),
            strs_view(files_out@) == f0 + selected_in_forest(cs@.subrange(0, i as int), explicit@, eff).0,
            strs_view(dirs_out@) == d0 + selected_in_forest(cs@.subrange(0, i as int), explicit@, eff).1,
        decreases cs.len() - i,
    {
        assert(cs@.subrange(0, i + 1).drop_last() =~= cs@.subrange(0, i as int));
        assert(cs@.subrange(0, i + 1).last() == cs@[i as int]);
        assert(decreases_to!(cs@ => cs@[i as int]));
        collect_selected_paths(&cs[i], explicit, Some(eff), files_out, dirs_out);
        i = i + 1;
        assert(strs_view(files_out@) =~= f0 + selected_in_forest(cs@.subrange(0, i as int), explicit@, eff).0);
        assert(strs_view(dirs_out@) =~= d0 + selected_in_forest(cs@.subrange(0, i as int), explicit@, eff).1);
    }
    assert(cs@.subrange(0, cs.len() as int) =~= cs@);
}


/* --------------------------- directory scan steps --------------------------- */

/// One entry of a directory listing: its file name, its path, and whether it is a directory.
#[derive(Debug, Clone)]
pub struct DirEntryInfo {
    pub name: String,
    pub path: String,
    pub is_dir: bool,
}

/// The excluded directory and file names that a scan met.
#[derive(Debug, Clone)]
pub struct ScanStats {
    pub excluded_dirs_found: StringSet,
    pub excluded_files_found: StringSet,
}

impl ScanStats {
    /// No exclusions met.
    pub fn new() -> (res: ScanStats)
        ensures
            res.wf(),
            res.excluded_dirs_found@ == Set::<Seq<char>>::empty(),
            res.excluded_files_found@ == Set::<Seq<char>>::empty(),
    {
        ScanStats { excluded_dirs_found: StringSet::new(), excluded_files_found: StringSet::new() }
    }

    pub open spec fn wf(&self) -> bool {
        self.excluded_dirs_found.wf() && self.excluded_files_found.wf()
    }
}

/// A scanned directory and the exclusions met below it.
#[derive(Debug)]
pub struct ScanResult {
    pub node: Node,
    pub stats: ScanStats,
}

/// Whether a file entry passes the extension filters: the include set decides when it is
/// non-empty, else the exclude set, else every file passes.
pub open spec fn file_passes(path: Seq<char>, inc: Set<Seq<char>>, exc: Set<Seq<char>>) -> bool {
    if inc.len() > 0 {
        matches_ext_filters_spec(path, inc)
    } else if exc.len() > 0 {
        !matches_ext_filters_spec(path, exc)
    } else {
        true
    }
}

/// The `(name, path)` pairs of the files that a listing keeps, in listing order.
pub open spec fn kept_files(es: Seq<DirEntryInfo>, inc: Set<Seq<char>>, exc: Set<Seq<char>>, exfiles: Set<Seq<char>>) -> Seq<(Seq<char>, Seq<char>)>
    decreases es.len(),
{
    if es.len() == 0 {
        Seq::empty()
    } else {
        let r = kept_files(es.drop_last(), inc, exc, exfiles);
        let e = es.last();
        if !e.is_dir && !exfiles.contains(e.name@) && file_passes(e.path@, inc, exc) {
            r.push((e.name@, e.path@))
        } else {
            r
        }
    }
}

/// The `(name, path)` pairs of the directories that a listing keeps, in listing order.
pub open spec fn kept_dirs(es: Seq<DirEntryInfo>, exdirs: Set<Seq<char>>) -> Seq<(Seq<char>, Seq<char>)>
    decreases es.len(),
{
    if es.len() == 0 {
        Seq::empty()
    } else {
        let r = kept_dirs(es.drop_last(), exdirs);
        let e = es.last();
        if e.is_dir && !exdirs.contains(e.name@) {
            r.push((e.name@, e.path@))
        } else {
            r
        }
    }
}

/// The names in a listing of directories (`want_dir`) or files that an exclusion set holds.
pub open spec fn excluded_names(es: Seq<DirEntryInfo>, want_dir: bool, ex: Set<Seq<char>>) -> Set<Seq<char>> {
    Set::new(|n: Seq<char>| exists|i: int| 0 <= i < es.len() && es[i].is_dir == want_dir && es[i].name@ == n && ex.contains(n))
}

/// The views of `(name, path)` pairs.
pub open spec fn pairs_view(v: Seq<(String, String)>) -> Seq<(Seq<char>, Seq<char>)> {
    v.map_values(|p: (String, String)| (p.0@, p.1@))
}

proof fn lemma_pairs_view_push(v: Seq<(String, String)>, p: (String, String))
    ensures
        pairs_view(v.push(p)) == pairs_view(v).push((p.0@, p.1@)),
{
    assert(pairs_view(v.push(p)) =~= pairs_view(v).push((p.0@, p.1@)));
}

/// Splits a directory listing into the files and the directories that the filters keep,
/// and records the excluded directory and file names met (the filtering step of a scan).
pub fn split_dir_entries(
    entries: &Vec<DirEntryInfo>,
    include_exts: &StringSet,
    exclude_exts: &StringSet,
    exclude_dirs: &StringSet,
    exclude_files: &StringSet,
) -> (res: (Vec<(String, String)>, Vec<(String, String)>, ScanStats))
    requires
        include_exts.wf(),
        exclude_exts.wf(),
    ensures
        pairs_view(res.0@) == kept_files(entries@, include_exts@, exclude_exts@, exclude_files@),
        pairs_view(res.1@) == kept_dirs(entries@, exclude_dirs@),
        res.2.wf(),
        res.2.excluded_dirs_found@ == excluded_names(entries@, true, exclude_dirs@),
        res.2.excluded_files_found@ == excluded_names(entries@, false, exclude_files@),
{
    let include_mode = include_exts.len() > 0;
    let exclude_mode = exclude_exts.len() > 0;
    let mut files: Vec<(String, String)> = Vec::new();
    let mut dirs: Vec<(String, String)> = Vec::new();
    let mut stats = ScanStats::new();
    let mut i: usize = 0;
    while i < entries.len()
        invariant
            i <= entries.len(),
            include_mode == (include_exts@.len() > 0),
            exclude_mode == (exclude_exts@.len() > 0),
            stats.wf(),
            pairs_view(files@) == kept_files(entries@.subrange(0, i as int), include_exts@, exclude_exts@, exclude_files@),
            pairs_view(dirs@) == kept_dirs(entries@.subrange(0, i as int), exclude_dirs@),
            stats.excluded_dirs_found@ == excluded_names(entries@.subrange(0, i as int), true, exclude_dirs@),
            stats.excluded_files_found@ == excluded_names(entries@.subrange(0, i as int), false, exclude_files@),
        decreases entries.len() - i,
    {
        let ghost sub = entries@.subrange(0, i + 1);
        let ghost prev = entries@.subrange(0, i as int);
        assert(sub.drop_last() =~= prev);
        assert(sub.last() == entries@[i as int]);
        let e = &entries[i];
        let ghost d0 = stats.excluded_dirs_found@;
        let ghost f0 = stats.excluded_files_found@;
        if e.is_dir {
            if exclude_dirs.contains(e.name.as_str()) {
                stats.excluded_dirs_found.insert(e.name.clone());
            } else {
                proof {
                    lemma_pairs_view_push(dirs@, (e.name, e.path));
                }
                dirs.push((e.name.clone(), e.path.clone()));
            }
        } else if exclude_files.contains(e.name.as_str()) {
            stats.excluded_files_found.insert(e.name.clone());
        } else {
            let keep = if include_mode {
                path_matches_extension_filters(e.path.as_str(), include_exts)
            } else if exclude_mode {
                !path_matches_extension_filters(e.path.as_str(), exclude_exts)
            } else {
                true
            };
            if keep {
                proof {
                    lemma_pairs_view_push(files@, (e.name, e.path));
                }
                files.push((e.name.clone(), e.path.clone()));
            }
        }
        i = i + 1;
        assert(stats.excluded_dirs_found@ =~= excluded_names(sub, true, exclude_dirs@)) by {
            assert forall|n: Seq<char>| excluded_names(sub, true, exclude_dirs@).contains(n) implies #[trigger] stats.excluded_dirs_found@.contains(n) by {
                let j = choose|j: int| 0 <= j < sub.len() && sub[j].is_dir == true && sub[j].name@ == n && exclude_dirs@.contains(n);
                if j < sub.len() - 1 {
                    assert(prev[j] == sub[j]);
                    assert(excluded_names(prev, true, exclude_dirs@).contains(n));
                }
            }
            assert forall|n: Seq<char>| #[trigger] stats.excluded_dirs_found@.contains(n) implies excluded_names(sub, true, exclude_dirs@).contains(n) by {
                if d0.contains(n) {
                    let j = choose|j: int| 0 <= j < prev.len() && prev[j].is_dir == true && prev[j].name@ == n && exclude_dirs@.contains(n);
                    assert(sub[j] == prev[j]);
                } else {
                    assert(sub[sub.len() - 1].name@ == n);
                }
            }
        }
        assert(stats.excluded_files_found@ =~= excluded_names(sub, false, exclude_files@)) by {
            assert forall|n: Seq<char>| excluded_names(sub, false, exclude_files@).contains(n) implies #[trigger] stats.excluded_files_found@.contains(n) by {
                let j = choose|j: int| 0 <= j < sub.len() && sub[j].is_dir == false && sub[j].name@ == n && exclude_files@.contains(n);
                if j < sub.len() - 1 {
                    assert(prev[j] == sub[j]);
                    assert(excluded_names(prev, false, exclude_files@).contains(n));
                }
            }
            assert forall|n: Seq<char>| #[trigger] stats.excluded_files_found@.contains(n) implies excluded_names(sub, false, exclude_files@).contains(n) by {
                if f0.contains(n) {
                    let j = choose|j: int| 0 <= j < prev.len() && prev[j].is_dir == false && prev[j].name@ == n && exclude_files@.contains(n);
                    assert(sub[j] == prev[j]);
                } else {
                    assert(sub[sub.len() - 1].name@ == n);
                }
            }
        }
    }
    assert(entries@.subrange(0, entries.len() as int) =~= entries@);
    (files, dirs, stats)
}

/// Ordered by name (`str` order), equal names in any order.
pub open spec fn sorted_by_name(v: Seq<(Seq<char>, Seq<char>)>) -> bool {
    forall|i: int, j: int| 0 <= i < j < v.len() ==> !chars_lt(#[trigger] v[j].0, #[trigger] v[i].0)
}

/// Inserts `x` into `r` after every pair whose name is not greater than its name.
pub open spec fn insert_by_name(r: Seq<(Seq<char>, Seq<char>)>, x: (Seq<char>, Seq<char>)) -> Seq<(Seq<char>, Seq<char>)>
    decreases r.len(),
{
    if r.len() == 0 || !chars_lt(x.0, r.last().0) {
        r.push(x)
    } else {
        insert_by_name(r.drop_last(), x).push(r.last())
    }
}

/// The pairs sorted by name, equal names kept in their order (insertion sort).
pub open spec fn name_sort(v: Seq<(Seq<char>, Seq<char>)>) -> Seq<(Seq<char>, Seq<char>)>
    decreases v.len(),
{
    if v.len() == 0 {
        Seq::empty()
    } else {
        insert_by_name(name_sort(v.drop_last()), v.last())
    }
}

proof fn lemma_insert_by_name_at(r: Seq<(Seq<char>, Seq<char>)>, x: (Seq<char>, Seq<char>), k: int)
    requires
        0 <= k <= r.len(),
        forall|j: int| k <= j < r.len() ==> chars_lt(x.0, #[trigger] r[j].0),
        k == 0 || !chars_lt(x.0, r[k - 1].0),
    ensures
        insert_by_name(r, x) == r.insert(k, x),
    decreases r.len(),
{
    if k == r.len() {
        if r.len() > 0 {
            assert(r.last() == r[k - 1]);
        }
        assert(r.push(x) =~= r.insert(k, x));
    } else {
        let l = r.len() - 1;
        assert(r.last() == r[l]);
        assert(chars_lt(x.0, r[l].0));
        let d = r.drop_last();
        assert forall|j: int| k <= j < d.len() implies chars_lt(x.0, #[trigger] d[j].0) by {
            assert(d[j] == r[j]);
        }
        if k > 0 {
            assert(d[k - 1] == r[k - 1]);
        }
        lemma_insert_by_name_at(d, x, k);
        assert(d.insert(k, x).push(r.last()) =~= r.insert(k, x));
    }
}

/// Sorts `(name, path)` pairs by name, keeping the order of equal names.
pub fn sort_by_name(v: Vec<(String, String)>) -> (res: Vec<(String, String)>)
    ensures
        sorted_by_name(pairs_view(res@)),
        pairs_view(res@).to_multiset() == pairs_view(v@).to_multiset(),
        pairs_view(res@) == name_sort(pairs_view(v@)),
{
    let mut res: Vec<(String, String)> = Vec::new();
    let mut src = v;
    let ghost all = pairs_view(src@);
    let mut i: usize = 0;
    let n = src.len();
    assert(pairs_view(res@) =~= Seq::<(Seq<char>, Seq<char>)>::empty());
    assert(all.subrange(0, 0) =~= Seq::<(Seq<char>, Seq<char>)>::empty());
    while i < n
        invariant
            i <= n,
            n == all.len(),
            src@.len() == n - i,
            pairs_view(src@) == all.subrange(i as int, n as int),
            sorted_by_name(pairs_view(res@)),
            pairs_view(res@).to_multiset() == all.subrange(0, i as int).to_multiset(),
            pairs_view(res@) == name_sort(all.subrange(0, i as int)),
        decreases n - i,
    {
        let ghost s0 = src@;
        let x = src.remove(0);
        assert(src@ =~= s0.subrange(1, s0.len() as int));
        assert(pairs_view(s0)[0] == all.subrange(i as int, n as int)[0]);
        assert forall|j: int| 0 <= j < src@.len() implies pairs_view(src@)[j] == all.subrange(i + 1, n as int)[j] by {
            assert(src@[j] == s0[j + 1]);
            assert(pairs_view(s0)[j + 1] == all.subrange(i as int, n as int)[j + 1]);
        }
        assert(pairs_view(src@) =~= all.subrange(i + 1, n as int));
        let ghost xv = (x.0@, x.1@);
        assert(xv == all[i as int]);
        let xn = chars_of(x.0.as_str());
        let mut k: usize = res.len();
        let ghost rv = pairs_view(res@);
        while k > 0 && compare_chars(&xn, &chars_of(res[k - 1].0.as_str())) == -1
            invariant
                k <= res.len(),
                rv == pairs_view(res@),
                xn@ == xv.0,
                forall|j: int| k <= j < rv.len() ==> chars_lt(xv.0, #[trigger] rv[j].0),
            decreases k,
        {
            assert(rv[k - 1] == (res@[k - 1].0@, res@[k - 1].1@));
            k = k - 1;
        }
        proof {
            if k > 0 {
                assert(rv[k - 1] == (res@[k - 1].0@, res@[k - 1].1@));
            }
            lemma_insert_by_name_at(rv, xv, k as int);
            let pre = all.subrange(0, i + 1);
            assert(pre.drop_last() =~= all.subrange(0, i as int));
            assert(pre.last() == xv);
        }
        res.insert(k, x);
        let ghost nv = pairs_view(res@);
        assert(nv =~= rv.insert(k as int, xv));
        assert forall|a: int, b: int| 0 <= a < b < nv.len() implies !chars_lt(#[trigger] nv[b].0, #[trigger] nv[a].0) by {
            if a < k && b == k {
                assert(nv[a] == rv[a]);
                assert(nv[b] == xv);
                if k > 0 && chars_lt(xv.0, rv[a].0) {
                    crate::chars::lemma_chars_lt_total(xv.0, rv[k - 1].0);
                    if a < k - 1 {
                        assert(!chars_lt(rv[k - 1].0, rv[a].0));
                        if xv.0 != rv[k - 1].0 {
                            crate::chars::lemma_chars_lt_trans(rv[k - 1].0, xv.0, rv[a].0);
                        }
                    } else {
                        assert(a == k - 1);
                    }
                }
            } else if a < k && b > k {
                assert(nv[b] == rv[b - 1]);
            } else if a == k {
                assert(nv[b] == rv[b - 1]);
                crate::chars::lemma_chars_lt_asym(xv.0, rv[b - 1].0);
            } else if a > k {
                assert(nv[a] == rv[a - 1]);
                assert(nv[b] == rv[b - 1]);
            } else {
                assert(nv[a] == rv[a]);
                assert(nv[b] == rv[b]);
            }
        }
        proof {
            vstd::seq_lib::to_multiset_insert(rv, k as int, xv);
            assert(all.subrange(0, i + 1) =~= all.subrange(0, i as int).push(xv));
            vstd::seq_lib::to_multiset_build(all.subrange(0, i as int), xv);
        }
        i = i + 1;
    }
    assert(all.subrange(0, n as int) =~= all);
    res
}

/// A file node.
pub open spec fn file_node_spec(name: Seq<char>, path: Seq<char>, n: Node) -> bool {
    n.name@ == name && n.path@ == path && !n.is_dir && n.children@.len() == 0 && !n.expanded && !n.has_children
}

/// Whether a scanned subdirectory is shown: always, unless an include filter is active,
/// in which case only when it has content.
pub open spec fn subdir_visible(n: Node, include_mode: bool) -> bool {
    !include_mode || n.children@.len() > 0 || n.has_children
}

/// The nodes of the scanned subdirectories that are shown, in order.
pub open spec fn visible_subdirs(rs: Seq<ScanResult>, include_mode: bool) -> Seq<Node>
    decreases rs.len(),
{
    if rs.len() == 0 {
        Seq::empty()
    } else {
        let v = visible_subdirs(rs.drop_last(), include_mode);
        if subdir_visible(rs.last().node, include_mode) {
            v.push(rs.last().node)
        } else {
            v
        }
    }
}

/// The union of the excluded directory (`dirs`) or file names of the scanned subdirectories.
pub open spec fn sub_stats(rs: Seq<ScanResult>, dirs: bool) -> Set<Seq<char>>
    decreases rs.len(),
{
    if rs.len() == 0 {
        Set::empty()
    } else {
        sub_stats(rs.drop_last(), dirs).union(
            if dirs {
                rs.last().stats.excluded_dirs_found@
            } else {
                rs.last().stats.excluded_files_found@
            },
        )
    }
}

/// The file name of a directory path, or empty when it has none.
pub open spec fn dir_name_of(path: Seq<char>) -> Seq<char> {
    match crate::paths::file_name_spec(path) {
        Some(n) => n,
        None => Seq::empty(),
    }
}

/// Builds the node of a scanned directory (the assembly step of a scan): its file
/// children first, in the given order, then the shown subdirectories in order. The node
/// has content when it has a file, or a shown subdirectory that has children or content.
/// The exclusions met here and below are merged.
pub fn assemble_dir_node(
    path: String,
    files: Vec<(String, String)>,
    subdirs: Vec<ScanResult>,
    include_mode: bool,
    stats: ScanStats,
) -> (res: ScanResult)
    requires
        stats.wf(),
        forall|i: int| 0 <= i < subdirs@.len() ==> #[trigger] subdirs@[i].stats.wf(),
    ensures
        res.node.name@ == dir_name_of(path@),
        res.node.path == path,
        res.node.is_dir,
        res.node.expanded,
        res.node.children@.len() == files@.len() + visible_subdirs(subdirs@, include_mode).len(),
        forall|i: int| 0 <= i < files@.len() ==> file_node_spec(files@[i].0@, files@[i].1@, #[trigger] res.node.children@[i]),
        res.node.children@.subrange(files@.len() as int, res.node.children@.len() as int) == visible_subdirs(subdirs@, include_mode),
        res.node.has_children == (files@.len() > 0 || exists|i: int| 0 <= i < subdirs@.len() && subdir_visible(#[trigger] subdirs@[i].node, include_mode) && (subdirs@[i].node.children@.len() > 0 || subdirs@[i].node.has_children)),
        res.stats.wf(),
        res.stats.excluded_dirs_found@ == stats.excluded_dirs_found@.union(sub_stats(subdirs@, true)),
        res.stats.excluded_files_found@ == stats.excluded_files_found@.union(sub_stats(subdirs@, false)),
{
    let name = match crate::paths::path_file_name(path.as_str()) {
        Some(n) => crate::chars::string_of(n.as_slice()),
        None => String::new(),
    };
    let mut children: Vec<Node> = Vec::new();
    let mut has_children = false;
    let mut i: usize = 0;
    while i < files.len()
        invariant
            i <= files.len(),
            children@.len() == i,
            has_children == (i > 0),
            forall|j: int| 0 <= j < i ==> file_node_spec(files@[j].0@, files@[j].1@, #[trigger] children@[j]),
        decreases files.len() - i,
    {
        has_children = true;
        children.push(Node {
            name: files[i].0.clone(),
            path: files[i].1.clone(),
            is_dir: false,
            children: Vec::new(),
            expanded: false,
            has_children: false,
        });
        i = i + 1;
    }
    let nf = files.len();
    let mut stats = stats;
    let ghost stats0 = stats;
    let mut rest = subdirs;
    let ghost all = rest@;
    let mut k: usize = 0;
    let n = rest.len();
    assert(all.subrange(0, 0) =~= Seq::<ScanResult>::empty());
    assert(children@.subrange(nf as int, children@.len() as int) =~= Seq::<Node>::empty());
    while k < n
        invariant
            k <= n,
            n == all.len(),
            rest@ == all.subrange(k as int, n as int),
            forall|j: int| 0 <= j < all.len() ==> #[trigger] all[j].stats.wf(),
            nf == files@.len(),
            children@.len() == nf + visible_subdirs(all.subrange(0, k as int), include_mode).len(),
            forall|j: int| 0 <= j < nf ==> file_node_spec(files@[j].0@, files@[j].1@, #[trigger] children@[j]),
            children@.subrange(nf as int, children@.len() as int) == visible_subdirs(all.subrange(0, k as int), include_mode),
            has_children == (nf > 0 || exists|j: int| 0 <= j < k && subdir_visible(#[trigger] all[j].node, include_mode) && (all[j].node.children@.len() > 0 || all[j].node.has_children)),
            stats.wf(),
            stats.excluded_dirs_found@ == stats0.excluded_dirs_found@.union(sub_stats(all.subrange(0, k as int), true)),
            stats.excluded_files_found@ == stats0.excluded_files_found@.union(sub_stats(all.subrange(0, k as int), false)),
        decreases n - k,
    {
        let sub = rest.remove(0);
        assert(sub == all[k as int]);
        assert(rest@ =~= all.subrange(k + 1, n as int));
        let ghost prev = all.subrange(0, k as int);
        let ghost cur = all.subrange(0, k + 1);
        assert(cur.drop_last() =~= prev);
        assert(cur.last() == sub);
        stats.excluded_dirs_found.extend_from(&sub.stats.excluded_dirs_found);
        stats.excluded_files_found.extend_from(&sub.stats.excluded_files_found);
        assert(stats.excluded_dirs_found@ =~= stats0.excluded_dirs_found@.union(sub_stats(cur, true)));
        assert(stats.excluded_files_found@ =~= stats0.excluded_files_found@.union(sub_stats(cur, false)));
        let child = sub.node;
        let visible = if include_mode {
            child.children.len() > 0 || child.has_children
        } else {
            true
        };
        let ghost c0 = children@;
        if visible {
            has_children = has_children || child.children.len() > 0 || child.has_children;
            children.push(child);
            assert(children@.subrange(nf as int, children@.len() as int) =~= c0.subrange(nf as int, c0.len() as int).push(all[k as int].node));
        }
        k = k + 1;
    }
    assert(all.subrange(0, n as int) =~= all);
    ScanResult {
        node: Node { name, path, is_dir: true, children, expanded: true, has_children },
        stats,
    }
}

/* ------------------------------ scanned shape ------------------------------ */

/// Whether the children of a scanned directory are laid out as a scan lays them out under
/// the filters: the files first, then the directories; the files and the directories each
/// in name order; each file a leaf whose name is not excluded and which passes the extension
/// filters; each directory's name not excluded and, under an include filter, the directory
/// having content.
pub open spec fn children_laid_out(
    cs: Seq<Node>,
    inc: Set<Seq<char>>,
    exc: Set<Seq<char>>,
    exdirs: Set<Seq<char>>,
    exfiles: Set<Seq<char>>,
) -> bool {
    &&& forall|i: int, j: int| 0 <= i < j < cs.len() && (#[trigger] cs[i]).is_dir ==> (#[trigger] cs[j]).is_dir
    &&& forall|i: int, j: int|
        0 <= i < j < cs.len() && (#[trigger] cs[i]).is_dir == (#[trigger] cs[j]).is_dir ==> !chars_lt(cs[j].name@, cs[i].name@)
    &&& forall|i: int| 0 <= i < cs.len() && !(#[trigger] cs[i]).is_dir ==> {
        &&& cs[i].children@.len() == 0 && !cs[i].expanded && !cs[i].has_children
        &&& !exfiles.contains(cs[i].name@)
        &&& file_passes(cs[i].path@, inc, exc)
    }
    &&& forall|i: int| 0 <= i < cs.len() && (#[trigger] cs[i]).is_dir ==> {
        &&& !exdirs.contains(cs[i].name@)
        &&& (inc.len() > 0 ==> cs[i].children@.len() > 0 || cs[i].has_children)
    }
}

/// Whether the tree at `n` is shaped as a scan under the filters builds it: every directory
/// is expanded, its children are laid out as `children_laid_out` says, and it has content
/// exactly when a child is a file or a directory with children or content.
pub open spec fn scan_shaped(
    n: Node,
    inc: Set<Seq<char>>,
    exc: Set<Seq<char>>,
    exdirs: Set<Seq<char>>,
    exfiles: Set<Seq<char>>,
) -> bool
    decreases n, 1nat,
{
    &&& n.is_dir
    &&& n.expanded
    &&& children_laid_out(n.children@, inc, exc, exdirs, exfiles)
    &&& n.has_children == (exists|i: int|
        0 <= i < n.children@.len() && (!(#[trigger] n.children@[i]).is_dir || n.children@[i].children@.len() > 0
            || n.children@[i].has_children))
    &&& forest_scan_shaped(n.children@, inc, exc, exdirs, exfiles)
}

/// Whether every directory among the trees `cs` is shaped as a scan builds it.
pub open spec fn forest_scan_shaped(
    cs: Seq<Node>,
    inc: Set<Seq<char>>,
    exc: Set<Seq<char>>,
    exdirs: Set<Seq<char>>,
    exfiles: Set<Seq<char>>,
) -> bool
    decreases cs, 0nat,
{
    if cs.len() == 0 {
        true
    } else {
        forest_scan_shaped(cs.drop_last(), inc, exc, exdirs, exfiles) && (cs.last().is_dir ==> scan_shaped(
            cs.last(),
            inc,
            exc,
            exdirs,
            exfiles,
        ))
    }
}

proof fn lemma_forest_scan_shaped(
    cs: Seq<Node>,
    inc: Set<Seq<char>>,
    exc: Set<Seq<char>>,
    exdirs: Set<Seq<char>>,
    exfiles: Set<Seq<char>>,
)
    requires
        forall|i: int| 0 <= i < cs.len() && (#[trigger] cs[i]).is_dir ==> scan_shaped(cs[i], inc, exc, exdirs, exfiles),
    ensures
        forest_scan_shaped(cs, inc, exc, exdirs, exfiles),
    decreases cs.len(),
{
    if cs.len() > 0 {
        let d = cs.drop_last();
        assert forall|i: int| 0 <= i < d.len() && (#[trigger] d[i]).is_dir implies scan_shaped(d[i], inc, exc, exdirs, exfiles) by {
            assert(d[i] == cs[i]);
        }
        lemma_forest_scan_shaped(d, inc, exc, exdirs, exfiles);
        assert(cs.last() == cs[cs.len() - 1]);
    }
}

/// The shown subdirectories are some of the scanned ones, in their order, each shown.
proof fn lemma_visible_subdirs_order(rs: Seq<ScanResult>, include_mode: bool)
    ensures
        forall|a: int| 0 <= a < visible_subdirs(rs, include_mode).len() ==> exists|i: int|
            0 <= i < rs.len() && rs[i].node == #[trigger] visible_subdirs(rs, include_mode)[a] && subdir_visible(
                rs[i].node,
                include_mode,
            ),
        forall|a: int, b: int|
            0 <= a < b < visible_subdirs(rs, include_mode).len() ==> exists|i: int, j: int|
                0 <= i < j < rs.len() && rs[i].node == #[trigger] visible_subdirs(rs, include_mode)[a] && rs[j].node
                    == #[trigger] visible_subdirs(rs, include_mode)[b],
    decreases rs.len(),
{
    if rs.len() > 0 {
        let d = rs.drop_last();
        lemma_visible_subdirs_order(d, include_mode);
        let v = visible_subdirs(d, include_mode);
        let w = visible_subdirs(rs, include_mode);
        let last = rs.len() - 1;
        assert(rs[last] == rs.last());
        assert forall|a: int| 0 <= a < w.len() implies exists|i: int|
            0 <= i < rs.len() && rs[i].node == #[trigger] w[a] && subdir_visible(rs[i].node, include_mode) by {
            if a < v.len() {
                assert(w[a] == v[a]);
                let i = choose|i: int| 0 <= i < d.len() && d[i].node == #[trigger] v[a] && subdir_visible(d[i].node, include_mode);
                assert(rs[i] == d[i]);
            } else {
                assert(w[a] == rs[last].node);
            }
        }
        assert forall|a: int, b: int| 0 <= a < b < w.len() implies exists|i: int, j: int|
            0 <= i < j < rs.len() && rs[i].node == #[trigger] w[a] && rs[j].node == #[trigger] w[b] by {
            if b < v.len() {
                assert(w[a] == v[a] && w[b] == v[b]);
                let (i, j) = choose|i: int, j: int| 0 <= i < j < d.len() && d[i].node == #[trigger] v[a] && d[j].node == #[trigger] v[b];
                assert(rs[i] == d[i] && rs[j] == d[j]);
            } else {
                assert(w[a] == v[a]);
                assert(w[b] == rs[last].node);
                let i = choose|i: int| 0 <= i < d.len() && d[i].node == #[trigger] v[a] && subdir_visible(d[i].node, include_mode);
                assert(rs[i] == d[i]);
                assert(rs[i].node == w[a] && rs[last].node == w[b]);
            }
        }
    }
}

/// A directory node built by the assembly step of a scan is shaped as a scan builds it,
/// when the files given to it are in name order and kept by the filters, the include mode is
/// that of the filters, and the scanned subdirectories are shaped, in name order and not
/// excluded. So, by induction over the scan, every directory of a scanned tree is shaped so.
pub proof fn lemma_assembled_scan_shaped(
    files: Seq<(Seq<char>, Seq<char>)>,
    subdirs: Seq<ScanResult>,
    include_mode: bool,
    n: Node,
    inc: Set<Seq<char>>,
    exc: Set<Seq<char>>,
    exdirs: Set<Seq<char>>,
    exfiles: Set<Seq<char>>,
)
    requires
        n.is_dir,
        n.expanded,
        n.children@.len() == files.len() + visible_subdirs(subdirs, include_mode).len(),
        forall|i: int| 0 <= i < files.len() ==> file_node_spec(files[i].0, files[i].1, #[trigger] n.children@[i]),
        n.children@.subrange(files.len() as int, n.children@.len() as int) == visible_subdirs(subdirs, include_mode),
        n.has_children == (files.len() > 0 || exists|i: int|
            0 <= i < subdirs.len() && subdir_visible(#[trigger] subdirs[i].node, include_mode) && (
            subdirs[i].node.children@.len() > 0 || subdirs[i].node.has_children)),
        sorted_by_name(files),
        forall|i: int| 0 <= i < files.len() ==> !exfiles.contains((#[trigger] files[i]).0) && file_passes(files[i].1, inc, exc),
        include_mode == (inc.len() > 0),
        forall|i: int| 0 <= i < subdirs.len() ==> scan_shaped((#[trigger] subdirs[i]).node, inc, exc, exdirs, exfiles)
            && !exdirs.contains(subdirs[i].node.name@),
        forall|i: int, j: int| 0 <= i < j < subdirs.len() ==> !chars_lt((#[trigger] subdirs[j]).node.name@, (#[trigger] subdirs[i]).node.name@),
    ensures
        scan_shaped(n, inc, exc, exdirs, exfiles),
{
    let cs = n.children@;
    let nf = files.len() as int;
    let v = visible_subdirs(subdirs, include_mode);
    lemma_visible_subdirs_order(subdirs, include_mode);
    assert forall|b: int| nf <= b < cs.len() implies #[trigger] cs[b] == v[b - nf] by {
        assert(cs.subrange(nf, cs.len() as int)[b - nf] == cs[b]);
    }
    assert forall|b: int| nf <= b < cs.len() implies scan_shaped(#[trigger] cs[b], inc, exc, exdirs, exfiles) && !exdirs.contains(cs[b].name@)
        && subdir_visible(cs[b], include_mode) by {
        assert(cs[b] == v[b - nf]);
        let i = choose|i: int| 0 <= i < subdirs.len() && subdirs[i].node == #[trigger] v[b - nf] && subdir_visible(subdirs[i].node, include_mode);
        assert(scan_shaped(subdirs[i].node, inc, exc, exdirs, exfiles));
    }
    assert(children_laid_out(cs, inc, exc, exdirs, exfiles)) by {
        assert forall|i: int, j: int| 0 <= i < j < cs.len() && (#[trigger] cs[i]).is_dir implies (#[trigger] cs[j]).is_dir by {
            if i < nf {
                assert(file_node_spec(files[i].0, files[i].1, cs[i]));
            }
            assert(scan_shaped(cs[j], inc, exc, exdirs, exfiles));
        }
        assert forall|i: int, j: int|
            0 <= i < j < cs.len() && (#[trigger] cs[i]).is_dir == (#[trigger] cs[j]).is_dir implies !chars_lt(cs[j].name@, cs[i].name@) by {
            if j < nf {
                assert(file_node_spec(files[i].0, files[i].1, cs[i]));
                assert(file_node_spec(files[j].0, files[j].1, cs[j]));
                assert(!chars_lt(files[j].0, files[i].0));
            } else if i >= nf {
                assert(cs[i] == v[i - nf] && cs[j] == v[j - nf]);
                let (x, y) = choose|x: int, y: int| 0 <= x < y < subdirs.len() && subdirs[x].node == #[trigger] v[i - nf] && subdirs[y].node == #[trigger] v[j - nf];
                assert(!chars_lt(subdirs[y].node.name@, subdirs[x].node.name@));
            } else {
                assert(file_node_spec(files[i].0, files[i].1, cs[i]));
                assert(scan_shaped(cs[j], inc, exc, exdirs, exfiles));
            }
        }
        assert forall|i: int| 0 <= i < cs.len() && !(#[trigger] cs[i]).is_dir implies {
            &&& cs[i].children@.len() == 0 && !cs[i].expanded && !cs[i].has_children
            &&& !exfiles.contains(cs[i].name@)
            &&& file_passes(cs[i].path@, inc, exc)
        } by {
            if i < nf {
                assert(file_node_spec(files[i].0, files[i].1, cs[i]));
                assert(!exfiles.contains(files[i].0));
            } else {
                assert(scan_shaped(cs[i], inc, exc, exdirs, exfiles));
            }
        }
        assert forall|i: int| 0 <= i < cs.len() && (#[trigger] cs[i]).is_dir implies {
            &&& !exdirs.contains(cs[i].name@)
            &&& (inc.len() > 0 ==> cs[i].children@.len() > 0 || cs[i].has_children)
        } by {
            if i < nf {
                assert(file_node_spec(files[i].0, files[i].1, cs[i]));
            }
        }
    }
    assert(n.has_children == (exists|i: int|
        0 <= i < cs.len() && (!(#[trigger] cs[i]).is_dir || cs[i].children@.len() > 0 || cs[i].has_children))) by {
        if n.has_children {
            if nf > 0 {
                assert(file_node_spec(files[0].0, files[0].1, cs[0]));
                assert(!cs[0].is_dir);
            } else {
                let i = choose|i: int|
                    0 <= i < subdirs.len() && subdir_visible(#[trigger] subdirs[i].node, include_mode) && (
                    subdirs[i].node.children@.len() > 0 || subdirs[i].node.has_children);
                lemma_visible_contains(subdirs, include_mode, i);
                let a = choose|a: int| 0 <= a < v.len() && v[a] == subdirs[i].node;
                assert(cs[nf + a] == v[a]);
            }
        }
        if exists|i: int| 0 <= i < cs.len() && (!(#[trigger] cs[i]).is_dir || cs[i].children@.len() > 0 || cs[i].has_children) {
            let i = choose|i: int| 0 <= i < cs.len() && (!(#[trigger] cs[i]).is_dir || cs[i].children@.len() > 0 || cs[i].has_children);
            if i >= nf {
                assert(cs[i] == v[i - nf]);
                let x = choose|x: int| 0 <= x < subdirs.len() && subdirs[x].node == #[trigger] v[i - nf] && subdir_visible(subdirs[x].node, include_mode);
                assert(scan_shaped(subdirs[x].node, inc, exc, exdirs, exfiles));
                assert(subdirs[x].node.children@.len() > 0 || subdirs[x].node.has_children);
            }
        }
    }
    assert forall|i: int| 0 <= i < cs.len() && (#[trigger] cs[i]).is_dir implies scan_shaped(cs[i], inc, exc, exdirs, exfiles) by {
        if i < nf {
            assert(file_node_spec(files[i].0, files[i].1, cs[i]));
        }
    }
    lemma_forest_scan_shaped(cs, inc, exc, exdirs, exfiles);
}

/// Whether some node below `n` is a file.
pub open spec fn file_below(n: Node) -> bool
    decreases n, 1nat,
{
    forest_file_below(n.children@)
}

/// Whether one of the trees `cs` is a file or has a file below it.
pub open spec fn forest_file_below(cs: Seq<Node>) -> bool
    decreases cs, 0nat,
{
    cs.len() > 0 && (forest_file_below(cs.drop_last()) || !cs.last().is_dir || file_below(cs.last()))
}

proof fn lemma_forest_file_below_witness(cs: Seq<Node>)
    requires
        forest_file_below(cs),
    ensures
        exists|i: int| 0 <= i < cs.len() && (!(#[trigger] cs[i]).is_dir || cs[i].children@.len() > 0),
    decreases cs.len(),
{
    let d = cs.drop_last();
    let l = cs.len() - 1;
    assert(cs[l] == cs.last());
    if forest_file_below(d) {
        lemma_forest_file_below_witness(d);
        let i = choose|i: int| 0 <= i < d.len() && (!(#[trigger] d[i]).is_dir || d[i].children@.len() > 0);
        assert(cs[i] == d[i]);
    } else if cs.last().is_dir {
        assert(file_below(cs.last()));
        assert(file_below(cs.last()) == forest_file_below(cs.last().children@));
        assert(cs[l].children@.len() > 0);
    }
}

/// In a tree shaped as a scan builds it, a directory with a file anywhere below it has
/// content, so `dir_contains_file` holds of it.
pub proof fn lemma_file_below_has_content(
    n: Node,
    inc: Set<Seq<char>>,
    exc: Set<Seq<char>>,
    exdirs: Set<Seq<char>>,
    exfiles: Set<Seq<char>>,
)
    requires
        scan_shaped(n, inc, exc, exdirs, exfiles),
        file_below(n),
    ensures
        n.has_children,
        contains_file_spec(&n),
{
    lemma_forest_file_below_witness(n.children@);
    let i = choose|i: int| 0 <= i < n.children@.len() && (!(#[trigger] n.children@[i]).is_dir || n.children@[i].children@.len() > 0);
    assert(!n.children@[i].is_dir || n.children@[i].children@.len() > 0 || n.children@[i].has_children);
}

/// Each directory among trees shaped as a scan builds them is shaped so.
proof fn lemma_forest_scan_shaped_at(
    cs: Seq<Node>,
    inc: Set<Seq<char>>,
    exc: Set<Seq<char>>,
    exdirs: Set<Seq<char>>,
    exfiles: Set<Seq<char>>,
    i: int,
)
    requires
        forest_scan_shaped(cs, inc, exc, exdirs, exfiles),
        0 <= i < cs.len(),
        cs[i].is_dir,
    ensures
        scan_shaped(cs[i], inc, exc, exdirs, exfiles),
    decreases cs.len(),
{
    if i < cs.len() - 1 {
        assert(cs.drop_last()[i] == cs[i]);
        lemma_forest_scan_shaped_at(cs.drop_last(), inc, exc, exdirs, exfiles, i);
    } else {
        assert(cs.last() == cs[i]);
    }
}

/// Trees of which one is a file or has a file below it have a file among or below them.
proof fn lemma_forest_file_below_at(cs: Seq<Node>, i: int)
    requires
        0 <= i < cs.len(),
        !cs[i].is_dir || file_below(cs[i]),
    ensures
        forest_file_below(cs),
    decreases cs.len(),
{
    if i < cs.len() - 1 {
        assert(cs.drop_last()[i] == cs[i]);
        lemma_forest_file_below_at(cs.drop_last(), i);
    } else {
        assert(cs.last() == cs[i]);
    }
}

/// Under an include filter, every directory shown in a tree shaped as a scan builds it has
/// a file somewhere below it: a directory with no matching file below is not shown.
pub proof fn lemma_include_mode_shown_dirs_hold_files(
    n: Node,
    inc: Set<Seq<char>>,
    exc: Set<Seq<char>>,
    exdirs: Set<Seq<char>>,
    exfiles: Set<Seq<char>>,
)
    requires
        scan_shaped(n, inc, exc, exdirs, exfiles),
        inc.len() > 0,
    ensures
        forall|i: int| 0 <= i < n.children@.len() && (#[trigger] n.children@[i]).is_dir ==> file_below(n.children@[i]),
    decreases n,
{
    assert forall|i: int| 0 <= i < n.children@.len() && (#[trigger] n.children@[i]).is_dir implies file_below(n.children@[i]) by {
        let d = n.children@[i];
        lemma_forest_scan_shaped_at(n.children@, inc, exc, exdirs, exfiles, i);
        assert(d.children@.len() > 0 || d.has_children);
        if d.children@.len() == 0 {
            assert(d.has_children);
            let k = choose|k: int| 0 <= k < d.children@.len() && (!(#[trigger] d.children@[k]).is_dir || d.children@[k].children@.len() > 0
                || d.children@[k].has_children);
            assert(false);
        }
        let c = d.children@[0];
        if c.is_dir {
            lemma_include_mode_shown_dirs_hold_files(d, inc, exc, exdirs, exfiles);
            assert(file_below(d.children@[0]));
        }
        lemma_forest_file_below_at(d.children@, 0);
    }
}

/// A shown subdirectory is among the shown ones.
proof fn lemma_visible_contains(rs: Seq<ScanResult>, include_mode: bool, i: int)
    requires
        0 <= i < rs.len(),
        subdir_visible(rs[i].node, include_mode),
    ensures
        exists|a: int| 0 <= a < visible_subdirs(rs, include_mode).len() && visible_subdirs(rs, include_mode)[a] == rs[i].node,
    decreases rs.len(),
{
    let d = rs.drop_last();
    let v = visible_subdirs(d, include_mode);
    if i < rs.len() - 1 {
        assert(d[i] == rs[i]);
        lemma_visible_contains(d, include_mode, i);
        let a = choose|a: int| 0 <= a < v.len() && v[a] == d[i].node;
        if subdir_visible(rs.last().node, include_mode) {
            assert(visible_subdirs(rs, include_mode) == v.push(rs.last().node));
            assert(visible_subdirs(rs, include_mode)[a] == v[a]);
        } else {
            assert(visible_subdirs(rs, include_mode) == v);
        }
        assert(visible_subdirs(rs, include_mode)[a] == rs[i].node);
    } else {
        assert(rs.last() == rs[i]);
        assert(visible_subdirs(rs, include_mode) == v.push(rs.last().node));
        assert(visible_subdirs(rs, include_mode)[v.len() as int] == rs[i].node);
    }
}

/* ------------------------------ rows shown ------------------------------ */

/// One row of the tree view: a node's path and name, its depth, whether it is a directory
/// and shown expanded, whether it is checked, and whether it has children.
#[derive(Debug, Clone)]
pub struct Row {
    pub path: String,
    pub name: String,
    pub level: usize,
    pub is_dir: bool,
    pub expanded: bool,
    pub checked: bool,
    pub has_children: bool,
}

/// What a row shows: path, name, level, directory, expanded, checked, has children.
pub type RowView = (Seq<char>, Seq<char>, nat, bool, bool, bool, bool);

/// The views of rows.
pub open spec fn rows_view(v: Seq<Row>) -> Seq<RowView> {
    v.map_values(|r: Row| (r.path@, r.name@, r.level as nat, r.is_dir, r.expanded, r.checked, r.has_children))
}

/// The number of nodes on the longest downward path from `n`.
pub open spec fn tree_depth(n: Node) -> nat
    decreases n, 1nat,
{
    1 + forest_depth(n.children@)
}

/// The largest depth among the trees `cs`.
pub open spec fn forest_depth(cs: Seq<Node>) -> nat
    decreases cs, 0nat,
{
    if cs.len() == 0 {
        0
    } else {
        let a = forest_depth(cs.drop_last());
        let b = tree_depth(cs.last());
        if a >= b {
            a
        } else {
            b
        }
    }
}

/// The rows of the tree at `n` at depth `level`: the node, then, for an expanded directory,
/// the rows of its children one level deeper, each inheriting the node's check state.
pub open spec fn flat_rows(n: Node, explicit: Map<Seq<char>, bool>, inherited: Option<bool>, level: nat) -> Seq<RowView>
    decreases n, 1nat,
{
    let eff = effective_state(explicit, n.path@, inherited);
    seq![(n.path@, n.name@, level, n.is_dir, n.is_dir && n.expanded, eff, n.children@.len() > 0)] + (if n.is_dir
        && n.expanded {
        flat_forest(n.children@, explicit, eff, level + 1)
    } else {
        Seq::empty()
    })
}

/// The rows of the trees `cs` at depth `level`, each inheriting `eff`.
pub open spec fn flat_forest(cs: Seq<Node>, explicit: Map<Seq<char>, bool>, eff: bool, level: nat) -> Seq<RowView>
    decreases cs, 0nat,
{
    if cs.len() == 0 {
        Seq::empty()
    } else {
        flat_forest(cs.drop_last(), explicit, eff, level) + flat_rows(cs.last(), explicit, Some(eff), level)
    }
}

proof fn lemma_forest_depth_bound(cs: Seq<Node>, i: int)
    requires
        0 <= i < cs.len(),
    ensures
        tree_depth(cs[i]) <= forest_depth(cs),
    decreases cs.len(),
{
    if i < cs.len() - 1 {
        assert(cs.drop_last()[i] == cs[i]);
        lemma_forest_depth_bound(cs.drop_last(), i);
    }
}

fn flatten_rec(n: &Node, explicit: &SelectionMap, inherited: Option<bool>, level: usize, rows: &mut Vec<Row>)
    requires
        explicit.wf(),
        level + tree_depth(*n) <= usize::MAX,
    ensures
        rows_view(final(rows)@) == rows_view(old(rows)@) + flat_rows(*n, explicit@, inherited, level as nat),
    decreases *n, 1nat,
{
    let eff = match explicit.get(n.path.as_str()) {
        Some(b) => b,
        None => match inherited {
            Some(b) => b,
            None => false,
        },
    };
    let ghost r0 = rows_view(rows@);
    rows.push(Row {
        path: n.path.clone(),
        name: n.name.clone(),
        level,
        is_dir: n.is_dir,
        expanded: if n.is_dir { n.expanded } else { false },
        checked: eff,
        has_children: n.children.len() > 0,
    });
    let ghost me = (n.path@, n.name@, level as nat, n.is_dir, n.is_dir && n.expanded, eff, n.children@.len() > 0);
    assert(rows_view(rows@) =~= r0.push(me));
    if n.is_dir && n.expanded {
        let ghost r1 = rows_view(rows@);
        flatten_forest_rec(&n.children, explicit, eff, level + 1, rows);
        assert(rows_view(rows@) =~= r0 + flat_rows(*n, explicit@, inherited, level as nat));
    } else {
        assert(rows_view(rows@) =~= r0 + flat_rows(*n, explicit@, inherited, level as nat));
    }
}

fn flatten_forest_rec(cs: &Vec<Node>, explicit: &SelectionMap, eff: bool, level: usize, rows: &mut Vec<Row>)
    requires
        explicit.wf(),
        level + forest_depth(cs@) <= usize::MAX,
    ensures
        rows_view(final(rows)@) == rows_view(old(rows)@) + flat_forest(cs@, explicit@, eff, level as nat),
    decreases cs@, 0nat,
{
    let ghost r0 = rows_view(rows@);
    let mut i: usize = 0;
    assert(cs@.subrange(0, 0) =~= Seq::<Node>::empty());
    assert(r0 =~= r0 + Seq::<RowView>::empty());
    while i < cs.len()
        invariant
            i <= cs.len(),
            explicit.wf(),
            level + forest_depth(cs@) <= usize::MAX,
            rows_view(rows@) == r0 + flat_forest(cs@.subrange(0, i as int), explicit@, eff, level as nat),
        decreases cs.len() - i,
    {
        assert(cs@.subrange(0, i + 1).drop_last() =~= cs@.subrange(0, i as int));
        assert(cs@.subrange(0, i + 1).last() == cs@[i as int]);
        assert(decreases_to!(cs@ => cs@[i as int]));
        proof {
            lemma_forest_depth_bound(cs@, i as int);
        }
        flatten_rec(&cs[i], explicit, Some(eff), level, rows);
        i = i + 1;
        assert(rows_view(rows@) =~= r0 + flat_forest(cs@.subrange(0, i as int), explicit@, eff, level as nat));
    }
    assert(cs@.subrange(0, cs.len() as int) =~= cs@);
}

/// The rows that the tree view shows for the tree at `root`, starting at depth `level`:
/// depth-first, children only below expanded directories, each row checked by its
/// effective state.
pub fn flatten_tree(root: &Node, explicit: &SelectionMap, inherited: Option<bool>, level: usize) -> (rows: Vec<Row>)
    requires
        explicit.wf(),
        level + tree_depth(*root) <= usize::MAX,
    ensures
        rows_view(rows@) == flat_rows(*root, explicit@, inherited, level as nat),
{
    let mut rows: Vec<Row> = Vec::new();
    flatten_rec(root, explicit, inherited, level, &mut rows);
    assert(rows_view(rows@) =~= flat_rows(*root, explicit@, inherited, level as nat));
    rows
}

/* ------------------------------ expanding ------------------------------ */

/// Whether the search for `t` from `n` ends at a directory: the search stops at the first
/// node whose path is `t` and does not descend below it; it succeeds when that node is a
/// directory.
pub open spec fn expand_hit(n: Node, t: Seq<char>) -> bool
    decreases n, 1nat,
{
    if n.path@ == t {
        n.is_dir
    } else {
        forest_hit(n.children@, t)
    }
}

/// Whether the search for `t` succeeds in one of the trees `cs`.
pub open spec fn forest_hit(cs: Seq<Node>, t: Seq<char>) -> bool
    decreases cs, 0nat,
{
    if cs.len() == 0 {
        false
    } else {
        forest_hit(cs.drop_last(), t) || expand_hit(cs.last(), t)
    }
}

/// `new` is `old` after the search for `t`: the directory where the search succeeds has its
/// `expanded` flag flipped; everything else is as it was.
pub open spec fn toggled_node(old: Node, new: Node, t: Seq<char>) -> bool
    decreases old, 1nat,
{
    &&& new.name == old.name
    &&& new.path == old.path
    &&& new.is_dir == old.is_dir
    &&& new.has_children == old.has_children
    &&& if old.path@ == t {
        new.children@ == old.children@ && new.expanded == (old.expanded != old.is_dir)
    } else {
        new.expanded == old.expanded && toggled_forest(old.children@, new.children@, t)
    }
}

/// `b` is `a` after the search for `t`: the trees up to the first one where the search
/// succeeds are searched; the ones after it are left as they are.
pub open spec fn toggled_forest(a: Seq<Node>, b: Seq<Node>, t: Seq<char>) -> bool
    decreases a, 0nat,
{
    if a.len() == 0 {
        b.len() == 0
    } else {
        &&& b.len() == a.len()
        &&& toggled_forest(a.drop_last(), b.drop_last(), t)
        &&& if forest_hit(a.drop_last(), t) {
            b.last() == a.last()
        } else {
            toggled_node(a.last(), b.last(), t)
        }
    }
}

proof fn lemma_toggled_forest_extend(a: Seq<Node>, b: Seq<Node>, rest: Seq<Node>, t: Seq<char>)
    requires
        toggled_forest(a, b, t),
        forest_hit(a, t),
    ensures
        toggled_forest(a + rest, b + rest, t),
        forest_hit(a + rest, t),
    decreases rest.len(),
{
    if rest.len() == 0 {
        assert(a + rest =~= a);
        assert(b + rest =~= b);
    } else {
        lemma_toggled_forest_extend(a, b, rest.drop_last(), t);
        assert((a + rest).drop_last() =~= a + rest.drop_last());
        assert((b + rest).drop_last() =~= b + rest.drop_last());
    }
}

fn toggle_rec(n: &mut Node, target: &str) -> (found: bool)
    ensures
        found == expand_hit(*old(n), target@),
        toggled_node(*old(n), *final(n), target@),
    decreases *old(n), 1nat,
{
    if crate::text::str_eq(n.path.as_str(), target) {
        if n.is_dir {
            n.expanded = !n.expanded;
            return true;
        }
        return false;
    }
    assert(decreases_to!(*old(n) => old(n).children@));
    let found = toggle_forest(&mut n.children, target);
    found
}

fn toggle_forest(cs: &mut Vec<Node>, target: &str) -> (found: bool)
    ensures
        found == forest_hit(old(cs)@, target@),
        toggled_forest(old(cs)@, final(cs)@, target@),
    decreases old(cs)@, 0nat,
{
    let ghost a = cs@;
    let ghost t = target@;
    let len = cs.len();
    let mut i: usize = 0;
    assert(a.subrange(0, 0) =~= Seq::<Node>::empty());
    assert(cs@.subrange(0, 0) =~= Seq::<Node>::empty());
    while i < len
        invariant
            i <= len == a.len() == cs@.len(),
            a == old(cs)@,
            t == target@,
            toggled_forest(a.subrange(0, i as int), cs@.subrange(0, i as int), t),
            !forest_hit(a.subrange(0, i as int), t),
            cs@.subrange(i as int, len as int) == a.subrange(i as int, len as int),
        decreases len - i,
    {
        let ghost before = cs@;
        assert(before[i as int] == before.subrange(i as int, len as int)[0]);
        assert(before[i as int] == a[i as int]);
        assert(before.subrange(i + 1, len as int) =~= before.subrange(i as int, len as int).drop_first());
        assert(a.subrange(i + 1, len as int) =~= a.subrange(i as int, len as int).drop_first());
        let mut c = cs.remove(i);
        assert(decreases_to!(old(cs)@ => a[i as int]));
        let f = toggle_rec(&mut c, target);
        cs.insert(i, c);
        proof {
            assert(a.subrange(0, i + 1).drop_last() =~= a.subrange(0, i as int));
            assert(cs@.subrange(0, i + 1).drop_last() =~= before.subrange(0, i as int));
            assert(cs@.subrange(0, i + 1).last() == c);
            assert(cs@.subrange(i + 1, len as int) =~= before.subrange(i + 1, len as int));
            assert(before.subrange(0, i as int) =~= cs@.subrange(0, i as int));
        }
        if f {
            proof {
                lemma_toggled_forest_extend(
                    a.subrange(0, i + 1),
                    cs@.subrange(0, i + 1),
                    a.subrange(i + 1, len as int),
                    t,
                );
                assert(before.subrange(i + 1, len as int) =~= a.subrange(i + 1, len as int));
                assert(a.subrange(0, i + 1) + a.subrange(i + 1, len as int) =~= a);
                assert(cs@.subrange(0, i + 1) + a.subrange(i + 1, len as int) =~= cs@);
            }
            return true;
        }
        i = i + 1;
    }
    assert(a.subrange(0, len as int) =~= a);
    assert(cs@.subrange(0, len as int) =~= cs@);
    false
}

proof fn lemma_toggle_forest_symmetric(a: Seq<Node>, b: Seq<Node>, t: Seq<char>)
    requires
        toggled_forest(a, b, t),
    ensures
        toggled_forest(b, a, t),
        forest_hit(b, t) == forest_hit(a, t),
    decreases a, 0nat,
{
    if a.len() > 0 {
        lemma_toggle_forest_symmetric(a.drop_last(), b.drop_last(), t);
        if !forest_hit(a.drop_last(), t) {
            assert(decreases_to!(a => a.last()));
            lemma_toggle_involution(a.last(), b.last(), t);
        }
    }
}

/// Toggling is its own inverse: when `b` is `a` after the toggle for `t`, then `a` is `b`
/// after the toggle for `t`, and the toggle succeeds in both or in neither.
pub proof fn lemma_toggle_involution(a: Node, b: Node, t: Seq<char>)
    requires
        toggled_node(a, b, t),
    ensures
        toggled_node(b, a, t),
        expand_hit(b, t) == expand_hit(a, t),
    decreases a, 1nat,
{
    if a.path@ != t {
        assert(decreases_to!(a => a.children@));
        lemma_toggle_forest_symmetric(a.children@, b.children@, t);
    }
}

/// Flips the `expanded` flag of the directory whose path is `path`, searching depth-first
/// from `root`; the search does not look below a node whose path is `path`, and does not
/// flip a file. Returns whether a directory was flipped.
pub fn toggle_node_expanded(root: &mut Node, path: &str) -> (found: bool)
    ensures
        found == expand_hit(*old(root), path@),
        toggled_node(*old(root), *final(root), path@),
{
    toggle_rec(root, path)
}

} // verus!
