//! What a directory scan builds from the listings it reads: the tree, the exclusions met
//! and the directories read, stated over the sequence of listings in the order they are read
//! (depth first, subdirectories in name order).
use crate::chars::chars_lt;
use crate::tree::{
    dir_name_of, excluded_names, file_node_spec, insert_by_name, kept_dirs, kept_files, name_sort, sub_stats,
    subdir_visible, visible_subdirs, DirEntryInfo, Node, ScanResult,
};
use vstd::prelude::*;

verus! {

/// A node of the project tree as plain values.
#[verifier::ext_equal]
pub struct NodeView {
    pub name: Seq<char>,
    pub path: Seq<char>,
    pub is_dir: bool,
    pub expanded: bool,
    pub has_children: bool,
    pub children: Seq<NodeView>,
}

/// The plain values of a node and of everything below it.
pub open spec fn node_view(n: Node) -> NodeView
    decreases n, 1nat,
{
    NodeView {
        name: n.name@,
        path: n.path@,
        is_dir: n.is_dir,
        expanded: n.expanded,
        has_children: n.has_children,
        children: forest_view(n.children@),
    }
}

/// The plain values of the trees `cs`, in order.
pub open spec fn forest_view(cs: Seq<Node>) -> Seq<NodeView>
    decreases cs, 0nat,
{
    if cs.len() == 0 {
        Seq::empty()
    } else {
        forest_view(cs.drop_last()).push(node_view(cs.last()))
    }
}

/// The include and exclude sets of a scan.
pub struct ScanFilters {
    pub inc: Set<Seq<char>>,
    pub exc: Set<Seq<char>>,
    pub exdirs: Set<Seq<char>>,
    pub exfiles: Set<Seq<char>>,
}

/// What scanning a directory gives: its node, the excluded directory and file names met in
/// it and below it, and the directories whose listings were read, in the order read.
#[verifier::ext_equal]
pub struct ScanView {
    pub node: NodeView,
    pub dirs_found: Set<Seq<char>>,
    pub files_found: Set<Seq<char>>,
    pub dirs_read: Seq<Seq<char>>,
}

/// The node of a file entry `(name, path)`.
pub open spec fn file_view(p: (Seq<char>, Seq<char>)) -> NodeView {
    NodeView { name: p.0, path: p.1, is_dir: false, expanded: false, has_children: false, children: Seq::empty() }
}

/// Whether a scanned subdirectory is shown: always, unless an include filter is active, in
/// which case only when it has children or content.
pub open spec fn view_shown(v: NodeView, include_mode: bool) -> bool {
    !include_mode || v.children.len() > 0 || v.has_children
}

/// The nodes of the scanned subdirectories that are shown, in order.
pub open spec fn shown_views(vs: Seq<ScanView>, include_mode: bool) -> Seq<NodeView>
    decreases vs.len(),
{
    if vs.len() == 0 {
        Seq::empty()
    } else {
        let s = shown_views(vs.drop_last(), include_mode);
        if view_shown(vs.last().node, include_mode) {
            s.push(vs.last().node)
        } else {
            s
        }
    }
}

/// The excluded directory (`dirs`) or file names met by the scans `vs`.
pub open spec fn found_in(vs: Seq<ScanView>, dirs: bool) -> Set<Seq<char>>
    decreases vs.len(),
{
    if vs.len() == 0 {
        Set::empty()
    } else {
        found_in(vs.drop_last(), dirs).union(if dirs { vs.last().dirs_found } else { vs.last().files_found })
    }
}

/// The directories read by the scans `vs`, one scan after another.
pub open spec fn read_in(vs: Seq<ScanView>) -> Seq<Seq<char>>
    decreases vs.len(),
{
    if vs.len() == 0 {
        Seq::empty()
    } else {
        read_in(vs.drop_last()) + vs.last().dirs_read
    }
}

/// The scan of the directory at `path` whose listing is `es`, from its kept files in name
/// order and the scans of its kept subdirectories in name order: its node (files first,
/// then the shown subdirectories; content when it has a file or a shown subdirectory with
/// children or content), the exclusions of its listing and of the subdirectories, and the
/// directories read: itself, then those of each subdirectory.
pub open spec fn assembled_view(
    path: Seq<char>,
    es: Seq<DirEntryInfo>,
    f: ScanFilters,
    subs: Seq<ScanView>,
) -> ScanView {
    let files = name_sort(kept_files(es, f.inc, f.exc, f.exfiles));
    let include_mode = f.inc.len() > 0;
    ScanView {
        node: NodeView {
            name: dir_name_of(path),
            path: path,
            is_dir: true,
            expanded: true,
            has_children: files.len() > 0 || exists|i: int|
                0 <= i < subs.len() && view_shown((#[trigger] subs[i]).node, include_mode) && (
                subs[i].node.children.len() > 0 || subs[i].node.has_children),
            children: files.map_values(|p: (Seq<char>, Seq<char>)| file_view(p)) + shown_views(subs, include_mode),
        },
        dirs_found: excluded_names(es, true, f.exdirs).union(found_in(subs, true)),
        files_found: excluded_names(es, false, f.exfiles).union(found_in(subs, false)),
        dirs_read: seq![path] + read_in(subs),
    }
}

/// The scan of the directory at `path` whose listing is `ls[i]`, the listings of the
/// directories below it following in the order they are read; with the index of the first
/// listing after them. None when the listings run out.
pub open spec fn scan_trace(ls: Seq<Seq<DirEntryInfo>>, path: Seq<char>, i: int, f: ScanFilters) -> Option<
    (ScanView, int),
>
    decreases ls.len() - i, 1int, 0int,
{
    if i < 0 || i >= ls.len() {
        None
    } else {
        let dirs = name_sort(kept_dirs(ls[i], f.exdirs));
        match subdirs_trace(ls, dirs, 0, i + 1, f) {
            None => None,
            Some((subs, j)) => Some((assembled_view(path, ls[i], f, subs), j)),
        }
    }
}

/// The scans of the subdirectories `dirs[k..]`, the first one's listing being `ls[i]`; with
/// the index of the first listing after them. None when the listings run out.
pub open spec fn subdirs_trace(
    ls: Seq<Seq<DirEntryInfo>>,
    dirs: Seq<(Seq<char>, Seq<char>)>,
    k: int,
    i: int,
    f: ScanFilters,
) -> Option<(Seq<ScanView>, int)>
    decreases ls.len() - i, 2int, dirs.len() - k,
{
    if k < 0 || k >= dirs.len() {
        if 0 <= i <= ls.len() {
            Some((Seq::empty(), i))
        } else {
            None
        }
    } else if i < 0 || i >= ls.len() {
        None
    } else {
        match scan_trace(ls, dirs[k].1, i, f) {
            None => None,
            Some((v, j)) => if j <= i || j > ls.len() {
                None
            } else {
                match subdirs_trace(ls, dirs, k + 1, j, f) {
                    None => None,
                    Some((vs, j2)) => Some((seq![v] + vs, j2)),
                }
            },
        }
    }
}

/// A scan that completes reads at least its own listing, stops within the listings, and
/// reads its own directory first.
pub proof fn lemma_scan_trace_bounds(ls: Seq<Seq<DirEntryInfo>>, path: Seq<char>, i: int, f: ScanFilters)
    ensures
        scan_trace(ls, path, i, f) matches Some((v, j)) ==> i < j <= ls.len() && v.dirs_read.len() > 0
            && v.dirs_read[0] == path,
    decreases ls.len() - i, 1int, 0int,
{
    if 0 <= i < ls.len() {
        let dirs = name_sort(kept_dirs(ls[i], f.exdirs));
        lemma_subdirs_trace_bounds(ls, dirs, 0, i + 1, f);
    }
}

/// The scans of the subdirectories stop within the listings and do not go back.
pub proof fn lemma_subdirs_trace_bounds(
    ls: Seq<Seq<DirEntryInfo>>,
    dirs: Seq<(Seq<char>, Seq<char>)>,
    k: int,
    i: int,
    f: ScanFilters,
)
    ensures
        subdirs_trace(ls, dirs, k, i, f) matches Some((vs, j)) ==> i <= j <= ls.len(),
    decreases ls.len() - i, 2int, dirs.len() - k,
{
    if 0 <= k < dirs.len() && 0 <= i < ls.len() {
        lemma_scan_trace_bounds(ls, dirs[k].1, i, f);
        if let Some((v, j)) = scan_trace(ls, dirs[k].1, i, f) {
            if i < j <= ls.len() {
                lemma_subdirs_trace_bounds(ls, dirs, k + 1, j, f);
            }
        }
    }
}

/// A scan that completes on some listings gives the same when more listings follow them.
pub proof fn lemma_scan_trace_extend(
    ls: Seq<Seq<DirEntryInfo>>,
    ls2: Seq<Seq<DirEntryInfo>>,
    path: Seq<char>,
    i: int,
    f: ScanFilters,
)
    requires
        ls.len() <= ls2.len(),
        ls2.subrange(0, ls.len() as int) == ls,
        scan_trace(ls, path, i, f) is Some,
    ensures
        scan_trace(ls2, path, i, f) == scan_trace(ls, path, i, f),
    decreases ls.len() - i, 1int, 0int,
{
    assert(ls2[i] == ls2.subrange(0, ls.len() as int)[i]);
    let dirs = name_sort(kept_dirs(ls[i], f.exdirs));
    lemma_subdirs_trace_extend(ls, ls2, dirs, 0, i + 1, f);
}

/// Subdirectory scans that complete on some listings give the same when more follow.
pub proof fn lemma_subdirs_trace_extend(
    ls: Seq<Seq<DirEntryInfo>>,
    ls2: Seq<Seq<DirEntryInfo>>,
    dirs: Seq<(Seq<char>, Seq<char>)>,
    k: int,
    i: int,
    f: ScanFilters,
)
    requires
        ls.len() <= ls2.len(),
        ls2.subrange(0, ls.len() as int) == ls,
        subdirs_trace(ls, dirs, k, i, f) is Some,
    ensures
        subdirs_trace(ls2, dirs, k, i, f) == subdirs_trace(ls, dirs, k, i, f),
    decreases ls.len() - i, 2int, dirs.len() - k,
{
    if 0 <= k < dirs.len() {
        lemma_scan_trace_extend(ls, ls2, dirs[k].1, i, f);
        let (v, j) = scan_trace(ls, dirs[k].1, i, f)->0;
        lemma_subdirs_trace_extend(ls, ls2, dirs, k + 1, j, f);
    }
}

/// Subdirectory scans each completing where the next one starts make up the scans of the
/// subdirectories from `k` on.
pub proof fn lemma_subdirs_trace_from(
    ls: Seq<Seq<DirEntryInfo>>,
    dirs: Seq<(Seq<char>, Seq<char>)>,
    vs: Seq<ScanView>,
    b: Seq<int>,
    k: int,
    f: ScanFilters,
)
    requires
        vs.len() == dirs.len(),
        b.len() == dirs.len() + 1,
        0 <= k <= dirs.len(),
        0 <= b[k] <= ls.len(),
        forall|c: int| k <= c < dirs.len() ==> scan_trace(ls, (#[trigger] dirs[c]).1, b[c], f) == Some((vs[c], b[c + 1])),
    ensures
        subdirs_trace(ls, dirs, k, b[k], f) == Some((vs.subrange(k, vs.len() as int), b[dirs.len() as int])),
    decreases dirs.len() - k,
{
    if k < dirs.len() {
        assert(scan_trace(ls, dirs[k].1, b[k], f) == Some((vs[k], b[k + 1])));
        lemma_scan_trace_bounds(ls, dirs[k].1, b[k], f);
        lemma_subdirs_trace_from(ls, dirs, vs, b, k + 1, f);
        assert(seq![vs[k]] + vs.subrange(k + 1, vs.len() as int) =~= vs.subrange(k, vs.len() as int));
    } else {
        assert(vs.subrange(k, vs.len() as int) =~= Seq::<ScanView>::empty());
    }
}

/// A scanned directory as the scan built it stands for a scan view: same node, same
/// exclusions.
pub open spec fn represents(r: ScanResult, v: ScanView) -> bool {
    &&& node_view(r.node) == v.node
    &&& r.stats.excluded_dirs_found@ == v.dirs_found
    &&& r.stats.excluded_files_found@ == v.files_found
}

pub proof fn lemma_forest_view_index(cs: Seq<Node>)
    ensures
        forest_view(cs).len() == cs.len(),
        forall|i: int| 0 <= i < cs.len() ==> forest_view(cs)[i] == node_view(#[trigger] cs[i]),
    decreases cs.len(),
{
    if cs.len() > 0 {
        lemma_forest_view_index(cs.drop_last());
        assert forall|i: int| 0 <= i < cs.len() implies forest_view(cs)[i] == node_view(#[trigger] cs[i]) by {
            if i < cs.len() - 1 {
                assert(cs.drop_last()[i] == cs[i]);
            } else {
                assert(cs.last() == cs[i]);
            }
        }
    }
}

proof fn lemma_shown_views(rs: Seq<ScanResult>, vs: Seq<ScanView>, include_mode: bool)
    requires
        rs.len() == vs.len(),
        forall|c: int| 0 <= c < rs.len() ==> represents(#[trigger] rs[c], vs[c]),
    ensures
        forest_view(visible_subdirs(rs, include_mode)) == shown_views(vs, include_mode),
        sub_stats(rs, true) == found_in(vs, true),
        sub_stats(rs, false) == found_in(vs, false),
    decreases rs.len(),
{
    if rs.len() > 0 {
        let l = rs.len() - 1;
        assert(rs.last() == rs[l] && vs.last() == vs[l]);
        assert(represents(rs[l], vs[l]));
        assert forall|c: int| 0 <= c < rs.drop_last().len() implies represents(#[trigger] rs.drop_last()[c], vs.drop_last()[c]) by {
            assert(rs.drop_last()[c] == rs[c] && vs.drop_last()[c] == vs[c]);
        }
        lemma_shown_views(rs.drop_last(), vs.drop_last(), include_mode);
        lemma_forest_view_index(rs.last().node.children@);
        assert(subdir_visible(rs.last().node, include_mode) == view_shown(vs.last().node, include_mode));
        let v0 = visible_subdirs(rs.drop_last(), include_mode);
        if subdir_visible(rs.last().node, include_mode) {
            assert(v0.push(rs.last().node).drop_last() =~= v0);
        }
    }
}

/// The node that the assembly step builds from kept files in name order and the scanned
/// subdirectories, with the exclusions of the listing, stands for the assembled view.
pub proof fn lemma_assembled_represents(
    r: ScanResult,
    path: Seq<char>,
    es: Seq<DirEntryInfo>,
    f: ScanFilters,
    files: Seq<(Seq<char>, Seq<char>)>,
    subdirs: Seq<ScanResult>,
    vs: Seq<ScanView>,
)
    requires
        files == name_sort(kept_files(es, f.inc, f.exc, f.exfiles)),
        subdirs.len() == vs.len(),
        forall|c: int| 0 <= c < subdirs.len() ==> represents(#[trigger] subdirs[c], vs[c]),
        r.node.name@ == dir_name_of(path),
        r.node.path@ == path,
        r.node.is_dir,
        r.node.expanded,
        r.node.children@.len() == files.len() + visible_subdirs(subdirs, f.inc.len() > 0).len(),
        forall|i: int| 0 <= i < files.len() ==> file_node_spec(files[i].0, files[i].1, #[trigger] r.node.children@[i]),
        r.node.children@.subrange(files.len() as int, r.node.children@.len() as int) == visible_subdirs(subdirs, f.inc.len() > 0),
        r.node.has_children == (files.len() > 0 || exists|i: int| 0 <= i < subdirs.len() && subdir_visible(#[trigger] subdirs[i].node, f.inc.len() > 0) && (subdirs[i].node.children@.len() > 0 || subdirs[i].node.has_children)),
        r.stats.excluded_dirs_found@ == excluded_names(es, true, f.exdirs).union(sub_stats(subdirs, true)),
        r.stats.excluded_files_found@ == excluded_names(es, false, f.exfiles).union(sub_stats(subdirs, false)),
    ensures
        represents(r, assembled_view(path, es, f, vs)),
{
    let im = f.inc.len() > 0;
    let a = assembled_view(path, es, f, vs);
    let cs = r.node.children@;
    let nf = files.len() as int;
    lemma_shown_views(subdirs, vs, im);
    lemma_forest_view_index(cs);
    let vsub = visible_subdirs(subdirs, im);
    lemma_forest_view_index(vsub);
    let fvs = files.map_values(|p: (Seq<char>, Seq<char>)| file_view(p));
    assert forall|i: int| 0 <= i < cs.len() implies forest_view(cs)[i] == a.node.children[i] by {
        if i < nf {
            let c = cs[i];
            assert(file_node_spec(files[i].0, files[i].1, c));
            lemma_forest_view_index(c.children@);
            assert(forest_view(c.children@) =~= Seq::<NodeView>::empty());
            assert(node_view(c) =~= file_view(files[i]));
            assert(a.node.children[i] == fvs[i]);
        } else {
            assert(cs.subrange(nf, cs.len() as int)[i - nf] == cs[i]);
            assert(vsub[i - nf] == cs[i]);
            assert(a.node.children[i] == shown_views(vs, im)[i - nf]);
        }
    }
    assert(forest_view(cs) =~= a.node.children);
    assert(r.node.has_children == a.node.has_children) by {
        if r.node.has_children && files.len() == 0 {
            let i = choose|i: int| 0 <= i < subdirs.len() && subdir_visible(#[trigger] subdirs[i].node, im) && (subdirs[i].node.children@.len() > 0 || subdirs[i].node.has_children);
            assert(represents(subdirs[i], vs[i]));
            lemma_forest_view_index(subdirs[i].node.children@);
        }
        if a.node.has_children && files.len() == 0 {
            let i = choose|i: int| 0 <= i < vs.len() && view_shown((#[trigger] vs[i]).node, im) && (vs[i].node.children.len() > 0 || vs[i].node.has_children);
            assert(represents(subdirs[i], vs[i]));
            lemma_forest_view_index(subdirs[i].node.children@);
        }
    }
    assert(node_view(r.node) =~= a.node);
}

proof fn lemma_insert_by_name_multiset(r: Seq<(Seq<char>, Seq<char>)>, x: (Seq<char>, Seq<char>))
    ensures
        insert_by_name(r, x).to_multiset() == r.to_multiset().insert(x),
    decreases r.len(),
{
    broadcast use vstd::seq_lib::group_to_multiset_ensures;
    if r.len() > 0 && chars_lt(x.0, r.last().0) {
        let d = r.drop_last();
        lemma_insert_by_name_multiset(d, x);
        assert(d.push(r.last()) =~= r);
        assert(insert_by_name(d, x).push(r.last()).to_multiset() =~= r.to_multiset().insert(x));
    }
}

/// Sorting by name keeps every pair, as many times as it occurs.
pub proof fn lemma_name_sort_multiset(v: Seq<(Seq<char>, Seq<char>)>)
    ensures
        name_sort(v).to_multiset() == v.to_multiset(),
    decreases v.len(),
{
    broadcast use vstd::seq_lib::group_to_multiset_ensures;
    if v.len() > 0 {
        lemma_name_sort_multiset(v.drop_last());
        lemma_insert_by_name_multiset(name_sort(v.drop_last()), v.last());
        assert(v.drop_last().push(v.last()) =~= v);
    }
}

proof fn lemma_subdirs_trace_nodes(
    ls: Seq<Seq<DirEntryInfo>>,
    dirs: Seq<(Seq<char>, Seq<char>)>,
    k: int,
    i: int,
    f: ScanFilters,
)
    requires
        0 <= k <= dirs.len(),
    ensures
        subdirs_trace(ls, dirs, k, i, f) matches Some((vs, j)) ==> vs.len() == dirs.len() - k && forall|m: int|
            0 <= m < vs.len() ==> (#[trigger] vs[m]).node.path == dirs[k + m].1 && vs[m].node.is_dir,
    decreases dirs.len() - k,
{
    if k < dirs.len() && 0 <= i < ls.len() {
        if let Some((v, j)) = scan_trace(ls, dirs[k].1, i, f) {
            if i < j <= ls.len() {
                lemma_subdirs_trace_nodes(ls, dirs, k + 1, j, f);
                if let Some((vs, j2)) = subdirs_trace(ls, dirs, k + 1, j, f) {
                    let all = seq![v] + vs;
                    assert forall|m: int| 0 <= m < all.len() implies (#[trigger] all[m]).node.path == dirs[k + m].1 && all[m].node.is_dir by {
                        if m > 0 {
                            assert(all[m] == vs[m - 1]);
                        }
                    }
                }
            }
        }
    }
}

proof fn lemma_shown_views_all(vs: Seq<ScanView>)
    ensures
        shown_views(vs, false).len() == vs.len(),
        forall|m: int| 0 <= m < vs.len() ==> shown_views(vs, false)[m] == (#[trigger] vs[m]).node,
    decreases vs.len(),
{
    if vs.len() > 0 {
        lemma_shown_views_all(vs.drop_last());
        assert forall|m: int| 0 <= m < vs.len() implies shown_views(vs, false)[m] == (#[trigger] vs[m]).node by {
            if m < vs.len() - 1 {
                assert(vs.drop_last()[m] == vs[m]);
            }
        }
    }
}

/// A scanned directory lists every file of its listing that the filters keep, as a file
/// node of that name and path; and, with no include filter, every subdirectory of its
/// listing that is not excluded, as a directory node of that path.
pub proof fn lemma_scan_lists_kept_entries(ls: Seq<Seq<DirEntryInfo>>, path: Seq<char>, i: int, f: ScanFilters)
    ensures
        scan_trace(ls, path, i, f) matches Some((v, j)) ==> {
            &&& forall|x: (Seq<char>, Seq<char>)|
                #[trigger] kept_files(ls[i], f.inc, f.exc, f.exfiles).contains(x) ==> v.node.children.contains(file_view(x))
            &&& f.inc.len() == 0 ==> forall|x: (Seq<char>, Seq<char>)|
                #[trigger] kept_dirs(ls[i], f.exdirs).contains(x) ==> exists|c: int|
                    0 <= c < v.node.children.len() && (#[trigger] v.node.children[c]).is_dir && v.node.children[c].path == x.1
        },
{
    if let Some((v, j)) = scan_trace(ls, path, i, f) {
        let kf = kept_files(ls[i], f.inc, f.exc, f.exfiles);
        let files = name_sort(kf);
        let dirs = name_sort(kept_dirs(ls[i], f.exdirs));
        let (subs, j2) = subdirs_trace(ls, dirs, 0, i + 1, f)->0;
        let fvs = files.map_values(|p: (Seq<char>, Seq<char>)| file_view(p));
        assert(v.node.children == fvs + shown_views(subs, f.inc.len() > 0));
        lemma_name_sort_multiset(kf);
        assert forall|x: (Seq<char>, Seq<char>)| #[trigger] kf.contains(x) implies v.node.children.contains(file_view(x)) by {
            vstd::seq_lib::to_multiset_contains(kf, x);
            vstd::seq_lib::to_multiset_contains(files, x);
            let m = choose|m: int| 0 <= m < files.len() && files[m] == x;
            assert(v.node.children[m] == fvs[m]);
        }
        if f.inc.len() == 0 {
            let kd = kept_dirs(ls[i], f.exdirs);
            lemma_name_sort_multiset(kd);
            lemma_subdirs_trace_nodes(ls, dirs, 0, i + 1, f);
            lemma_shown_views_all(subs);
            assert forall|x: (Seq<char>, Seq<char>)| #[trigger] kd.contains(x) implies exists|c: int|
                0 <= c < v.node.children.len() && (#[trigger] v.node.children[c]).is_dir && v.node.children[c].path == x.1 by {
                vstd::seq_lib::to_multiset_contains(kd, x);
                vstd::seq_lib::to_multiset_contains(dirs, x);
                let m = choose|m: int| 0 <= m < dirs.len() && dirs[m] == x;
                assert(subs[m].node.path == dirs[m].1);
                let c = fvs.len() + m;
                assert(v.node.children[c] == shown_views(subs, false)[m]);
            }
        }
    }
}

} // verus!
