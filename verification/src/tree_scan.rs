//! A whole directory scan, driven one listing at a time: the scan asks for the listing of a
//! directory, is handed it, and goes on depth first, subdirectories in name order, until
//! the tree of the starting directory is built. Reading the listings is left to the caller.
use crate::chars::chars_lt;
use crate::scan_trace::{
    assembled_view, lemma_assembled_represents, lemma_scan_trace_bounds, lemma_scan_trace_extend,
    lemma_subdirs_trace_from, read_in, represents, scan_trace, subdirs_trace, ScanFilters, ScanView,
};
use crate::text::StringSet;
use crate::tree::{
    name_sort, assemble_dir_node, dir_name_of, excluded_names, file_node_spec, file_passes, sub_stats, kept_dirs, kept_files,
    lemma_assembled_scan_shaped, pairs_view, scan_shaped, sort_by_name, sorted_by_name,
    split_dir_entries, DirEntryInfo, ScanResult, ScanStats,
};
use vstd::prelude::*;

verus! {

/// Whether each directory entry of a listing is named by the file name of its path, as the
/// entries that an operating system lists are.
pub open spec fn dir_names_agree(es: Seq<DirEntryInfo>) -> bool {
    forall|i: int| 0 <= i < es.len() && (#[trigger] es[i]).is_dir ==> es[i].name@ == dir_name_of(es[i].path@)
}

proof fn lemma_kept_dirs_from(es: Seq<DirEntryInfo>, exdirs: Set<Seq<char>>, x: (Seq<char>, Seq<char>))
    requires
        kept_dirs(es, exdirs).contains(x),
    ensures
        !exdirs.contains(x.0),
        exists|j: int| 0 <= j < es.len() && (#[trigger] es[j]).is_dir && es[j].name@ == x.0 && es[j].path@ == x.1,
    decreases es.len(),
{
    let r = kept_dirs(es.drop_last(), exdirs);
    let e = es.last();
    let l = es.len() - 1;
    assert(es[l] == e);
    if r.contains(x) {
        lemma_kept_dirs_from(es.drop_last(), exdirs, x);
        let j = choose|j: int| 0 <= j < es.drop_last().len() && (#[trigger] es.drop_last()[j]).is_dir
            && es.drop_last()[j].name@ == x.0 && es.drop_last()[j].path@ == x.1;
        assert(es[j] == es.drop_last()[j]);
    } else {
        assert(e.is_dir && !exdirs.contains(e.name@));
        assert(r.push((e.name@, e.path@)).contains(x));
        let k = choose|k: int| 0 <= k < r.push((e.name@, e.path@)).len() && r.push((e.name@, e.path@))[k] == x;
        if k < r.len() {
            assert(r.contains(x));
        }
    }
}

proof fn lemma_kept_files_from(
    es: Seq<DirEntryInfo>,
    inc: Set<Seq<char>>,
    exc: Set<Seq<char>>,
    exfiles: Set<Seq<char>>,
    x: (Seq<char>, Seq<char>),
)
    requires
        kept_files(es, inc, exc, exfiles).contains(x),
    ensures
        !exfiles.contains(x.0),
        file_passes(x.1, inc, exc),
    decreases es.len(),
{
    let r = kept_files(es.drop_last(), inc, exc, exfiles);
    let e = es.last();
    if r.contains(x) {
        lemma_kept_files_from(es.drop_last(), inc, exc, exfiles, x);
    } else {
        assert(r.push((e.name@, e.path@)).contains(x));
        let k = choose|k: int| 0 <= k < r.push((e.name@, e.path@)).len() && r.push((e.name@, e.path@))[k] == x;
        if k < r.len() {
            assert(r.contains(x));
        }
    }
}

proof fn lemma_same_elements<A>(a: Seq<A>, b: Seq<A>, i: int)
    requires
        a.to_multiset() == b.to_multiset(),
        0 <= i < a.len(),
    ensures
        b.contains(a[i]),
{
    vstd::seq_lib::to_multiset_contains(a, a[i]);
    vstd::seq_lib::to_multiset_contains(b, a[i]);
}

proof fn lemma_sorted_kept(
    listing: Seq<DirEntryInfo>,
    files: Seq<(Seq<char>, Seq<char>)>,
    dirs: Seq<(Seq<char>, Seq<char>)>,
    inc: Set<Seq<char>>,
    exc: Set<Seq<char>>,
    exdirs: Set<Seq<char>>,
    exfiles: Set<Seq<char>>,
    agreed: bool,
)
    requires
        files.to_multiset() == kept_files(listing, inc, exc, exfiles).to_multiset(),
        dirs.to_multiset() == kept_dirs(listing, exdirs).to_multiset(),
        agreed ==> dir_names_agree(listing),
    ensures
        forall|i: int| 0 <= i < files.len() ==> !exfiles.contains((#[trigger] files[i]).0) && file_passes(files[i].1, inc, exc),
        forall|i: int|
            0 <= i < dirs.len() ==> !exdirs.contains((#[trigger] dirs[i]).0) && (agreed ==> dirs[i].0 == dir_name_of(dirs[i].1)),
{
    assert forall|i: int| 0 <= i < files.len() implies !exfiles.contains((#[trigger] files[i]).0) && file_passes(files[i].1, inc, exc) by {
        lemma_same_elements(files, kept_files(listing, inc, exc, exfiles), i);
        lemma_kept_files_from(listing, inc, exc, exfiles, files[i]);
    }
    assert forall|i: int| 0 <= i < dirs.len() implies !exdirs.contains((#[trigger] dirs[i]).0) && (agreed ==> dirs[i].0 == dir_name_of(dirs[i].1)) by {
        lemma_same_elements(dirs, kept_dirs(listing, exdirs), i);
        lemma_kept_dirs_from(listing, exdirs, dirs[i]);
        let j = choose|j: int| 0 <= j < listing.len() && (#[trigger] listing[j]).is_dir && listing[j].name@ == dirs[i].0 && listing[j].path@ == dirs[i].1;
        if agreed {
            assert(listing[j].name@ == dir_name_of(listing[j].path@));
        }
    }
}

/// What is known of a scanned subdirectory at `path`: its node stands for that path and is
/// named by it, and, when the listings agreed, it is shaped as a scan builds it.
pub open spec fn scanned_ok(
    r: ScanResult,
    path: Seq<char>,
    inc: Set<Seq<char>>,
    exc: Set<Seq<char>>,
    exdirs: Set<Seq<char>>,
    exfiles: Set<Seq<char>>,
    agreed: bool,
) -> bool {
    &&& r.stats.wf()
    &&& r.node.path@ == path
    &&& r.node.name@ == dir_name_of(path)
    &&& r.node.is_dir
    &&& r.node.expanded
    &&& agreed ==> scan_shaped(r.node, inc, exc, exdirs, exfiles)
}

/// A directory whose listing was read: its kept files, its kept subdirectories in name
/// order (`dirs`), those still to scan (`pending`) and those scanned (`done`), and the
/// exclusions met in its listing.
struct Frame {
    path: String,
    files: Vec<(String, String)>,
    pending: Vec<(String, String)>,
    done: Vec<ScanResult>,
    stats: ScanStats,
    dirs: Ghost<Seq<(Seq<char>, Seq<char>)>>,
    start: Ghost<int>,
    bounds: Ghost<Seq<int>>,
    views: Ghost<Seq<ScanView>>,
}

/// A frame follows the listings read: its listing is `ls[start]`, read for its own path;
/// its files, subdirectories and exclusions are those that listing keeps and meets; and
/// each scanned subdirectory is the scan of the listings from `bounds[c]` to
/// `bounds[c + 1]`, read for the directories that scan reads.
spec fn frame_trace_ok(f: Frame, ls: Seq<Seq<DirEntryInfo>>, asked: Seq<Seq<char>>, flt: ScanFilters) -> bool {
    let st = f.start@;
    let b = f.bounds@;
    &&& 0 <= st < ls.len()
    &&& asked[st] == f.path@
    &&& pairs_view(f.files@) == name_sort(kept_files(ls[st], flt.inc, flt.exc, flt.exfiles))
    &&& f.dirs@ == name_sort(kept_dirs(ls[st], flt.exdirs))
    &&& f.stats.excluded_dirs_found@ == excluded_names(ls[st], true, flt.exdirs)
    &&& f.stats.excluded_files_found@ == excluded_names(ls[st], false, flt.exfiles)
    &&& b.len() == f.done@.len() + 1
    &&& f.views@.len() == f.done@.len()
    &&& b[0] == st + 1
    &&& b.last() <= ls.len()
    &&& forall|c: int| 0 <= c < f.done@.len() ==> #[trigger] child_trace_ok(f, ls, asked, flt, c)
}

/// The scanned subdirectory `c` of a frame is the scan of the listings from `bounds[c]` to
/// `bounds[c + 1]`, read for the directories that scan reads.
spec fn child_trace_ok(f: Frame, ls: Seq<Seq<DirEntryInfo>>, asked: Seq<Seq<char>>, flt: ScanFilters, c: int) -> bool {
    let b = f.bounds@;
    &&& scan_trace(ls, f.dirs@[c].1, b[c], flt) == Some((f.views@[c], b[c + 1]))
    &&& represents(f.done@[c], f.views@[c])
    &&& asked.subrange(b[c], b[c + 1]) == f.views@[c].dirs_read
}

proof fn lemma_frame_trace_extend(
    f: Frame,
    ls: Seq<Seq<DirEntryInfo>>,
    asked: Seq<Seq<char>>,
    flt: ScanFilters,
    x: Seq<DirEntryInfo>,
    p: Seq<char>,
)
    requires
        frame_trace_ok(f, ls, asked, flt),
        asked.len() == ls.len(),
    ensures
        frame_trace_ok(f, ls.push(x), asked.push(p), flt),
{
    let ls2 = ls.push(x);
    let a2 = asked.push(p);
    let b = f.bounds@;
    assert(ls2.subrange(0, ls.len() as int) =~= ls);
    assert(ls2[f.start@] == ls[f.start@]);
    assert(a2[f.start@] == asked[f.start@]);
    assert(0 <= f.start@ < ls2.len());
    assert(a2[f.start@] == f.path@);
    assert(pairs_view(f.files@) == name_sort(kept_files(ls2[f.start@], flt.inc, flt.exc, flt.exfiles)));
    assert(f.dirs@ == name_sort(kept_dirs(ls2[f.start@], flt.exdirs)));
    assert(b.last() <= ls2.len());
    assert forall|c: int| 0 <= c < f.done@.len() implies #[trigger] child_trace_ok(f, ls2, a2, flt, c) by {
        assert(child_trace_ok(f, ls, asked, flt, c));
        lemma_scan_trace_extend(ls, ls2, f.dirs@[c].1, b[c], flt);
        lemma_scan_trace_bounds(ls, f.dirs@[c].1, b[c], flt);
        assert(a2.subrange(b[c], b[c + 1]) =~= asked.subrange(b[c], b[c + 1]));
    }
}

/// A frame is consistent: `open` is 1 while one of its subdirectories is being scanned
/// (the one after those done), 0 otherwise.
spec fn frame_ok(
    f: Frame,
    inc: Set<Seq<char>>,
    exc: Set<Seq<char>>,
    exdirs: Set<Seq<char>>,
    exfiles: Set<Seq<char>>,
    agreed: bool,
    open: nat,
) -> bool {
    &&& f.stats.wf()
    &&& sorted_by_name(pairs_view(f.files@))
    &&& forall|i: int|
        0 <= i < f.files@.len() ==> !exfiles.contains((#[trigger] pairs_view(f.files@)[i]).0) && file_passes(
            pairs_view(f.files@)[i].1,
            inc,
            exc,
        )
    &&& sorted_by_name(f.dirs@)
    &&& forall|i: int|
        0 <= i < f.dirs@.len() ==> !exdirs.contains((#[trigger] f.dirs@[i]).0) && (agreed ==> f.dirs@[i].0
            == dir_name_of(f.dirs@[i].1))
    &&& f.done@.len() + open + f.pending@.len() == f.dirs@.len()
    &&& pairs_view(f.pending@) == f.dirs@.subrange((f.done@.len() + open) as int, f.dirs@.len() as int)
    &&& forall|i: int|
        0 <= i < f.done@.len() ==> scanned_ok(#[trigger] f.done@[i], f.dirs@[i].1, inc, exc, exdirs, exfiles, agreed)
}

proof fn lemma_frame_ok_weaken(
    f: Frame,
    inc: Set<Seq<char>>,
    exc: Set<Seq<char>>,
    exdirs: Set<Seq<char>>,
    exfiles: Set<Seq<char>>,
    a: bool,
    b: bool,
    open: nat,
)
    requires
        frame_ok(f, inc, exc, exdirs, exfiles, a, open),
        b ==> a,
    ensures
        frame_ok(f, inc, exc, exdirs, exfiles, b, open),
{
    assert forall|i: int| 0 <= i < f.done@.len() implies scanned_ok(#[trigger] f.done@[i], f.dirs@[i].1, inc, exc, exdirs, exfiles, b) by {
        assert(scanned_ok(f.done@[i], f.dirs@[i].1, inc, exc, exdirs, exfiles, a));
    }
}

/// The excluded directory (`dirs`) or file names that a frame holds: those of its own
/// listing and those met below its scanned subdirectories.
spec fn frame_found(f: Frame, dirs: bool) -> Set<Seq<char>> {
    (if dirs {
        f.stats.excluded_dirs_found@
    } else {
        f.stats.excluded_files_found@
    }).union(sub_stats(f.done@, dirs))
}

/// The excluded names that a stack of frames holds.
spec fn frames_found(fs: Seq<Frame>, dirs: bool) -> Set<Seq<char>>
    decreases fs.len(),
{
    if fs.len() == 0 {
        Set::empty()
    } else {
        frames_found(fs.drop_last(), dirs).union(frame_found(fs.last(), dirs))
    }
}

proof fn lemma_read_in_bounds(asked: Seq<Seq<char>>, vs: Seq<ScanView>, b: Seq<int>)
    requires
        b.len() == vs.len() + 1,
        0 <= b[0] <= asked.len(),
        forall|c: int| 0 <= c < vs.len() ==> b[c] <= #[trigger] b[c + 1] <= asked.len(),
        forall|c: int| 0 <= c < vs.len() ==> asked.subrange(b[c], b[c + 1]) == (#[trigger] vs[c]).dirs_read,
    ensures
        b[0] <= b[vs.len() as int] <= asked.len(),
        asked.subrange(b[0], b[vs.len() as int]) == read_in(vs),
    decreases vs.len(),
{
    if vs.len() == 0 {
        assert(asked.subrange(b[0], b[0]) =~= Seq::<Seq<char>>::empty());
    } else {
        let n = vs.len() - 1;
        let vd = vs.drop_last();
        let bd = b.drop_last();
        assert forall|c: int| 0 <= c < vd.len() implies bd[c] <= #[trigger] bd[c + 1] <= asked.len() by {
            assert(bd[c] == b[c] && bd[c + 1] == b[c + 1]);
            assert(b[c] <= b[c + 1]);
        }
        assert forall|c: int| 0 <= c < vd.len() implies asked.subrange(bd[c], bd[c + 1]) == (#[trigger] vd[c]).dirs_read by {
            assert(bd[c] == b[c] && bd[c + 1] == b[c + 1] && vd[c] == vs[c]);
        }
        lemma_read_in_bounds(asked, vd, bd);
        assert(b[n] <= b[n + 1]);
        assert(asked.subrange(b[n], b[n + 1]) == vs[n].dirs_read);
        assert(vs.last() == vs[n]);
        assert(asked.subrange(b[0], b[n + 1]) =~= asked.subrange(b[0], b[n]) + asked.subrange(b[n], b[n + 1]));
    }
}

/// A directory scan in progress. It asks for one listing at a time (`next_dir`), is handed
/// it (`feed`), and ends with the scanned tree of the starting directory (`into_result`).
pub struct TreeScan<'a> {
    include_exts: &'a StringSet,
    exclude_exts: &'a StringSet,
    exclude_dirs: &'a StringSet,
    exclude_files: &'a StringSet,
    frames: Vec<Frame>,
    due: Option<String>,
    result: Option<ScanResult>,
    root: Ghost<Seq<char>>,
    agreed: Ghost<bool>,
    found_dirs: Ghost<Set<Seq<char>>>,
    found_files: Ghost<Set<Seq<char>>>,
    listings: Ghost<Seq<Seq<DirEntryInfo>>>,
    asked: Ghost<Seq<Seq<char>>>,
}

impl<'a> TreeScan<'a> {
    /// The directory whose scan this is.
    pub closed spec fn root_path(&self) -> Seq<char> {
        self.root@
    }

    /// Whether every listing handed in so far named its directories by their paths' file names.
    pub closed spec fn listings_agree(&self) -> bool {
        self.agreed@
    }

    /// The excluded directory and file names in the listings handed in so far.
    pub closed spec fn excluded_found(&self) -> (Set<Seq<char>>, Set<Seq<char>>) {
        (self.found_dirs@, self.found_files@)
    }

    /// The listings handed in so far, in order.
    pub closed spec fn listings(&self) -> Seq<Seq<DirEntryInfo>> {
        self.listings@
    }

    /// The directories whose listings were asked for and handed in so far, in order.
    pub closed spec fn asked(&self) -> Seq<Seq<char>> {
        self.asked@
    }

    /// The include and exclude sets of the scan, as a whole.
    pub open spec fn scan_filters(&self) -> ScanFilters {
        ScanFilters { inc: self.filters().0, exc: self.filters().1, exdirs: self.filters().2, exfiles: self.filters().3 }
    }

    /// The include and exclude sets of the scan.
    pub closed spec fn filters(&self) -> (Set<Seq<char>>, Set<Seq<char>>, Set<Seq<char>>, Set<Seq<char>>) {
        (self.include_exts@, self.exclude_exts@, self.exclude_dirs@, self.exclude_files@)
    }

    /// The directory whose listing is due next, if the scan is not over.
    pub closed spec fn due_dir(&self) -> Option<Seq<char>> {
        match self.due {
            Some(d) => Some(d@),
            None => None,
        }
    }

    /// The scan is consistent.
    pub closed spec fn wf(&self) -> bool {
        let (inc, exc, exdirs, exfiles) = self.filters();
        let fs = self.frames@;
        &&& self.include_exts.wf()
        &&& self.exclude_exts.wf()
        &&& (self.due is None <==> self.result is Some)
        &&& (self.result is Some ==> fs.len() == 0 && scanned_ok(
            self.result->0,
            self.root@,
            inc,
            exc,
            exdirs,
            exfiles,
            self.agreed@,
        ))
        &&& forall|i: int| 0 <= i < fs.len() ==> frame_ok(#[trigger] fs[i], inc, exc, exdirs, exfiles, self.agreed@, 1)
        &&& fs.len() > 0 ==> fs[0].path@ == self.root@
        &&& forall|i: int|
            0 <= i < fs.len() - 1 ==> (#[trigger] fs[i + 1]).path@ == fs[i].dirs@[fs[i].done@.len() as int].1
        &&& (self.due is Some && fs.len() > 0) ==> self.due->0@ == fs.last().dirs@[fs.last().done@.len() as int].1
        &&& (self.due is Some && fs.len() == 0) ==> self.due->0@ == self.root@
        &&& (self.result matches Some(r) ==> r.stats.excluded_dirs_found@ == self.found_dirs@
            && r.stats.excluded_files_found@ == self.found_files@)
        &&& (self.result is None ==> self.found_dirs@ == frames_found(fs, true)
            && self.found_files@ == frames_found(fs, false))
        &&& self.trace_ok()
    }

    /// The scan follows the listings read: every frame does, the frames are those of
    /// nested directories each read after the scans before it, the due directory's listing
    /// comes next, and a finished scan is the scan of all the listings read.
    closed spec fn trace_ok(&self) -> bool {
        let fs = self.frames@;
        let ls = self.listings@;
        let flt = self.scan_filters();
        &&& ls.len() == self.asked@.len()
        &&& forall|i: int| 0 <= i < fs.len() ==> frame_trace_ok(#[trigger] fs[i], ls, self.asked@, flt)
        &&& fs.len() > 0 ==> fs[0].start@ == 0
        &&& forall|i: int| 0 <= i < fs.len() - 1 ==> (#[trigger] fs[i + 1]).start@ == fs[i].bounds@.last()
        &&& (self.due is Some && fs.len() > 0) ==> fs.last().bounds@.last() == ls.len()
        &&& (self.due is Some && fs.len() == 0) ==> ls.len() == 0
        &&& (self.result matches Some(r) ==> scan_trace(ls, self.root@, 0, flt) matches Some((v, j)) && j == ls.len()
            && represents(r, v) && v.dirs_read == self.asked@)
    }

    /// Starts the scan of `root`: its listing is due first.
    pub fn new(
        root: String,
        include_exts: &'a StringSet,
        exclude_exts: &'a StringSet,
        exclude_dirs: &'a StringSet,
        exclude_files: &'a StringSet,
    ) -> (res: Self)
        requires
            include_exts.wf(),
            exclude_exts.wf(),
        ensures
            res.wf(),
            res.root_path() == root@,
            res.due_dir() == Some(root@),
            res.listings_agree(),
            res.filters() == (include_exts@, exclude_exts@, exclude_dirs@, exclude_files@),
            res.excluded_found() == (Set::<Seq<char>>::empty(), Set::<Seq<char>>::empty()),
            res.listings() == Seq::<Seq<DirEntryInfo>>::empty(),
            res.asked() == Seq::<Seq<char>>::empty(),
    {
        let ghost r = root@;
        TreeScan {
            include_exts,
            exclude_exts,
            exclude_dirs,
            exclude_files,
            frames: Vec::new(),
            due: Some(root),
            result: None,
            root: Ghost(r),
            agreed: Ghost(true),
            found_dirs: Ghost(Set::empty()),
            found_files: Ghost(Set::empty()),
            listings: Ghost(Seq::empty()),
            asked: Ghost(Seq::empty()),
        }
    }

    /// The directory whose listing is due next; none once the scan is over.
    pub fn next_dir(&self) -> (res: Option<String>)
        requires
            self.wf(),
        ensures
            match res {
                Some(d) => self.due_dir() == Some(d@),
                None => self.due_dir() is None,
            },
    {
        match &self.due {
            Some(d) => Some(d.clone()),
            None => None,
        }
    }

    /// Hands in the listing of the directory that is due. The scan reads its kept files and
    /// subdirectories (in name order), then asks for the first subdirectory not yet scanned,
    /// going back up through the directories that are complete, each built by the assembly
    /// step from its files and its scanned subdirectories.
    #[verifier::rlimit(80)]
    #[verifier::spinoff_prover]
    pub fn feed(&mut self, listing: Vec<DirEntryInfo>)
        requires
            old(self).wf(),
            old(self).due_dir() is Some,
        ensures
            final(self).wf(),
            final(self).root_path() == old(self).root_path(),
            final(self).filters() == old(self).filters(),
            final(self).listings_agree() == (old(self).listings_agree() && dir_names_agree(listing@)),
            final(self).excluded_found() == (
                old(self).excluded_found().0.union(excluded_names(listing@, true, old(self).filters().2)),
                old(self).excluded_found().1.union(excluded_names(listing@, false, old(self).filters().3)),
            ),
            final(self).listings() == old(self).listings().push(listing@),
            final(self).asked() == old(self).asked().push(old(self).due_dir()->0),
    {
        let ghost (inc, exc, exdirs, exfiles) = self.filters();
        let ghost flt = self.scan_filters();
        let ghost ls0 = self.listings@;
        let ghost asked0 = self.asked@;
        let ghost fsx = self.frames@;
        assert(self.trace_ok());
        let d = match self.due.take() {
            Some(d) => d,
            None => {
                return;
            },
        };
        let (files0, dirs0, stats) = split_dir_entries(
            &listing,
            self.include_exts,
            self.exclude_exts,
            self.exclude_dirs,
            self.exclude_files,
        );
        let files = sort_by_name(files0);
        let dirs = sort_by_name(dirs0);
        let ghost agreed = self.agreed@ && dir_names_agree(listing@);
        assert(self.filters() == old(self).filters());
        assert(self.agreed@ == old(self).listings_agree());
        proof {
            lemma_sorted_kept(listing@, pairs_view(files@), pairs_view(dirs@), inc, exc, exdirs, exfiles, agreed);
            let old_agreed = self.agreed@;
            assert forall|i: int| 0 <= i < self.frames@.len() implies frame_ok(#[trigger] self.frames@[i], inc, exc, exdirs, exfiles, agreed, 1) by {
                lemma_frame_ok_weaken(self.frames@[i], inc, exc, exdirs, exfiles, old_agreed, agreed, 1);
            }
            self.agreed = Ghost(agreed);
            self.found_dirs = Ghost(self.found_dirs@.union(excluded_names(listing@, true, exdirs)));
            self.found_files = Ghost(self.found_files@.union(excluded_names(listing@, false, exfiles)));
        }
        let ghost ls1 = ls0.push(listing@);
        let ghost asked1 = asked0.push(d@);
        proof {
            assert forall|i: int| 0 <= i < fsx.len() implies frame_trace_ok(#[trigger] fsx[i], ls1, asked1, flt) by {
                lemma_frame_trace_extend(fsx[i], ls0, asked0, flt, listing@, d@);
            }
            self.listings = Ghost(ls1);
            self.asked = Ghost(asked1);
            assert(ls1[ls0.len() as int] == listing@);
        }
        let ghost dv = pairs_view(dirs@);
        let ghost st0 = ls0.len() as int;
        let ghost b0 = seq![st0 + 1];
        let mut cur = Frame {
            path: d,
            files,
            pending: dirs,
            done: Vec::new(),
            stats,
            dirs: Ghost(dv),
            start: Ghost(st0),
            bounds: Ghost(b0),
            views: Ghost(Seq::empty()),
        };
        assert(frame_trace_ok(cur, ls1, asked1, flt));
        assert(dv.subrange(0, dv.len() as int) =~= dv);
        assert(frame_found(cur, true) =~= excluded_names(listing@, true, exdirs));
        assert(frame_found(cur, false) =~= excluded_names(listing@, false, exfiles));
        let ghost goal = self.excluded_found();
        let include_mode = self.include_exts.len() > 0;
        loop
            invariant
                self.include_exts.wf(),
                self.exclude_exts.wf(),
                self.filters() == (inc, exc, exdirs, exfiles),
                self.filters() == old(self).filters(),
                self.root_path() == old(self).root_path(),
                self.agreed@ == agreed,
                agreed == (old(self).listings_agree() && dir_names_agree(listing@)),
                self.due is None,
                self.result is None,
                self.excluded_found() == goal,
                goal == (
                    old(self).excluded_found().0.union(excluded_names(listing@, true, exdirs)),
                    old(self).excluded_found().1.union(excluded_names(listing@, false, exfiles)),
                ),
                self.found_dirs@ == frames_found(self.frames@, true).union(frame_found(cur, true)),
                self.found_files@ == frames_found(self.frames@, false).union(frame_found(cur, false)),
                include_mode == (inc.len() > 0),
                frame_ok(cur, inc, exc, exdirs, exfiles, agreed, 0),
                forall|i: int| 0 <= i < self.frames@.len() ==> frame_ok(#[trigger] self.frames@[i], inc, exc, exdirs, exfiles, agreed, 1),
                self.frames@.len() > 0 ==> self.frames@[0].path@ == self.root@,
                forall|i: int|
                    0 <= i < self.frames@.len() - 1 ==> (#[trigger] self.frames@[i + 1]).path@
                        == self.frames@[i].dirs@[self.frames@[i].done@.len() as int].1,
                self.frames@.len() > 0 ==> cur.path@ == self.frames@.last().dirs@[self.frames@.last().done@.len() as int].1,
                self.frames@.len() == 0 ==> cur.path@ == self.root@,
                flt == self.scan_filters(),
                flt == (ScanFilters { inc, exc, exdirs, exfiles }),
                self.listings@ == ls1,
                self.asked@ == asked1,
                ls1 == old(self).listings().push(listing@),
                asked1 == old(self).asked().push(old(self).due_dir()->0),
                ls1.len() == asked1.len(),
                frame_trace_ok(cur, ls1, asked1, flt),
                cur.bounds@.last() == ls1.len(),
                forall|i: int| 0 <= i < self.frames@.len() ==> frame_trace_ok(#[trigger] self.frames@[i], ls1, asked1, flt),
                self.frames@.len() > 0 ==> self.frames@[0].start@ == 0,
                forall|i: int| 0 <= i < self.frames@.len() - 1 ==> (#[trigger] self.frames@[i + 1]).start@ == self.frames@[i].bounds@.last(),
                self.frames@.len() > 0 ==> cur.start@ == self.frames@.last().bounds@.last(),
                self.frames@.len() == 0 ==> cur.start@ == 0,
            decreases self.frames@.len(),
        {
            if cur.pending.len() > 0 {
                let ghost c0 = cur;
                let next = cur.pending.remove(0);
                proof {
                    assert(pairs_view(c0.pending@)[0] == (next.0@, next.1@));
                    assert(pairs_view(cur.pending@) =~= pairs_view(c0.pending@).subrange(1, c0.pending@.len() as int));
                    assert(pairs_view(cur.pending@) =~= cur.dirs@.subrange(cur.done@.len() + 1int, cur.dirs@.len() as int));
                    assert(next.1@ == cur.dirs@[cur.done@.len() as int].1);
                    assert forall|c: int| 0 <= c < cur.done@.len() implies #[trigger] child_trace_ok(cur, ls1, asked1, flt, c) by {
                        assert(child_trace_ok(c0, ls1, asked1, flt, c));
                    }
                    assert(frame_trace_ok(cur, ls1, asked1, flt));
                }
                self.due = Some(next.1);
                let ghost fs0 = self.frames@;
                self.frames.push(cur);
                proof {
                    let fs = self.frames@;
                    assert(fs.last() == cur);
                    assert forall|i: int| 0 <= i < fs.len() implies frame_ok(#[trigger] fs[i], inc, exc, exdirs, exfiles, agreed, 1) by {
                        if i < fs0.len() {
                            assert(fs[i] == fs0[i]);
                        }
                    }
                    assert forall|i: int| 0 <= i < fs.len() - 1 implies (#[trigger] fs[i + 1]).path@
                        == fs[i].dirs@[fs[i].done@.len() as int].1 by {
                        assert(fs[i] == fs0[i]);
                        if i + 1 < fs0.len() {
                            assert(fs[i + 1] == fs0[i + 1]);
                        } else {
                            assert(fs0.last() == fs0[i]);
                        }
                    }
                    if fs0.len() > 0 {
                        assert(fs[0] == fs0[0]);
                    }
                    assert(fs.drop_last() =~= fs0);
                    assert forall|i: int| 0 <= i < fs.len() implies frame_trace_ok(#[trigger] fs[i], ls1, asked1, flt) by {
                        if i < fs0.len() {
                            assert(fs[i] == fs0[i]);
                        }
                    }
                    assert forall|i: int| 0 <= i < fs.len() - 1 implies (#[trigger] fs[i + 1]).start@ == fs[i].bounds@.last() by {
                        assert(fs[i] == fs0[i]);
                        if i + 1 < fs0.len() {
                            assert(fs[i + 1] == fs0[i + 1]);
                        } else {
                            assert(fs0.last() == fs0[i]);
                        }
                    }
                    assert(self.trace_ok());
                    assert(frames_found(fs, true) == frames_found(fs0, true).union(frame_found(cur, true)));
                    assert(frames_found(fs, false) == frames_found(fs0, false).union(frame_found(cur, false)));
                }
                return;
            }
            let ghost c1 = cur;
            let ghost vs = cur.views@;
            let ghost b = cur.bounds@;
            let ghost st = cur.start@;
            let ghost pv = cur.path@;
            let ghost es = ls1[st];
            let ghost cd = cur.dirs@;
            proof {
                assert(cur.done@.len() == cd.len());
                assert forall|c: int| 0 <= c < cd.len() implies scan_trace(ls1, (#[trigger] cd[c]).1, b[c], flt) == Some((vs[c], b[c + 1])) by {
                    assert(child_trace_ok(cur, ls1, asked1, flt, c));
                }
                lemma_subdirs_trace_from(ls1, cd, vs, b, 0, flt);
                assert(vs.subrange(0, vs.len() as int) =~= vs);
                assert(scan_trace(ls1, pv, st, flt) == Some((assembled_view(pv, es, flt, vs), ls1.len() as int)));
                assert forall|c: int| 0 <= c < vs.len() implies b[c] <= #[trigger] b[c + 1] <= asked1.len() by {
                    assert(child_trace_ok(cur, ls1, asked1, flt, c));
                    lemma_scan_trace_bounds(ls1, cd[c].1, b[c], flt);
                }
                assert forall|c: int| 0 <= c < vs.len() implies asked1.subrange(b[c], b[c + 1]) == (#[trigger] vs[c]).dirs_read by {
                    assert(child_trace_ok(cur, ls1, asked1, flt, c));
                }
                lemma_read_in_bounds(asked1, vs, b);
                assert(asked1.subrange(st, ls1.len() as int) =~= seq![pv] + asked1.subrange(st + 1, ls1.len() as int));
            }
            let ghost v = assembled_view(pv, es, flt, vs);
            let Frame { path, files, pending: _, done, stats, dirs: Ghost(dv), start: _, bounds: _, views: _ } = cur;
            let ghost fv = pairs_view(files@);
            let ghost sv = done@;
            let r = assemble_dir_node(path, files, done, include_mode, stats);
            proof {
                assert forall|i: int| 0 <= i < fv.len() implies file_node_spec(fv[i].0, fv[i].1, #[trigger] r.node.children@[i]) by {
                    assert(fv[i] == (files@[i].0@, files@[i].1@));
                }
                assert forall|c: int| 0 <= c < sv.len() implies represents(#[trigger] sv[c], vs[c]) by {
                    assert(child_trace_ok(c1, ls1, asked1, flt, c));
                }
                lemma_assembled_represents(r, pv, es, flt, fv, sv, vs);
                assert(v.dirs_read == asked1.subrange(st, ls1.len() as int));
            }
            proof {
                assert forall|i: int| 0 <= i < sv.len() implies #[trigger] sv[i].stats.wf() by {
                    assert(scanned_ok(sv[i], dv[i].1, inc, exc, exdirs, exfiles, agreed));
                }
                if agreed {
                    assert forall|i: int| 0 <= i < fv.len() implies file_node_spec(fv[i].0, fv[i].1, #[trigger] r.node.children@[i]) by {
                        assert(fv[i] == (files@[i].0@, files@[i].1@));
                    }
                    assert forall|i: int| 0 <= i < sv.len() implies scan_shaped((#[trigger] sv[i]).node, inc, exc, exdirs, exfiles)
                        && !exdirs.contains(sv[i].node.name@) by {
                        assert(scanned_ok(sv[i], dv[i].1, inc, exc, exdirs, exfiles, agreed));
                        assert(!exdirs.contains(dv[i].0));
                    }
                    assert forall|i: int, j: int| 0 <= i < j < sv.len() implies !chars_lt((#[trigger] sv[j]).node.name@, (#[trigger] sv[i]).node.name@) by {
                        assert(scanned_ok(sv[i], dv[i].1, inc, exc, exdirs, exfiles, agreed));
                        assert(scanned_ok(sv[j], dv[j].1, inc, exc, exdirs, exfiles, agreed));
                        assert(dv[i].0 == dir_name_of(dv[i].1));
                        assert(dv[j].0 == dir_name_of(dv[j].1));
                    }
                    lemma_assembled_scan_shaped(fv, sv, include_mode, r.node, inc, exc, exdirs, exfiles);
                }
                assert(scanned_ok(r, path@, inc, exc, exdirs, exfiles, agreed));
                assert(r.stats.excluded_dirs_found@ == frame_found(cur, true));
                assert(r.stats.excluded_files_found@ == frame_found(cur, false));
            }
            let ghost fs0 = self.frames@;
            match self.frames.pop() {
                None => {
                    proof {
                        assert(asked1.subrange(0, ls1.len() as int) =~= asked1);
                        assert(frames_found(fs0, true) =~= Set::<Seq<char>>::empty());
                        assert(self.found_dirs@ =~= r.stats.excluded_dirs_found@);
                        assert(self.found_files@ =~= r.stats.excluded_files_found@);
                    }
                    self.result = Some(r);
                    return;
                },
                Some(parent) => {
                    let ghost p0 = parent;
                    cur = parent;
                    cur.done.push(r);
                    cur.views = Ghost(p0.views@.push(v));
                    cur.bounds = Ghost(p0.bounds@.push(ls1.len() as int));
                    proof {
                        assert(frame_trace_ok(p0, ls1, asked1, flt));
                        let nb = cur.bounds@;
                        let nd = p0.done@.len() as int;
                        assert(nb[nd] == p0.bounds@.last());
                        assert(cur.dirs@[nd].1 == pv);
                        assert forall|c: int| 0 <= c < cur.done@.len() implies #[trigger] child_trace_ok(cur, ls1, asked1, flt, c) by {
                            if c < nd {
                                assert(cur.done@[c] == p0.done@[c]);
                                assert(child_trace_ok(p0, ls1, asked1, flt, c));
                            }
                        }
                        assert(frame_trace_ok(cur, ls1, asked1, flt));
                        let fs1 = self.frames@;
                        if fs1.len() > 0 {
                            let k = fs0.len() - 2;
                            assert(fs0[k + 1] == p0);
                            assert(fs1.last() == fs0[k]);
                        } else {
                            assert(fs0[0] == p0);
                        }
                        assert forall|i: int| 0 <= i < fs1.len() implies frame_trace_ok(#[trigger] fs1[i], ls1, asked1, flt) by {
                            assert(fs1[i] == fs0[i]);
                        }
                        assert forall|i: int| 0 <= i < fs1.len() - 1 implies (#[trigger] fs1[i + 1]).start@ == fs1[i].bounds@.last() by {
                            assert(fs1[i] == fs0[i] && fs1[i + 1] == fs0[i + 1]);
                        }
                    }
                    proof {
                        assert(frame_ok(p0, inc, exc, exdirs, exfiles, agreed, 1));
                        assert(p0 == fs0.last());
                        let ghost fs1 = self.frames@;
                        assert(fs0.drop_last() =~= fs1);
                        assert(cur.done@.drop_last() =~= p0.done@);
                        assert(sub_stats(cur.done@, true) == sub_stats(p0.done@, true).union(r.stats.excluded_dirs_found@));
                        assert(sub_stats(cur.done@, false) == sub_stats(p0.done@, false).union(r.stats.excluded_files_found@));
                        assert(self.found_dirs@ =~= frames_found(fs1, true).union(frame_found(cur, true)));
                        assert(self.found_files@ =~= frames_found(fs1, false).union(frame_found(cur, false)));
                        if self.frames@.len() > 0 {
                            let k = fs0.len() - 2;
                            assert(fs0[k + 1] == p0);
                            assert(self.frames@.last() == fs0[k]);
                        }
                        assert forall|i: int| 0 <= i < cur.done@.len() implies scanned_ok(#[trigger] cur.done@[i], cur.dirs@[i].1, inc, exc, exdirs, exfiles, agreed) by {
                            if i < p0.done@.len() {
                                assert(cur.done@[i] == p0.done@[i]);
                            }
                        }
                    }
                },
            }
        }
    }

    /// The scanned tree of the starting directory once the scan is over; none before. It is
    /// exactly the scan of the listings handed in (`scan_trace`): each directory's children
    /// are the files its listing keeps, in name order, then its shown kept subdirectories in
    /// name order, each the scan of the listings that followed; the directories asked for
    /// were the starting directory and then, depth first, every kept subdirectory. Its
    /// exclusions are those of all the listings. When every listing named its directories by
    /// their paths' file names, the whole tree is also shaped as `scan_shaped` says.
    pub fn into_result(self) -> (res: Option<ScanResult>)
        requires
            self.wf(),
        ensures
            res is Some <==> self.due_dir() is None,
            res matches Some(r) ==> {
                &&& r.stats.wf()
                &&& r.node.path@ == self.root_path()
                &&& r.node.name@ == dir_name_of(self.root_path())
                &&& r.node.is_dir
                &&& r.node.expanded
                &&& r.stats.excluded_dirs_found@ == self.excluded_found().0
                &&& r.stats.excluded_files_found@ == self.excluded_found().1
                &&& scan_trace(self.listings(), self.root_path(), 0, self.scan_filters()) matches Some((v, j))
                    && j == self.listings().len() && represents(r, v) && v.dirs_read == self.asked()
                &&& self.listings_agree() ==> scan_shaped(
                    r.node,
                    self.filters().0,
                    self.filters().1,
                    self.filters().2,
                    self.filters().3,
                )
            },
    {
        self.result
    }
}

} // verus!
