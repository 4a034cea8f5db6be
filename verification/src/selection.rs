//! Turning a pasted hierarchy listing back into explicit selections of the tree's files.
use crate::chars::join_with;
use crate::hierarchy::{parse_hierarchy_spec, parse_hierarchy_text, path_parts, render_tree_spec};
use crate::hierarchy_laws::{
    good_path, lemma_render_then_parse, lemma_render_then_parse_contains_inputs, shown_paths,
};
use crate::paths::{relative_path, relative_path_spec, strip_prefix_key, strip_prefix_key_spec};
use crate::text::StringSet;
use crate::tree::{Node, SelectionMap};
use vstd::prelude::*;

verus! {

/// The paths of the file nodes of a tree; the children of a file node are not visited.
pub open spec fn tree_files(n: Node) -> Set<Seq<char>>
    decreases n, 1nat,
{
    if n.is_dir {
        forest_files(n.children@)
    } else {
        set![n.path@]
    }
}

/// The paths of the file nodes in `cs` and below them.
pub open spec fn forest_files(cs: Seq<Node>) -> Set<Seq<char>>
    decreases cs, 0nat,
{
    if cs.len() == 0 {
        Set::empty()
    } else {
        forest_files(cs.drop_last()).union(tree_files(cs.last()))
    }
}

/// Whether the key of `p` below `project_root` is one of `wanted`.
pub open spec fn key_wanted(project_root: Seq<char>, p: Seq<char>, wanted: Set<Seq<char>>) -> bool {
    match strip_prefix_key_spec(project_root, p) {
        Some(k) => wanted.contains(k),
        None => false,
    }
}

/// Every file of `files` whose key below `project_root` is wanted, checked.
pub open spec fn marked_files(files: Set<Seq<char>>, project_root: Seq<char>, wanted: Set<Seq<char>>) -> Map<Seq<char>, bool> {
    Map::new(|p: Seq<char>| files.contains(p) && key_wanted(project_root, p, wanted), |p: Seq<char>| true)
}

/// The explicit selections that a pasted listing gives: none when the listing names no
/// path; otherwise each file of the tree whose key the listing names, checked.
pub open spec fn selection_from_text_spec(root: Node, project_root: Seq<char>, text: Seq<char>) -> Option<Map<Seq<char>, bool>> {
    match parse_hierarchy_spec(text) {
        Some(w) => if w.is_empty() {
            None
        } else {
            Some(marked_files(tree_files(root), project_root, w))
        },
        None => None,
    }
}

fn mark_tree(n: &Node, project_root: &str, wanted: &StringSet, sel: &mut SelectionMap)
    requires
        old(sel).wf(),
    ensures
        final(sel).wf(),
        final(sel)@ == old(sel)@.union_prefer_right(marked_files(tree_files(*n), project_root@, wanted@)),
    decreases *n, 1nat,
{
    if n.is_dir {
        mark_forest(&n.children, project_root, wanted, sel);
    } else {
        let ghost m = marked_files(tree_files(*n), project_root@, wanted@);
        match strip_prefix_key(project_root, n.path.as_str()) {
            Some(key) => {
                if wanted.contains(key.as_str()) {
                    sel.insert(n.path.clone(), true);
                    assert(sel@ =~= old(sel)@.union_prefer_right(m));
                } else {
                    assert(sel@ =~= old(sel)@.union_prefer_right(m));
                }
            },
            None => {
                assert(sel@ =~= old(sel)@.union_prefer_right(m));
            },
        }
    }
}

fn mark_forest(cs: &Vec<Node>, project_root: &str, wanted: &StringSet, sel: &mut SelectionMap)
    requires
        old(sel).wf(),
    ensures
        final(sel).wf(),
        final(sel)@ == old(sel)@.union_prefer_right(marked_files(forest_files(cs@), project_root@, wanted@)),
    decreases cs@, 0nat,
{
    let mut i: usize = 0;
    let ghost s0 = sel@;
    assert(cs@.subrange(0, 0) =~= Seq::<Node>::empty());
    assert(s0 =~= s0.union_prefer_right(marked_files(Set::empty(), project_root@, wanted@)));
    while i < cs.len()
        invariant
            i <= cs.len(),
            sel.wf(),
            sel@ == s0.union_prefer_right(marked_files(forest_files(cs@.subrange(0, i as int)), project_root@, wanted@)),
        decreases cs.len() - i,
    {
        assert(cs@.subrange(0, i + 1).drop_last() =~= cs@.subrange(0, i as int));
        assert(cs@.subrange(0, i + 1).last() == cs@[i as int]);
        assert(decreases_to!(cs@ => cs@[i as int]));
        mark_tree(&cs[i], project_root, wanted, sel);
        i = i + 1;
        assert(sel@ =~= s0.union_prefer_right(marked_files(forest_files(cs@.subrange(0, i as int)), project_root@, wanted@)));
    }
    assert(cs@.subrange(0, cs.len() as int) =~= cs@);
}

/// The explicit selections that a pasted hierarchy listing asks for: `None` when the
/// listing cannot be read or names no path; otherwise every file of the tree whose path
/// below `project_root` (components joined by `/`) the listing names, checked, and nothing
/// else.
pub fn apply_selection_from_text(root: &Node, project_root: &str, text: &str) -> (res: Option<SelectionMap>)
    ensures
        match res {
            Some(m) => m.wf() && selection_from_text_spec(*root, project_root@, text@) == Some(m@),
            None => selection_from_text_spec(*root, project_root@, text@) is None,
        },
{
    let wanted = match parse_hierarchy_text(text) {
        Some(w) => w,
        None => return None,
    };
    if wanted.is_empty() {
        return None;
    }
    let mut sel = SelectionMap::new();
    mark_tree(root, project_root, &wanted, &mut sel);
    assert(sel@ =~= marked_files(tree_files(*root), project_root@, wanted@));
    Some(sel)
}

/// The explicit states left after those of the paths strictly below `dir` are dropped.
pub open spec fn without_descendants(explicit: Map<Seq<char>, bool>, dir: Seq<char>) -> Map<Seq<char>, bool> {
    explicit.restrict(explicit.dom().filter(|k: Seq<char>| relative_path_spec(dir, k) is None))
}

/// Drops the explicit states of every path strictly below `dir` (compared component by
/// component), so that those paths follow `dir` again.
pub fn clear_descendant_explicit_states(explicit: &mut SelectionMap, dir: &str)
    requires
        old(explicit).wf(),
    ensures
        final(explicit).wf(),
        final(explicit)@ == without_descendants(old(explicit)@, dir@),
{
    let keys = explicit.keys();
    let ghost m0 = explicit@;
    let ghost kv = keys@.map_values(|x: String| x@);
    let mut i: usize = 0;
    while i < keys.len()
        invariant
            i <= keys.len(),
            explicit.wf(),
            kv == keys@.map_values(|x: String| x@),
            forall|k: Seq<char>| m0.contains_key(k) <==> exists|j: int| 0 <= j < keys@.len() && #[trigger] keys@[j]@ == k,
            explicit@ == m0.restrict(m0.dom().filter(|k: Seq<char>|
                relative_path_spec(dir@, k) is None || !kv.subrange(0, i as int).contains(k))),
        decreases keys.len() - i,
    {
        let ghost before = explicit@;
        let ghost k0 = kv[i as int];
        let ghost pre = kv.subrange(0, i as int);
        if relative_path(dir, keys[i].as_str()).is_some() {
            explicit.remove(keys[i].as_str());
        }
        assert(kv.subrange(0, i + 1) =~= pre.push(k0));
        assert forall|k: Seq<char>| #[trigger] pre.push(k0).contains(k) <==> (pre.contains(k) || k == k0) by {
            if pre.push(k0).contains(k) {
                let j = choose|j: int| 0 <= j < pre.push(k0).len() && pre.push(k0)[j] == k;
                if j < pre.len() {
                    assert(pre[j] == k);
                }
            }
            if pre.contains(k) {
                let j = choose|j: int| 0 <= j < pre.len() && pre[j] == k;
                assert(pre.push(k0)[j] == k);
            }
            if k == k0 {
                assert(pre.push(k0)[pre.len() as int] == k);
            }
        }
        i = i + 1;
        assert(explicit@ =~= m0.restrict(m0.dom().filter(|k: Seq<char>|
            relative_path_spec(dir@, k) is None || !kv.subrange(0, i as int).contains(k))));
    }
    assert forall|k: Seq<char>| m0.contains_key(k) implies kv.subrange(0, keys.len() as int).contains(k) by {
        let j = choose|j: int| 0 <= j < keys@.len() && #[trigger] keys@[j]@ == k;
        assert(kv.subrange(0, keys.len() as int)[j] == k);
    }
    assert(explicit@ =~= without_descendants(m0, dir@));
}

/// The explicit states after a row's check box is clicked: the row takes the opposite of
/// the state it showed, and for a directory the paths below it lose their own states.
pub open spec fn toggled_check(explicit: Map<Seq<char>, bool>, path: Seq<char>, is_dir: bool, shown_checked: bool) -> Map<Seq<char>, bool> {
    let m = explicit.insert(path, !shown_checked);
    if is_dir {
        without_descendants(m, path)
    } else {
        m
    }
}

/// Flips the check state of a row: the row's path gets the opposite of the state it showed;
/// for a directory, the explicit states below it are dropped so that they follow it.
pub fn toggle_check_state(explicit: &mut SelectionMap, path: &str, is_dir: bool, shown_checked: bool)
    requires
        old(explicit).wf(),
    ensures
        final(explicit).wf(),
        final(explicit)@ == toggled_check(old(explicit)@, path@, is_dir, shown_checked),
{
    explicit.insert(path.to_string(), !shown_checked);
    if is_dir {
        clear_descendant_explicit_states(explicit, path);
    }
}

/// Pasting back a rendered listing of file keys checks exactly the files of the tree whose
/// key the listing shows (a listed key, or a directory above one), and so every file whose
/// key was listed. This holds when the listing's root line is one line and each key is
/// written in canonical form with parts that read back as themselves.
pub proof fn lemma_paste_rendered_listing(
    root: Node,
    project_root: Seq<char>,
    keys: Seq<Seq<char>>,
    label: Seq<char>,
)
    requires
        keys.len() > 0,
        !label.contains('\n'),
        forall|i: int| 0 <= i < keys.len() ==> good_path(#[trigger] keys[i]),
        forall|i: int| 0 <= i < keys.len() ==> path_parts(#[trigger] keys[i]).len() > 0 && keys[i]
            == join_with(path_parts(keys[i]), seq!['/']),
    ensures
        selection_from_text_spec(root, project_root, render_tree_spec(keys, Some(label)))
            == Some(marked_files(tree_files(root), project_root, shown_paths(keys))),
        forall|p: Seq<char>|
            tree_files(root).contains(p) && (strip_prefix_key_spec(project_root, p) matches Some(k)
                && keys.contains(k)) ==> selection_from_text_spec(
                root,
                project_root,
                render_tree_spec(keys, Some(label)),
            ).unwrap().contains_key(p),
{
    lemma_render_then_parse(keys, label);
    lemma_render_then_parse_contains_inputs(keys, label);
    let text = render_tree_spec(keys, Some(label));
    assert(shown_paths(keys).contains(keys[0]));
    assert(!shown_paths(keys).is_empty());
    assert forall|p: Seq<char>|
        tree_files(root).contains(p) && (strip_prefix_key_spec(project_root, p) matches Some(k)
            && keys.contains(k)) implies selection_from_text_spec(root, project_root, text).unwrap().contains_key(p) by {
        let k = strip_prefix_key_spec(project_root, p).unwrap();
        let i = choose|i: int| 0 <= i < keys.len() && keys[i] == k;
        assert(parse_hierarchy_spec(text).unwrap().contains(keys[i]));
    }
}

} // verus!
