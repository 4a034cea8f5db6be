//! Assembly of the generated document: the hierarchy and notes header, one section per
//! file with its contents filtered, and the statistics shown for it.
use crate::chars::{
    append_chars, chars_eq, chars_of, join_chars, join_with, lines_of, lines_spec, lowercase,
    matches_at, occurs_at, string_of, to_lowercase_chars, trim,
};
use crate::hierarchy::{insert_sorted, lemma_sorted_unique, strictly_sorted};
use crate::paths::{extension_spec, path_extension};
use crate::text::{regex_compiles, regex_flags, StringSet};
use crate::rust_filters::{
    apply_rust_filters, rust_filters_spec, signatures_filter_matches, signatures_filter_spec,
    RustFilterOptions,
};
use crate::strip::{strip_comments_spec, strip_lines_and_inline_comments};
use crate::text::str_eq;
use crate::ui_state::OutputPlan;
use vstd::prelude::*;
use vstd::string::StringExecFns;

verus! {

/// The text shown when no folder is selected.
pub open spec fn no_folder_text() -> Seq<char> {
    "No folder selected.\n"@
}

/// The text shown when nothing is selected.
pub open spec fn no_items_text() -> Seq<char> {
    "No items selected.\n"@
}

/// Whether the output is one of the placeholder texts, which count for no statistics.
pub fn is_placeholder_message(text: &str) -> (b: bool)
    ensures
        b == (text@ == no_folder_text() || text@ == no_items_text()),
{
    str_eq(text, "No folder selected.\n") || str_eq(text, "No items selected.\n")
}

/// The character and line counts shown for an output: both zero for a placeholder, and
/// no lines for an empty text.
pub fn output_stats(text: &str) -> (res: (usize, usize))
    ensures
        res.0 == (if text@ == no_folder_text() || text@ == no_items_text() { 0 } else { text@.len() }),
        res.1 == (if text@ == no_folder_text() || text@ == no_items_text() || text@.len() == 0 {
            0
        } else {
            lines_spec(text@).len()
        }),
{
    if is_placeholder_message(text) {
        return (0, 0);
    }
    let cs = chars_of(text);
    if cs.len() == 0 {
        return (0, 0);
    }
    let ls = lines_of(&cs);
    assert(ls@.map_values(|v: Vec<char>| v@).len() == ls@.len());
    (cs.len(), ls.len())
}

/// The section of the document for one file: start marker, contents, end marker.
pub open spec fn file_section_spec(rel: Seq<char>, contents: Seq<char>) -> Seq<char> {
    "--- Start of file: "@ + rel + " ---\n"@ + contents + "\n"@ + "--- End of file: "@ + rel
        + " ---\n\n"@
}

/// Writes the section of the document for one file.
pub fn file_section(rel: &str, contents: &str) -> (res: String)
    ensures
        res@ == file_section_spec(rel@, contents@),
{
    let mut out = String::from_str("--- Start of file: ");
    out.append(rel);
    out.append(" ---\n");
    out.append(contents);
    out.append("\n");
    out.append("--- End of file: ");
    out.append(rel);
    out.append(" ---\n\n");
    out
}

/// The head of the document: the hierarchy, then the notes when they are not blank.
pub open spec fn document_head_spec(tree: Seq<char>, notes: Seq<char>) -> Seq<char> {
    "=== FILE HIERARCHY ===\n\n"@ + tree + (if trim(notes).len() == 0 {
        Seq::empty()
    } else {
        "\n=== NOTES ===\n\n"@ + notes + "\n"@
    })
}

/// Writes the head of the document from the rendered tree and the notes.
pub fn document_head(tree: &str, notes: &str) -> (res: String)
    ensures
        res@ == document_head_spec(tree@, notes@),
{
    let mut out = String::from_str("=== FILE HIERARCHY ===\n\n");
    out.append(tree);
    let nc = chars_of(notes);
    let t = crate::chars::trim_range(&nc, 0, nc.len());
    assert(nc@.subrange(0, nc@.len() as int) =~= nc@);
    if t.len() > 0 {
        out.append("\n=== NOTES ===\n\n");
        out.append(notes);
        out.append("\n");
    }
    out
}

/// The banner between the head and the file sections.
pub open spec fn contents_banner_spec() -> Seq<char> {
    "\n=== FILE CONTENTS ===\n\n"@
}

/// Writes the banner between the head and the file sections.
pub fn contents_banner() -> (res: String)
    ensures
        res@ == contents_banner_spec(),
{
    String::from_str("\n=== FILE CONTENTS ===\n\n")
}

/// The file sections for `(relative path, contents)` pairs, in order.
pub open spec fn sections_text(secs: Seq<(Seq<char>, Seq<char>)>) -> Seq<char>
    decreases secs.len(),
{
    if secs.len() == 0 {
        Seq::empty()
    } else {
        sections_text(secs.drop_last()) + file_section_spec(secs.last().0, secs.last().1)
    }
}

/// The generated output: the placeholder when nothing is selected; otherwise the head
/// (hierarchy and notes), followed, unless only the hierarchy is wanted, by the contents
/// banner and one section per file that could be read.
pub open spec fn output_text_spec(
    nothing_selected: bool,
    tree: Seq<char>,
    notes: Seq<char>,
    with_contents: bool,
    secs: Seq<(Seq<char>, Seq<char>)>,
) -> Seq<char> {
    if nothing_selected {
        no_items_text()
    } else if with_contents {
        document_head_spec(tree, notes) + contents_banner_spec() + sections_text(secs)
    } else {
        document_head_spec(tree, notes)
    }
}

/// Assembles the generated output from the rendered hierarchy, the notes (empty when they
/// are turned off) and the sections of the files that could be read.
pub fn assemble_output(
    nothing_selected: bool,
    tree: &str,
    notes: &str,
    with_contents: bool,
    sections: &Vec<(String, String)>,
) -> (res: String)
    ensures
        res@ == output_text_spec(
            nothing_selected,
            tree@,
            notes@,
            with_contents,
            sections@.map_values(|e: (String, String)| (e.0@, e.1@)),
        ),
{
    if nothing_selected {
        return String::from_str("No items selected.\n");
    }
    let mut out = document_head(tree, notes);
    if !with_contents {
        return out;
    }
    out.append(contents_banner().as_str());
    let ghost sv = sections@.map_values(|e: (String, String)| (e.0@, e.1@));
    let ghost base = out@;
    let mut i: usize = 0;
    while i < sections.len()
        invariant
            i <= sections.len(),
            sv == sections@.map_values(|e: (String, String)| (e.0@, e.1@)),
            out@ == base + sections_text(sv.subrange(0, i as int)),
        decreases sections.len() - i,
    {
        let sec = file_section(sections[i].0.as_str(), sections[i].1.as_str());
        out.append(sec.as_str());
        assert(sv.subrange(0, i + 1).drop_last() =~= sv.subrange(0, i as int));
        i = i + 1;
    }
    assert(sv.subrange(0, sections.len() as int) =~= sv);
    out
}

/// The selected paths that the output lists: the folders when only folders are listed,
/// the files otherwise.
pub fn listed_paths<'a>(dirs_only: bool, files: &'a Vec<String>, dirs: &'a Vec<String>) -> (res: &'a Vec<String>)
    ensures
        res@ == (if dirs_only { dirs@ } else { files@ }),
{
    if dirs_only {
        dirs
    } else {
        files
    }
}

/// The output that a plan settles on, from the rendered hierarchy, the notes and the file
/// sections: the no-folder or no-items text, the head alone, or the head with the contents;
/// none for a queued request, whose output comes from the run in progress.
pub open spec fn planned_output_spec(
    plan: OutputPlan,
    tree: Seq<char>,
    notes: Seq<char>,
    secs: Seq<(Seq<char>, Seq<char>)>,
) -> Option<Seq<char>> {
    match plan {
        OutputPlan::Queue => None,
        OutputPlan::NoFolder => Some(no_folder_text()),
        OutputPlan::NothingSelected => Some(no_items_text()),
        OutputPlan::HeadOnly => Some(document_head_spec(tree, notes)),
        OutputPlan::ReadContents => Some(
            document_head_spec(tree, notes) + contents_banner_spec() + sections_text(secs),
        ),
    }
}

/// Writes the output that a plan settles on (see `planned_output_spec`).
pub fn planned_output(
    plan: OutputPlan,
    tree: &str,
    notes: &str,
    sections: &Vec<(String, String)>,
) -> (res: Option<String>)
    ensures
        match res {
            Some(t) => planned_output_spec(
                plan,
                tree@,
                notes@,
                sections@.map_values(|e: (String, String)| (e.0@, e.1@)),
            ) == Some(t@),
            None => planned_output_spec(
                plan,
                tree@,
                notes@,
                sections@.map_values(|e: (String, String)| (e.0@, e.1@)),
            ) is None,
        },
{
    match plan {
        OutputPlan::Queue => None,
        OutputPlan::NoFolder => Some(String::from_str("No folder selected.\n")),
        OutputPlan::NothingSelected => Some(assemble_output(true, tree, notes, false, sections)),
        OutputPlan::HeadOnly => Some(assemble_output(false, tree, notes, false, sections)),
        OutputPlan::ReadContents => Some(assemble_output(false, tree, notes, true, sections)),
    }
}

/// The Rust options for one file: signatures only is dropped when a non-blank filter does
/// not select the file's relative path.
pub open spec fn effective_rust_options_spec(opts: RustFilterOptions, rel: Seq<char>, filter: Seq<char>) -> RustFilterOptions {
    RustFilterOptions {
        function_signatures_only: opts.function_signatures_only && (trim(filter).len() == 0
            || signatures_filter_spec(rel, filter)),
        ..opts
    }
}

/// The Rust options that apply to the file at `rel_for_match`.
pub fn effective_rust_options(opts: &RustFilterOptions, rel_for_match: &str, filter: &str) -> (res: RustFilterOptions)
    ensures
        res == effective_rust_options_spec(*opts, rel_for_match@, filter@),
{
    let fc = chars_of(filter);
    let t = crate::chars::trim_range(&fc, 0, fc.len());
    assert(fc@.subrange(0, fc@.len() as int) =~= fc@);
    let keep = if t.len() > 0 {
        signatures_filter_matches(rel_for_match, filter)
    } else {
        true
    };
    RustFilterOptions {
        remove_inline_regular_comments: opts.remove_inline_regular_comments,
        remove_doc_comments: opts.remove_doc_comments,
        function_signatures_only: opts.function_signatures_only && keep,
    }
}

/// The last step for one file's contents: the Rust filters for a Rust file.
pub open spec fn finish_contents_spec(
    contents: Seq<char>,
    is_rust: bool,
    rel: Seq<char>,
    opts: RustFilterOptions,
    filter: Seq<char>,
) -> Seq<char> {
    if is_rust {
        rust_filters_spec(contents, effective_rust_options_spec(opts, rel, filter))
    } else {
        contents
    }
}

/// Applies the Rust filters that hold for the file to contents already stripped of
/// prefixed comments and of the removal pattern's matches.
pub fn finish_file_contents(
    contents: &str,
    is_rust: bool,
    rel_for_match: &str,
    opts: &RustFilterOptions,
    filter: &str,
) -> (res: String)
    ensures
        res@ == finish_contents_spec(contents@, is_rust, rel_for_match@, *opts, filter@),
{
    if is_rust {
        let eff = effective_rust_options(opts, rel_for_match, filter);
        apply_rust_filters(contents, &eff)
    } else {
        contents.to_owned()
    }
}

/// The text with every match of the regex that `pattern` compiles to removed.
pub uninterp spec fn regex_removal(pattern: Seq<char>, text: Seq<char>) -> Seq<char>;

/// Compiles `pattern` with `regex::Regex::new` and, when it compiles, calls
/// `Regex::replace_all` on `text` with an empty replacement. Whether the pattern compiles,
/// and what the removal leaves, are the regex crate's semantics; both are named, not stated.
#[verifier::external_body]
fn remove_pattern_matches(pattern: &str, text: &str) -> (res: Option<String>)
    ensures
        res is Some == regex_compiles(pattern@),
        res matches Some(r) ==> r@ == regex_removal(pattern@, text@),
{
    match regex::Regex::new(pattern) {
        Ok(re) => Some(re.replace_all(text, "").into_owned()),
        Err(_) => None,
    }
}

/// The contents after the removal pattern, if any: with the flags of `regex_flags` put
/// before it, every match is removed when the pattern compiles; otherwise nothing changes.
pub open spec fn pattern_removed(pattern: Option<Seq<char>>, text: Seq<char>) -> Seq<char> {
    match pattern {
        Some(p) => if regex_compiles(regex_flags() + p) {
            regex_removal(regex_flags() + p, text)
        } else {
            text
        },
        None => text,
    }
}

/// Removes every match of the removal pattern `pattern` (given without flags, as cleaned)
/// from `text`, in multi-line mode with `.` matching newlines; `text` is returned unchanged
/// when there is no pattern or it does not compile.
pub fn remove_pattern(pattern: Option<&str>, text: &str) -> (res: String)
    ensures
        res@ == pattern_removed(match pattern {
            Some(p) => Some(p@),
            None => None,
        }, text@),
{
    match pattern {
        None => text.to_owned(),
        Some(p) => {
            let mut full = vec!['(', '?', 'm', 's', ')'];
            assert(full@ =~= regex_flags());
            append_chars(&mut full, &chars_of(p));
            let fp = string_of(&full);
            match remove_pattern_matches(fp.as_str(), text) {
                Some(r) => r,
                None => text.to_owned(),
            }
        },
    }
}

/// Filters one file's contents for the document: lines and trailing comments with the
/// given prefixes are removed, then the removal pattern's matches (the pattern given
/// without flags, as cleaned), then the Rust filters that hold for the file.
pub fn scrub_file_contents(
    contents: &str,
    remove_prefixes: &[String],
    remove_regex: Option<&str>,
    is_rust: bool,
    rel_for_match: &str,
    opts: &RustFilterOptions,
    filter: &str,
) -> (res: String)
    ensures
        res@ == finish_contents_spec(
            pattern_removed(
                match remove_regex {
                    Some(p) => Some(p@),
                    None => None,
                },
                strip_comments_spec(contents@, remove_prefixes@.map_values(|s: String| s@)),
            ),
            is_rust,
            rel_for_match@,
            *opts,
            filter@,
        ),
{
    let stripped = strip_lines_and_inline_comments(contents, remove_prefixes);
    let cleaned = remove_pattern(remove_regex, stripped.as_str());
    finish_file_contents(cleaned.as_str(), is_rust, rel_for_match, opts, filter)
}

/* ------------------------------- notes ------------------------------- */

/// The elements of a finite set of strings in increasing `str` order, each once.
pub open spec fn sorted_list(s: Set<Seq<char>>) -> Seq<Seq<char>> {
    choose|l: Seq<Seq<char>>| strictly_sorted(l) && l.to_set() == s
}

/// Whether the selection holds the directory `d` or something below it.
pub open spec fn dir_in_selection(d: Seq<char>, sel: Seq<Seq<char>>) -> bool {
    exists|i: int| 0 <= i < sel.len() && (sel[i] == d || occurs_at(#[trigger] sel[i], 0, d + seq!['/']))
}

/// The extension note of a selected path: `.` and its extension in lowercase, if it has one.
pub open spec fn ext_note(p: Seq<char>) -> Option<Seq<char>> {
    match extension_spec(p) {
        Some(e) => Some(seq!['.'] + lowercase(e)),
        None => None,
    }
}

/// The excluded directories that the selection holds.
pub open spec fn present_dirs(exclude_dirs: Set<Seq<char>>, sel: Seq<Seq<char>>) -> Set<Seq<char>> {
    exclude_dirs.filter(|d: Seq<char>| dir_in_selection(d, sel))
}

/// The excluded files that the selection holds.
pub open spec fn present_files(exclude_files: Set<Seq<char>>, sel: Seq<Seq<char>>) -> Set<Seq<char>> {
    exclude_files.filter(|f: Seq<char>| sel.contains(f))
}

/// The listed extensions that some selected path has.
pub open spec fn present_exts(exts: Set<Seq<char>>, sel: Seq<Seq<char>>) -> Set<Seq<char>> {
    Set::new(|e: Seq<char>| exts.contains(e) && exists|i: int| 0 <= i < sel.len() && ext_note(#[trigger] sel[i]) == Some(e))
}

/// A note line listing the elements of `s` after `label`, when `s` is not empty.
pub open spec fn list_note(label: Seq<char>, s: Set<Seq<char>>) -> Seq<Seq<char>> {
    if s == Set::<Seq<char>>::empty() {
        Seq::empty()
    } else {
        seq![label + join_with(sorted_list(s), ", "@)]
    }
}

/// A note line when `b` holds.
pub open spec fn flag_note(b: bool, line: Seq<char>) -> Seq<Seq<char>> {
    if b {
        seq![line]
    } else {
        Seq::empty()
    }
}

/// The note lines of a document, in order: the excluded directories and files that the
/// selection holds, the included and excluded extensions that selected files have, the
/// removed prefixes, the removal pattern, and the Rust filters.
pub open spec fn note_lines(
    exclude_dirs: Set<Seq<char>>,
    exclude_files: Set<Seq<char>>,
    include_exts: Set<Seq<char>>,
    exclude_exts: Set<Seq<char>>,
    prefixes: Seq<Seq<char>>,
    has_regex: bool,
    rust_inline: bool,
    rust_doc: bool,
    rust_sigs: bool,
    sig_filter: Seq<char>,
    sel: Seq<Seq<char>>,
) -> Seq<Seq<char>> {
    list_note("Excluded directories: "@, present_dirs(exclude_dirs, sel))
        + list_note("Excluded files: "@, present_files(exclude_files, sel))
        + list_note("Included extensions: "@, present_exts(include_exts, sel))
        + list_note("Excluded extensions: "@, present_exts(exclude_exts, sel))
        + flag_note(prefixes.len() > 0, "Removed lines starting with: "@ + join_with(prefixes, ", "@))
        + flag_note(has_regex, "Applied remove-regex"@)
        + flag_note(rust_inline, "Removed Rust inline comments (//, /* */)"@)
        + flag_note(rust_doc, "Removed Rust doc comments (///, //!, /** */)"@)
        + flag_note(rust_sigs, if trim(sig_filter).len() == 0 {
            "Functions bodies omitted (signatures only) for all Rust files"@
        } else {
            "Functions bodies omitted (signatures only) for: "@ + sig_filter
        })
}

fn dir_in_selection_exec(d: &Vec<char>, sel: &Vec<Vec<char>>) -> (b: bool)
    ensures
        b == dir_in_selection(d@, sel@.map_values(|v: Vec<char>| v@)),
{
    let ghost sv = sel@.map_values(|v: Vec<char>| v@);
    let mut ds = d.clone();
    assert(ds@ == d@);
    ds.push('/');
    let mut i: usize = 0;
    while i < sel.len()
        invariant
            i <= sel.len(),
            sv == sel@.map_values(|v: Vec<char>| v@),
            ds@ == d@ + seq!['/'],
            forall|j: int| 0 <= j < i ==> !(sv[j] == d@ || occurs_at(#[trigger] sv[j], 0, d@ + seq!['/'])),
        decreases sel.len() - i,
    {
        assert(sv[i as int] == sel@[i as int]@);
        if chars_eq(&sel[i], d) || matches_at(&sel[i], 0, &ds) {
            return true;
        }
        i = i + 1;
    }
    false
}

fn in_selection_exec(f: &Vec<char>, sel: &Vec<Vec<char>>) -> (b: bool)
    ensures
        b == sel@.map_values(|v: Vec<char>| v@).contains(f@),
{
    let ghost sv = sel@.map_values(|v: Vec<char>| v@);
    let mut i: usize = 0;
    while i < sel.len()
        invariant
            i <= sel.len(),
            sv == sel@.map_values(|v: Vec<char>| v@),
            forall|j: int| 0 <= j < i ==> sv[j] != f@,
        decreases sel.len() - i,
    {
        assert(sv[i as int] == sel@[i as int]@);
        if chars_eq(&sel[i], f) {
            return true;
        }
        i = i + 1;
    }
    false
}

proof fn lemma_sorted_list_is(l: Seq<Seq<char>>, s: Set<Seq<char>>)
    requires
        strictly_sorted(l),
        l.to_set() == s,
    ensures
        sorted_list(s) == l,
{
    lemma_sorted_unique(sorted_list(s), l);
}

/// The elements of `set` that `sel` holds (`dirs`: as directories), sorted.
fn present_names(set: &StringSet, sel: &Vec<Vec<char>>, dirs: bool) -> (res: Vec<Vec<char>>)
    requires
        set.wf(),
    ensures
        res@.map_values(|v: Vec<char>| v@) == sorted_list(
            if dirs {
                present_dirs(set@, sel@.map_values(|v: Vec<char>| v@))
            } else {
                present_files(set@, sel@.map_values(|v: Vec<char>| v@))
            },
        ),
        strictly_sorted(res@.map_values(|v: Vec<char>| v@)),
        res@.map_values(|v: Vec<char>| v@).to_set() == (if dirs {
            present_dirs(set@, sel@.map_values(|v: Vec<char>| v@))
        } else {
            present_files(set@, sel@.map_values(|v: Vec<char>| v@))
        }),
{
    let ghost sv = sel@.map_values(|v: Vec<char>| v@);
    let ghost target = if dirs { present_dirs(set@, sv) } else { present_files(set@, sv) };
    let cands = set.to_vec();
    let ghost cv = cands@.map_values(|s: String| s@);
    proof {
        set.lemma_view_is_elems();
    }
    let mut hs: Vec<Vec<char>> = Vec::new();
    let mut i: usize = 0;
    assert(hs@.map_values(|v: Vec<char>| v@).to_set() =~= Set::<Seq<char>>::empty());
    while i < cands.len()
        invariant
            i <= cands.len(),
            cv == cands@.map_values(|s: String| s@),
            sv == sel@.map_values(|v: Vec<char>| v@),
            cv.to_set() == set@,
            target == (if dirs { present_dirs(set@, sv) } else { present_files(set@, sv) }),
            strictly_sorted(hs@.map_values(|v: Vec<char>| v@)),
            hs@.map_values(|v: Vec<char>| v@).to_set() == Set::new(
                |x: Seq<char>| exists|j: int| 0 <= j < i && cv[j] == x && target.contains(x),
            ),
        decreases cands.len() - i,
    {
        let ghost before = hs@.map_values(|v: Vec<char>| v@).to_set();
        let c = chars_of(cands[i].as_str());
        assert(c@ == cv[i as int]);
        assert(set@.contains(c@)) by {
            assert(cv.to_set().contains(cv[i as int]));
        }
        let keep = if dirs { dir_in_selection_exec(&c, sel) } else { in_selection_exec(&c, sel) };
        assert(keep == target.contains(c@));
        if keep {
            insert_sorted(&mut hs, c);
        }
        i = i + 1;
        let ghost now = hs@.map_values(|v: Vec<char>| v@).to_set();
        assert(now =~= Set::new(|x: Seq<char>| exists|j: int| 0 <= j < i && cv[j] == x && target.contains(x))) by {
            assert forall|x: Seq<char>| (exists|j: int| 0 <= j < i && cv[j] == x && target.contains(x)) implies now.contains(x) by {
                let j = choose|j: int| 0 <= j < i && cv[j] == x && target.contains(x);
                if j < i - 1 {
                    assert(before.contains(x));
                }
            }
        }
    }
    let ghost hv = hs@.map_values(|v: Vec<char>| v@);
    assert(hv.to_set() =~= target) by {
        assert forall|x: Seq<char>| target.contains(x) implies hv.to_set().contains(x) by {
            assert(set@.contains(x));
            assert(cv.to_set().contains(x));
            let j = choose|j: int| 0 <= j < cv.len() && cv[j] == x;
        }
    }
    proof {
        lemma_sorted_list_is(hv, target);
    }
    hs
}

/// The extension note of a path, computed.
fn ext_note_exec(p: &Vec<char>) -> (res: Option<Vec<char>>)
    ensures
        match res {
            Some(e) => ext_note(p@) == Some(e@),
            None => ext_note(p@) is None,
        },
{
    let ps = string_of(p);
    match path_extension(ps.as_str()) {
        Some(e) => {
            let es = string_of(&e);
            let low = to_lowercase_chars(es.as_str());
            let mut out = vec!['.'];
            append_chars(&mut out, &chars_of(low.as_str()));
            Some(out)
        },
        None => None,
    }
}

/// The extensions of `exts` that some selected path has, sorted.
fn present_ext_names(exts: &StringSet, sel: &Vec<Vec<char>>) -> (res: Vec<Vec<char>>)
    requires
        exts.wf(),
    ensures
        res@.map_values(|v: Vec<char>| v@) == sorted_list(present_exts(exts@, sel@.map_values(|v: Vec<char>| v@))),
        strictly_sorted(res@.map_values(|v: Vec<char>| v@)),
        res@.map_values(|v: Vec<char>| v@).to_set() == present_exts(exts@, sel@.map_values(|v: Vec<char>| v@)),
{
    let ghost sv = sel@.map_values(|v: Vec<char>| v@);
    let ghost target = present_exts(exts@, sv);
    let mut hs: Vec<Vec<char>> = Vec::new();
    let mut i: usize = 0;
    assert(hs@.map_values(|v: Vec<char>| v@).to_set() =~= Set::<Seq<char>>::empty());
    while i < sel.len()
        invariant
            i <= sel.len(),
            sv == sel@.map_values(|v: Vec<char>| v@),
            target == present_exts(exts@, sv),
            exts.wf(),
            strictly_sorted(hs@.map_values(|v: Vec<char>| v@)),
            hs@.map_values(|v: Vec<char>| v@).to_set() == Set::new(
                |e: Seq<char>| exts@.contains(e) && exists|j: int| 0 <= j < i && ext_note(sv[j]) == Some(e),
            ),
        decreases sel.len() - i,
    {
        let ghost before = hs@.map_values(|v: Vec<char>| v@).to_set();
        assert(sv[i as int] == sel@[i as int]@);
        let n = ext_note_exec(&sel[i]);
        match n {
            Some(e) => {
                let es = string_of(&e);
                if exts.contains(es.as_str()) {
                    insert_sorted(&mut hs, e);
                }
            },
            None => {},
        }
        i = i + 1;
        let ghost now = hs@.map_values(|v: Vec<char>| v@).to_set();
        assert(now =~= Set::new(|e: Seq<char>| exts@.contains(e) && exists|j: int| 0 <= j < i && ext_note(sv[j]) == Some(e))) by {
            assert forall|e: Seq<char>| (exts@.contains(e) && exists|j: int| 0 <= j < i && ext_note(sv[j]) == Some(e)) implies now.contains(e) by {
                let j = choose|j: int| 0 <= j < i && ext_note(sv[j]) == Some(e);
                if j < i - 1 {
                    assert(before.contains(e));
                }
            }
        }
    }
    let ghost hv = hs@.map_values(|v: Vec<char>| v@);
    assert(hv.to_set() =~= target);
    proof {
        lemma_sorted_list_is(hv, target);
    }
    hs
}

/// Adds the list note for the sorted elements `hs` (of the set `s`) after `label`.
fn push_list_note(lines: &mut Vec<Vec<char>>, label: &str, hs: &Vec<Vec<char>>, Ghost(st): Ghost<Set<Seq<char>>>)
    requires
        hs@.map_values(|v: Vec<char>| v@) == sorted_list(st),
        strictly_sorted(hs@.map_values(|v: Vec<char>| v@)),
        hs@.map_values(|v: Vec<char>| v@).to_set() == st,
    ensures
        final(lines)@.map_values(|v: Vec<char>| v@) == old(lines)@.map_values(|v: Vec<char>| v@) + list_note(label@, st),
{
    let ghost hv = hs@.map_values(|v: Vec<char>| v@);
    let ghost l0 = lines@.map_values(|v: Vec<char>| v@);
    if hs.len() == 0 {
        assert(hv.len() == 0);
        assert(st =~= Set::<Seq<char>>::empty()) by {
            assert(hv =~= Seq::<Seq<char>>::empty());
        }
        assert(l0 + list_note(label@, st) =~= l0);
    } else {
        assert(hv.to_set().contains(hv[0]));
        assert(st != Set::<Seq<char>>::empty());
        let mut line = chars_of(label);
        let sep = chars_of(", ");
        let joined = join_chars(hs, &sep);
        append_chars(&mut line, &joined);
        lines.push(line);
        assert(lines@.map_values(|v: Vec<char>| v@) =~= l0 + list_note(label@, st));
    }
}

/// Adds the line `text` when `b` holds.
fn push_flag_note(lines: &mut Vec<Vec<char>>, b: bool, text: Vec<char>)
    ensures
        final(lines)@.map_values(|v: Vec<char>| v@) == old(lines)@.map_values(|v: Vec<char>| v@) + flag_note(b, text@),
{
    let ghost l0 = lines@.map_values(|v: Vec<char>| v@);
    if b {
        lines.push(text);
        assert(lines@.map_values(|v: Vec<char>| v@) =~= l0 + flag_note(b, text@));
    } else {
        assert(l0 + flag_note(b, text@) =~= l0);
    }
}

/// Writes the notes of a document: one line each for the excluded directories and files
/// that the selection holds, the included and excluded extensions that selected files
/// have, the removed prefixes, the removal pattern and the Rust filters in use.
pub fn build_notes_section(
    exclude_dirs: &StringSet,
    exclude_files: &StringSet,
    include_exts: &StringSet,
    exclude_exts: &StringSet,
    remove_prefixes: &[String],
    has_remove_regex: bool,
    rust_remove_inline: bool,
    rust_remove_doc: bool,
    rust_signatures_only: bool,
    signatures_filter: &str,
    rel_selected_paths: &[String],
) -> (res: String)
    requires
        exclude_dirs.wf(),
        exclude_files.wf(),
        include_exts.wf(),
        exclude_exts.wf(),
    ensures
        res@ == join_with(
            note_lines(
                exclude_dirs@,
                exclude_files@,
                include_exts@,
                exclude_exts@,
                remove_prefixes@.map_values(|s: String| s@),
                has_remove_regex,
                rust_remove_inline,
                rust_remove_doc,
                rust_signatures_only,
                signatures_filter@,
                rel_selected_paths@.map_values(|s: String| s@),
            ),
            "\n"@,
        ),
{
    let mut sel: Vec<Vec<char>> = Vec::new();
    let mut i: usize = 0;
    while i < rel_selected_paths.len()
        invariant
            i <= rel_selected_paths.len(),
            sel@.map_values(|v: Vec<char>| v@) == rel_selected_paths@.map_values(|s: String| s@).subrange(0, i as int),
        decreases rel_selected_paths.len() - i,
    {
        let ghost s0 = sel@.map_values(|v: Vec<char>| v@);
        let c = chars_of(rel_selected_paths[i].as_str());
        sel.push(c);
        assert(sel@.map_values(|v: Vec<char>| v@) =~= s0.push(c@));
        assert(rel_selected_paths@.map_values(|s: String| s@).subrange(0, i + 1) =~= rel_selected_paths@.map_values(|s: String| s@).subrange(0, i as int).push(rel_selected_paths@[i as int]@));
        i = i + 1;
    }
    assert(rel_selected_paths@.map_values(|s: String| s@).subrange(0, i as int) =~= rel_selected_paths@.map_values(|s: String| s@));
    let ghost sv = sel@.map_values(|v: Vec<char>| v@);
    let mut lines: Vec<Vec<char>> = Vec::new();
    assert(lines@.map_values(|v: Vec<char>| v@) =~= Seq::<Seq<char>>::empty());

    let d = present_names(exclude_dirs, &sel, true);
    push_list_note(&mut lines, "Excluded directories: ", &d, Ghost(present_dirs(exclude_dirs@, sv)));
    let f = present_names(exclude_files, &sel, false);
    push_list_note(&mut lines, "Excluded files: ", &f, Ghost(present_files(exclude_files@, sv)));
    let ie = present_ext_names(include_exts, &sel);
    push_list_note(&mut lines, "Included extensions: ", &ie, Ghost(present_exts(include_exts@, sv)));
    let ee = present_ext_names(exclude_exts, &sel);
    push_list_note(&mut lines, "Excluded extensions: ", &ee, Ghost(present_exts(exclude_exts@, sv)));

    let mut pv: Vec<Vec<char>> = Vec::new();
    let mut j: usize = 0;
    while j < remove_prefixes.len()
        invariant
            j <= remove_prefixes.len(),
            pv@.map_values(|v: Vec<char>| v@) == remove_prefixes@.map_values(|s: String| s@).subrange(0, j as int),
        decreases remove_prefixes.len() - j,
    {
        let ghost p0 = pv@.map_values(|v: Vec<char>| v@);
        let c = chars_of(remove_prefixes[j].as_str());
        pv.push(c);
        assert(pv@.map_values(|v: Vec<char>| v@) =~= p0.push(c@));
        assert(remove_prefixes@.map_values(|s: String| s@).subrange(0, j + 1) =~= remove_prefixes@.map_values(|s: String| s@).subrange(0, j as int).push(remove_prefixes@[j as int]@));
        j = j + 1;
    }
    assert(remove_prefixes@.map_values(|s: String| s@).subrange(0, j as int) =~= remove_prefixes@.map_values(|s: String| s@));
    let mut pl = chars_of("Removed lines starting with: ");
    append_chars(&mut pl, &join_chars(&pv, &chars_of(", ")));
    push_flag_note(&mut lines, remove_prefixes.len() > 0, pl);
    push_flag_note(&mut lines, has_remove_regex, chars_of("Applied remove-regex"));
    push_flag_note(&mut lines, rust_remove_inline, chars_of("Removed Rust inline comments (//, /* */)"));
    push_flag_note(&mut lines, rust_remove_doc, chars_of("Removed Rust doc comments (///, //!, /** */)"));
    let fc = chars_of(signatures_filter);
    let ft = crate::chars::trim_range(&fc, 0, fc.len());
    assert(fc@.subrange(0, fc@.len() as int) =~= fc@);
    let sig_line = if ft.len() == 0 {
        chars_of("Functions bodies omitted (signatures only) for all Rust files")
    } else {
        let mut l = chars_of("Functions bodies omitted (signatures only) for: ");
        append_chars(&mut l, &fc);
        l
    };
    push_flag_note(&mut lines, rust_signatures_only, sig_line);
    let nl = chars_of("\n");
    let out = join_chars(&lines, &nl);
    string_of(&out)
}


/* ------------------------------ display ------------------------------ */

/// The decimal digit for `d` (below ten).
pub open spec fn digit_char(d: nat) -> char {
    seq!['0', '1', '2', '3', '4', '5', '6', '7', '8', '9'][d as int]
}

/// The decimal numeral of `n`, without leading zeros.
pub open spec fn decimal(n: nat) -> Seq<char>
    decreases n,
{
    if n < 10 {
        seq![digit_char(n)]
    } else {
        decimal(n / 10).push(digit_char(n % 10))
    }
}

/// Writes `n` in decimal.
pub fn decimal_string(n: usize) -> (res: String)
    ensures
        res@ == decimal(n as nat),
{
    let digits = vec!['0', '1', '2', '3', '4', '5', '6', '7', '8', '9'];
    assert(digits@ =~= seq!['0', '1', '2', '3', '4', '5', '6', '7', '8', '9']);
    let mut acc: Vec<char> = Vec::new();
    let mut m = n;
    while m >= 10
        invariant
            digits@ == seq!['0', '1', '2', '3', '4', '5', '6', '7', '8', '9'],
            decimal(n as nat) == decimal(m as nat) + acc@,
        decreases m,
    {
        let ghost a0 = acc@;
        let d = digits[m % 10];
        acc.insert(0, d);
        let ghost dc = digit_char((m % 10) as nat);
        assert(acc@ =~= seq![dc] + a0);
        assert(decimal(m as nat) == decimal((m / 10) as nat).push(dc));
        assert(decimal((m / 10) as nat).push(dc) + a0 =~= decimal((m / 10) as nat) + acc@);
        m = m / 10;
    }
    let mut out: Vec<char> = vec![digits[m]];
    append_chars(&mut out, &acc);
    assert(out@ =~= decimal(n as nat));
    string_of(&out)
}

/// Ten to the power `k`.
pub open spec fn pow10(k: nat) -> nat
    decreases k,
{
    if k == 0 {
        1
    } else {
        10 * pow10((k - 1) as nat)
    }
}

/// A number below `10^k` (with `k` at least one) has at most `k` decimal digits.
proof fn lemma_decimal_len(n: nat, k: nat)
    requires
        k >= 1,
        n < pow10(k),
    ensures
        decimal(n).len() <= k,
    decreases k,
{
    if n >= 10 {
        let p = pow10((k - 1) as nat);
        assert(n < 10 * p);
        assert(n / 10 < p) by (nonlinear_arith)
            requires
                n < 10 * p,
        ;
        if k == 1 {
            assert(p == 1);
        } else {
            lemma_decimal_len(n / 10, (k - 1) as nat);
        }
    }
}

/// The most characters the output view shows.
pub const UI_OUTPUT_CHAR_LIMIT: usize = 50000;

/// The line put at the end of an output cut for display.
pub open spec fn truncation_footer(total: nat) -> Seq<char> {
    "\n… [truncated: showing "@ + decimal(UI_OUTPUT_CHAR_LIMIT as nat) + " of "@ + decimal(total)
        + " chars — use “Copy Output” to copy all]\n"@
}

/// The text the output view shows: the whole output when it is within the limit, else its
/// first characters followed by the footer, the two together no longer than the limit
/// unless the footer alone is.
pub open spec fn displayed_output_spec(text: Seq<char>) -> Seq<char> {
    if text.len() <= UI_OUTPUT_CHAR_LIMIT {
        text
    } else {
        let f = truncation_footer(text.len());
        let keep = if f.len() <= UI_OUTPUT_CHAR_LIMIT {
            UI_OUTPUT_CHAR_LIMIT - f.len()
        } else {
            0
        };
        text.subrange(0, keep) + f
    }
}

/// The text to show in the output view for an output (already normalized).
pub fn displayed_output(text: &str) -> (res: String)
    ensures
        res@ == displayed_output_spec(text@),
        res@.len() <= UI_OUTPUT_CHAR_LIMIT,
{
    let cs = chars_of(text);
    if cs.len() <= UI_OUTPUT_CHAR_LIMIT {
        return string_of(&cs);
    }
    let mut footer = String::from_str("\n… [truncated: showing ");
    footer.append(decimal_string(UI_OUTPUT_CHAR_LIMIT).as_str());
    footer.append(" of ");
    footer.append(decimal_string(cs.len()).as_str());
    footer.append(" chars — use “Copy Output” to copy all]\n");
    let fc = chars_of(footer.as_str());
    proof {
        reveal_strlit("\n… [truncated: showing ");
        reveal_strlit(" of ");
        reveal_strlit(" chars — use “Copy Output” to copy all]\n");
        assert(pow10(20) == 100000000000000000000nat) by {
            reveal_with_fuel(pow10, 21);
        }
        lemma_decimal_len(cs.len() as nat, 20);
        lemma_decimal_len(UI_OUTPUT_CHAR_LIMIT as nat, 20);
        assert(fc@.len() <= UI_OUTPUT_CHAR_LIMIT);
    }
    let keep = UI_OUTPUT_CHAR_LIMIT.saturating_sub(fc.len());
    let mut out = crate::chars::slice_to_vec(&cs, 0, keep);
    append_chars(&mut out, &fc);
    assert(out@ =~= displayed_output_spec(text@));
    string_of(&out)
}

/// The number of whitespace-separated words of `s`.
pub open spec fn word_count(s: Seq<char>) -> nat
    decreases s.len(),
{
    if s.len() == 0 {
        0
    } else {
        let starts = !crate::chars::is_ws(s.last()) && (s.len() == 1 || crate::chars::is_ws(s[s.len() - 2]));
        word_count(s.drop_last()) + if starts {
            1nat
        } else {
            0nat
        }
    }
}

/// The token count shown for an output: its number of whitespace-separated words.
pub fn count_tokens(text: &str) -> (n: usize)
    ensures
        n == word_count(text@),
{
    let cs = chars_of(text);
    let mut n: usize = 0;
    let mut i: usize = 0;
    while i < cs.len()
        invariant
            i <= cs.len(),
            cs@ == text@,
            n == word_count(cs@.subrange(0, i as int)),
            n <= i,
        decreases cs.len() - i,
    {
        let starts = !crate::chars::is_whitespace_char(cs[i]) && (i == 0 || crate::chars::is_whitespace_char(cs[i - 1]));
        assert(cs@.subrange(0, i + 1).drop_last() =~= cs@.subrange(0, i as int));
        if starts {
            n = n + 1;
        }
        i = i + 1;
    }
    assert(cs@.subrange(0, cs.len() as int) =~= cs@);
    n
}

/// The statistics line for an output: characters, tokens and lines, all zero for a
/// placeholder text.
pub open spec fn stats_label_spec(text: Seq<char>) -> Seq<char> {
    let placeholder = text == no_folder_text() || text == no_items_text();
    let chars: nat = if placeholder { 0 } else { text.len() };
    let tokens: nat = if placeholder { 0 } else { word_count(text) };
    let lines: nat = if placeholder || text.len() == 0 { 0 } else { lines_spec(text).len() };
    decimal(chars) + " chars • "@ + decimal(tokens) + " tokens • "@ + decimal(lines) + " LOC"@
}

/// Writes the statistics line shown under the output.
pub fn stats_label(text: &str) -> (res: String)
    ensures
        res@ == stats_label_spec(text@),
{
    let (chars, lines) = output_stats(text);
    let tokens = if is_placeholder_message(text) {
        0
    } else {
        count_tokens(text)
    };
    let mut out = decimal_string(chars);
    out.append(" chars • ");
    out.append(decimal_string(tokens).as_str());
    out.append(" tokens • ");
    out.append(decimal_string(lines).as_str());
    out.append(" LOC");
    out
}

/// What the output view holds for a generated text: the text with runs of blank lines
/// collapsed (kept whole for copying), the part of it that is shown, and its statistics.
pub fn output_view(text: &str) -> (res: (String, String, String))
    ensures
        res.0@ == crate::text::collapse_blank_lines_spec(text@),
        res.1@ == displayed_output_spec(res.0@),
        res.2@ == stats_label_spec(res.0@),
{
    let normalized = crate::text::collapse_consecutive_blank_lines(text);
    let shown = displayed_output(normalized.as_str());
    let stats = stats_label(normalized.as_str());
    (normalized, shown, stats)
}

/* ------------------------------ token counts ------------------------------ */

/// The number of tokens that the `o200k_base` tokenizer of tiktoken-rs gives for `text`
/// with special tokens allowed; `None` when encoding fails.
pub uninterp spec fn o200k_encoding_len(text: Seq<char>) -> Option<nat>;

/// Encodes `text` with tiktoken-rs's shared `o200k_base` tokenizer
/// (`CoreBPE::encode` with every special token allowed) and counts the tokens; `None` when
/// `encode` reports an error. The count itself is named, not stated. Loading the shared
/// tokenizer unwraps the parse of the table that the crate embeds.
#[verifier::external_body]
fn o200k_token_count(text: &str) -> (res: Option<usize>)
    ensures
        match res {
            Some(n) => o200k_encoding_len(text@) == Some(n as nat),
            None => o200k_encoding_len(text@) is None,
        },
{
    let bpe = tiktoken_rs::o200k_base_singleton();
    bpe.encode(text, &bpe.special_tokens()).ok().map(|(tokens, _)| tokens.len())
}

/// The largest output, in UTF-8 bytes, whose tokens are counted.
pub const MAX_TOKENIZE_BYTES: usize = 16777216;

/// The statistics line when tokens are counted by the tokenizer, given its result `tokens`
/// for the text: a text over the size limit is not tokenized; a placeholder counts nothing;
/// when the tokenizer fails the count stays open (`…`).
pub open spec fn bpe_stats_label_spec(text: Seq<char>, tokens: Option<nat>) -> Seq<char> {
    let placeholder = text == no_folder_text() || text == no_items_text();
    let chars: nat = if placeholder { 0 } else { text.len() };
    let lines: nat = if placeholder || text.len() == 0 { 0 } else { lines_spec(text).len() };
    if vstd::utf8::encode_utf8(text).len() > MAX_TOKENIZE_BYTES {
        decimal(chars) + " chars • (token count skipped for large output) • "@ + decimal(lines) + " LOC"@
    } else if placeholder {
        decimal(0) + " chars • "@ + decimal(0) + " tokens • "@ + decimal(0) + " LOC"@
    } else {
        match tokens {
            Some(t) => decimal(chars) + " chars • "@ + decimal(t) + " tokens • "@ + decimal(lines) + " LOC"@,
            None => decimal(chars) + " chars • … tokens • "@ + decimal(lines) + " LOC"@,
        }
    }
}

/// Writes the statistics line for `text` from the tokenizer's result `tokens` for it.
pub fn bpe_stats_label_from(text: &str, tokens: Option<usize>) -> (res: String)
    ensures
        res@ == bpe_stats_label_spec(text@, match tokens {
            Some(t) => Some(t as nat),
            None => None,
        }),
{
    let (chars, lines) = output_stats(text);
    let bytes = text.as_bytes();
    if bytes.len() > MAX_TOKENIZE_BYTES {
        let mut out = decimal_string(chars);
        out.append(" chars • (token count skipped for large output) • ");
        out.append(decimal_string(lines).as_str());
        out.append(" LOC");
        return out;
    }
    let mut out = decimal_string(chars);
    if is_placeholder_message(text) {
        out.append(" chars • ");
        out.append(decimal_string(0).as_str());
        out.append(" tokens • ");
    } else {
        match tokens {
            Some(t) => {
                out.append(" chars • ");
                out.append(decimal_string(t).as_str());
                out.append(" tokens • ");
            },
            None => {
                out.append(" chars • … tokens • ");
            },
        }
    }
    out.append(decimal_string(lines).as_str());
    out.append(" LOC");
    out
}

/// Writes the statistics line for `text`, counting tokens with the `o200k_base` tokenizer
/// when the text is within the size limit and is not a placeholder.
pub fn bpe_stats_label(text: &str) -> (res: String)
    ensures
        res@ == bpe_stats_label_spec(text@, o200k_encoding_len(text@)),
{
    let bytes = text.as_bytes();
    let tokens = if bytes.len() > MAX_TOKENIZE_BYTES || is_placeholder_message(text) {
        None
    } else {
        o200k_token_count(text)
    };
    bpe_stats_label_from(text, tokens)
}

} // verus!
