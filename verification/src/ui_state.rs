//! The state of the user interface that its decisions read: file-system and generation
//! flags, and the Rust-specific filter choices.
use crate::text::StringSet;
use vstd::prelude::*;

verus! {

/// Whether the tree needs a rescan, and whether watching for changes is off.
#[derive(Debug, Clone, Copy)]
pub struct FsState {
    pub dirty: bool,
    pub watcher_disabled: bool,
}

impl Default for FsState {
    fn default() -> (res: Self)
        ensures
            !res.dirty,
            !res.watcher_disabled,
    {
        FsState { dirty: false, watcher_disabled: false }
    }
}

impl FsState {
    /// A relevant change was seen on disk: a rescan is due.
    pub fn mark_dirty(&mut self)
        ensures
            final(self).dirty,
            final(self).watcher_disabled == old(self).watcher_disabled,
    {
        self.dirty = true;
    }

    /// Whether to rescan now: when a project is open and a change is pending. A rescan
    /// clears the pending change; otherwise the state is left as it is.
    pub fn take_rescan(&mut self, project_open: bool) -> (scan: bool)
        ensures
            scan == (project_open && old(self).dirty),
            final(self).dirty == (old(self).dirty && !scan),
            final(self).watcher_disabled == old(self).watcher_disabled,
    {
        if project_open && self.dirty {
            self.dirty = false;
            true
        } else {
            false
        }
    }
}

/// What a rescan leads to: a new tree to show, a new output for the same tree, or nothing.
#[derive(Debug, Clone, Copy, PartialEq, Eq, Structural)]
pub enum RescanOutcome {
    TreeChanged,
    Regenerate,
    Unchanged,
}

/// The outcome of a rescan: the tree changed when there was no earlier set of paths or the
/// set differs; otherwise the output is generated again, unless only directories are shown.
pub open spec fn rescan_outcome_spec(previous: Option<Set<Seq<char>>>, fresh: Set<Seq<char>>, dirs_only: bool) -> RescanOutcome {
    match previous {
        None => RescanOutcome::TreeChanged,
        Some(p) => if p != fresh {
            RescanOutcome::TreeChanged
        } else if dirs_only {
            RescanOutcome::Unchanged
        } else {
            RescanOutcome::Regenerate
        },
    }
}

/// Decides what a rescan leads to from the set of paths before it and after it.
pub fn rescan_outcome(previous: Option<&StringSet>, fresh: &StringSet, dirs_only: bool) -> (res: RescanOutcome)
    requires
        previous matches Some(p) ==> p.wf(),
        fresh.wf(),
    ensures
        res == rescan_outcome_spec(match previous {
            Some(p) => Some(p@),
            None => None,
        }, fresh@, dirs_only),
{
    match previous {
        None => RescanOutcome::TreeChanged,
        Some(p) => if !p.same_as(fresh) {
            RescanOutcome::TreeChanged
        } else if dirs_only {
            RescanOutcome::Unchanged
        } else {
            RescanOutcome::Regenerate
        },
    }
}

/// Whether an output generation runs, and whether another one is due after it.
#[derive(Debug, Clone, Copy)]
pub struct GenerationState {
    pub in_progress: bool,
    pub queue_another: bool,
}

impl Default for GenerationState {
    fn default() -> (res: Self)
        ensures
            !res.in_progress,
            !res.queue_another,
    {
        GenerationState { in_progress: false, queue_another: false }
    }
}

/// The state after a request to generate: a request during a run queues one more run.
pub open spec fn after_request(g: GenerationState) -> GenerationState {
    GenerationState { in_progress: g.in_progress, queue_another: g.queue_another || g.in_progress }
}

/// The state after `n` requests.
pub open spec fn after_requests(g: GenerationState, n: nat) -> GenerationState
    decreases n,
{
    if n == 0 {
        g
    } else {
        after_request(after_requests(g, (n - 1) as nat))
    }
}

impl GenerationState {
    /// A request to generate the output: during a run, one more run is queued and no run
    /// starts; otherwise a run may start.
    pub fn request(&mut self) -> (start: bool)
        ensures
            start == !old(self).in_progress,
            *final(self) == after_request(*old(self)),
    {
        if self.in_progress {
            self.queue_another = true;
            false
        } else {
            true
        }
    }

    /// A run starts, with nothing queued after it yet.
    pub fn start_run(&mut self)
        ensures
            final(self).in_progress,
            !final(self).queue_another,
    {
        self.in_progress = true;
        self.queue_another = false;
    }

    /// A run ends; returns whether another run was requested meanwhile, and clears that.
    pub fn finish_run(&mut self) -> (again: bool)
        ensures
            again == old(self).queue_another,
            !final(self).in_progress,
            !final(self).queue_another,
    {
        let again = self.queue_another;
        self.in_progress = false;
        self.queue_another = false;
        again
    }
}

/// Requests made while a run is in progress start no run of their own, and the run that
/// follows it is due exactly when there was at least one of them, however many there were.
pub proof fn lemma_requests_coalesce(n: nat)
    ensures
        after_requests((GenerationState { in_progress: true, queue_another: false }), n).in_progress,
        after_requests((GenerationState { in_progress: true, queue_another: false }), n).queue_another == (n > 0),
    decreases n,
{
    if n > 0 {
        lemma_requests_coalesce((n - 1) as nat);
    }
}

/// What a request to generate the output finds: whether a folder is open, the two listing
/// options, and whether any file and any folder is selected.
#[derive(Debug, Clone, Copy)]
pub struct OutputRequest {
    pub folder_open: bool,
    pub dirs_only: bool,
    pub hierarchy_only: bool,
    pub any_file_selected: bool,
    pub any_dir_selected: bool,
}

/// What a request to generate the output leads to.
#[derive(Debug, Clone, Copy, PartialEq, Eq, Structural)]
pub enum OutputPlan {
    /// A run is in progress: one more run is queued and none starts.
    Queue,
    /// No folder is open: the output is the no-folder text.
    NoFolder,
    /// Nothing of the listed kind is selected: the output is the no-items text.
    NothingSelected,
    /// Only the hierarchy (and notes) is wanted: the output is written at once.
    HeadOnly,
    /// A run starts that reads the selected files.
    ReadContents,
}

/// The plan for a request: a run in progress queues it; then a missing folder, an empty
/// selection of the listed kind (folders when only folders are listed, files otherwise),
/// and a hierarchy-only or folders-only listing each settle it without a run; otherwise a
/// run reads the files.
pub open spec fn output_plan_spec(g: GenerationState, r: OutputRequest) -> OutputPlan {
    if g.in_progress {
        OutputPlan::Queue
    } else if !r.folder_open {
        OutputPlan::NoFolder
    } else if (if r.dirs_only { !r.any_dir_selected } else { !r.any_file_selected }) {
        OutputPlan::NothingSelected
    } else if r.hierarchy_only || r.dirs_only {
        OutputPlan::HeadOnly
    } else {
        OutputPlan::ReadContents
    }
}

/// The generation state once a plan is taken: a queued request marks one more run, a run
/// that starts is in progress with nothing queued, and the others leave it as it was.
pub open spec fn state_after_plan(g: GenerationState, p: OutputPlan) -> GenerationState {
    match p {
        OutputPlan::Queue => after_request(g),
        OutputPlan::ReadContents => GenerationState { in_progress: true, queue_another: false },
        _ => g,
    }
}

/// The output text shown while a request waits for a run in progress.
pub open spec fn queued_text() -> Seq<char> {
    "⏳ Generating… (queued)"@
}

/// The output text shown while a run reads the files.
pub open spec fn generating_text() -> Seq<char> {
    "⏳ Generating…"@
}

/// The text shown at once, with empty statistics, before the plan's output is ready: the
/// queued text for a queued request, the generating text for a run that starts, none
/// otherwise.
pub open spec fn interim_text(p: OutputPlan) -> Option<Seq<char>> {
    match p {
        OutputPlan::Queue => Some(queued_text()),
        OutputPlan::ReadContents => Some(generating_text()),
        _ => None,
    }
}

/// The decision on a request: its plan, and the output text and statistics to show at once
/// when there are any.
#[derive(Debug)]
pub struct OutputDecision {
    pub plan: OutputPlan,
    pub interim: Option<(String, String)>,
}

impl GenerationState {
    /// Decides a request to generate the output. During a run the request is queued: the
    /// view shows the queued text with empty statistics, one more run is marked, and no
    /// run starts. Otherwise the plan follows `output_plan_spec`, and a run that starts
    /// shows the generating text with empty statistics.
    pub fn request_output(&mut self, req: OutputRequest) -> (res: OutputDecision)
        ensures
            res.plan == output_plan_spec(*old(self), req),
            *final(self) == state_after_plan(*old(self), res.plan),
            old(self).in_progress <==> res.plan == OutputPlan::Queue,
            match res.interim {
                Some((text, stats)) => interim_text(res.plan) == Some(text@) && stats@.len() == 0,
                None => interim_text(res.plan) is None,
            },
    {
        if self.in_progress {
            self.queue_another = true;
            return OutputDecision {
                plan: OutputPlan::Queue,
                interim: Some((String::from_str("⏳ Generating… (queued)"), String::new())),
            };
        }
        let nothing = if req.dirs_only { !req.any_dir_selected } else { !req.any_file_selected };
        if !req.folder_open {
            OutputDecision { plan: OutputPlan::NoFolder, interim: None }
        } else if nothing {
            OutputDecision { plan: OutputPlan::NothingSelected, interim: None }
        } else if req.hierarchy_only || req.dirs_only {
            OutputDecision { plan: OutputPlan::HeadOnly, interim: None }
        } else {
            self.start_run();
            OutputDecision {
                plan: OutputPlan::ReadContents,
                interim: Some((String::from_str("⏳ Generating…"), String::new())),
            }
        }
    }
}

/// A request during a run never starts a second one: it is queued, the view shows the
/// queued text with empty statistics, the run stays in progress and one more run is due
/// after it, whatever the request asks.
pub proof fn lemma_request_during_run_is_queued(g: GenerationState, r: OutputRequest)
    requires
        g.in_progress,
    ensures
        output_plan_spec(g, r) == OutputPlan::Queue,
        interim_text(output_plan_spec(g, r)) == Some(queued_text()),
        state_after_plan(g, output_plan_spec(g, r)).in_progress,
        state_after_plan(g, output_plan_spec(g, r)).queue_another,
{
}

/// Only a plan that reads the files starts a run; every other plan that is not queued
/// leaves the generation state unchanged.
pub proof fn lemma_only_reading_starts_a_run(g: GenerationState, r: OutputRequest)
    requires
        !g.in_progress,
    ensures
        state_after_plan(g, output_plan_spec(g, r)).in_progress <==> output_plan_spec(g, r) == OutputPlan::ReadContents,
        output_plan_spec(g, r) != OutputPlan::ReadContents ==> state_after_plan(g, output_plan_spec(g, r)) == g,
{
}

/// Which kinds of Rust comments to remove.
#[derive(Debug, Clone, Copy, PartialEq, Eq, Structural)]
pub enum CommentRemoval {
    NoRemoval,
    InlineOnly,
    DocOnly,
    InlineAndDoc,
}

impl Default for CommentRemoval {
    fn default() -> (res: Self)
        ensures
            res == CommentRemoval::NoRemoval,
    {
        CommentRemoval::NoRemoval
    }
}

impl CommentRemoval {
    /// Whether ordinary (non-doc) comments are removed.
    pub open spec fn removes_inline_spec(self) -> bool {
        self is InlineOnly || self is InlineAndDoc
    }

    /// Whether doc comments are removed.
    pub open spec fn removes_doc_spec(self) -> bool {
        self is DocOnly || self is InlineAndDoc
    }

    /// Whether ordinary (non-doc) comments are removed.
    pub fn removes_inline(self) -> (b: bool)
        ensures
            b == self.removes_inline_spec(),
    {
        matches!(self, CommentRemoval::InlineOnly | CommentRemoval::InlineAndDoc)
    }

    /// Whether doc comments are removed.
    pub fn removes_doc(self) -> (b: bool)
        ensures
            b == self.removes_doc_spec(),
    {
        matches!(self, CommentRemoval::DocOnly | CommentRemoval::InlineAndDoc)
    }

    /// The setting that removes ordinary comments iff `remove_inline` and doc comments iff
    /// `remove_doc`.
    pub fn from_flags(remove_inline: bool, remove_doc: bool) -> (res: Self)
        ensures
            res == (if remove_inline && remove_doc {
                CommentRemoval::InlineAndDoc
            } else if remove_inline {
                CommentRemoval::InlineOnly
            } else if remove_doc {
                CommentRemoval::DocOnly
            } else {
                CommentRemoval::NoRemoval
            }),
            res.removes_inline_spec() == remove_inline,
            res.removes_doc_spec() == remove_doc,
    {
        match (remove_inline, remove_doc) {
            (true, true) => CommentRemoval::InlineAndDoc,
            (true, false) => CommentRemoval::InlineOnly,
            (false, true) => CommentRemoval::DocOnly,
            (false, false) => CommentRemoval::NoRemoval,
        }
    }
}

/// Each setting is the one built from its own two flags.
pub proof fn lemma_comment_removal_from_own_flags(c: CommentRemoval)
    ensures
        c == (if c.removes_inline_spec() && c.removes_doc_spec() {
            CommentRemoval::InlineAndDoc
        } else if c.removes_inline_spec() {
            CommentRemoval::InlineOnly
        } else if c.removes_doc_spec() {
            CommentRemoval::DocOnly
        } else {
            CommentRemoval::NoRemoval
        }),
{
}

/// Whether the project holds Rust files, which comments to remove from them, and the
/// signatures filter, if any.
#[derive(Debug, Clone)]
pub struct RustUiState {
    pub has_files: bool,
    pub comment_removal: CommentRemoval,
    pub signatures_filter: Option<String>,
}

impl Default for RustUiState {
    fn default() -> (res: Self)
        ensures
            !res.has_files,
            res.comment_removal == CommentRemoval::NoRemoval,
            res.signatures_filter is None,
    {
        RustUiState { has_files: false, comment_removal: CommentRemoval::NoRemoval, signatures_filter: None }
    }
}

} // verus!
