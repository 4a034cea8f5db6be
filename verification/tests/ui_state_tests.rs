use stitch::ui_state::{CommentRemoval, GenerationState, OutputPlan, OutputRequest};

#[test]
fn comment_removal_flags_round_trip() {
    for (i, d) in [(false, false), (true, false), (false, true), (true, true)] {
        let c = CommentRemoval::from_flags(i, d);
        assert_eq!(c.removes_inline(), i);
        assert_eq!(c.removes_doc(), d);
    }
    assert_eq!(CommentRemoval::from_flags(true, true), CommentRemoval::InlineAndDoc);
    assert_eq!(CommentRemoval::default(), CommentRemoval::NoRemoval);
}

fn request(folder_open: bool, dirs_only: bool, hierarchy_only: bool, files: bool, dirs: bool) -> OutputRequest {
    OutputRequest {
        folder_open,
        dirs_only,
        hierarchy_only,
        any_file_selected: files,
        any_dir_selected: dirs,
    }
}

#[test]
fn request_during_run_shows_queued_placeholder() {
    let mut g = GenerationState { in_progress: true, queue_another: false };
    let d = g.request_output(request(true, false, false, true, true));
    assert_eq!(d.plan, OutputPlan::Queue);
    assert_eq!(d.interim, Some(("⏳ Generating… (queued)".to_string(), String::new())));
    assert!(g.in_progress);
    assert!(g.queue_another);
    // A second request while the run goes on changes nothing more.
    let d2 = g.request_output(request(false, false, false, false, false));
    assert_eq!(d2.plan, OutputPlan::Queue);
    assert!(g.in_progress && g.queue_another);
    assert!(g.finish_run());
    assert!(!g.in_progress && !g.queue_another);
}

#[test]
fn request_plans_follow_folder_selection_and_options() {
    let cases = [
        (request(false, false, false, true, true), OutputPlan::NoFolder),
        (request(true, false, false, false, true), OutputPlan::NothingSelected),
        (request(true, true, false, true, false), OutputPlan::NothingSelected),
        (request(true, true, false, false, true), OutputPlan::HeadOnly),
        (request(true, false, true, true, false), OutputPlan::HeadOnly),
    ];
    for (req, plan) in cases {
        let mut g = GenerationState::default();
        let d = g.request_output(req);
        assert_eq!(d.plan, plan);
        assert_eq!(d.interim, None);
        assert!(!g.in_progress && !g.queue_another);
    }
    let mut g = GenerationState::default();
    let d = g.request_output(request(true, false, false, true, false));
    assert_eq!(d.plan, OutputPlan::ReadContents);
    assert_eq!(d.interim, Some(("⏳ Generating…".to_string(), String::new())));
    assert!(g.in_progress && !g.queue_another);
}
