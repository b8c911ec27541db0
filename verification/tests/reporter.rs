use nodeclean::report::{RenderAction, Reporter};
use nodeclean::{Project, Status, StatusUpdate};

fn candidates(names: &[&str]) -> Vec<Project> {
    names.iter().map(|n| Project::new(vec![n.to_string()])).collect()
}

fn event(name: &str, status: Status) -> StatusUpdate {
    StatusUpdate { path: vec![name.to_string()], status }
}

#[test]
fn success_finalizes_exactly_one_line() {
    // a's cache dir was deleted successfully: exactly one finalized
    // success line, for a; b (never a candidate of the event) stays put.
    let mut reporter = Reporter::new(candidates(&["a", "b"]));

    let action = reporter.handle_event(&event("a", Status::Deleting));
    assert_eq!(action, RenderAction::Progress { index: 0 });

    let action = reporter.handle_event(&event("a", Status::Done));
    assert_eq!(action, RenderAction::FinishSuccess { index: 0 });

    assert!(matches!(reporter.projects[0].status, Status::Done));
    assert!(matches!(reporter.projects[1].status, Status::Waiting));
}

#[test]
fn failure_finalizes_as_failure() {
    let mut reporter = Reporter::new(candidates(&["a"]));
    reporter.handle_event(&event("a", Status::Deleting));
    let action = reporter.handle_event(&event("a", Status::Failed));
    assert_eq!(action, RenderAction::FinishFailure { index: 0 });
    assert!(matches!(reporter.projects[0].status, Status::Failed));
}

#[test]
fn unknown_paths_are_ignored() {
    let mut reporter = Reporter::new(candidates(&["a"]));
    let action = reporter.handle_event(&event("stranger", Status::Done));
    assert_eq!(action, RenderAction::Ignored);
    assert!(matches!(reporter.projects[0].status, Status::Waiting));
}

#[test]
fn events_update_the_matching_candidate_only() {
    let mut reporter = Reporter::new(candidates(&["a", "b", "c"]));
    let action = reporter.handle_event(&event("b", Status::Deleting));
    assert_eq!(action, RenderAction::Progress { index: 1 });
    assert!(matches!(reporter.projects[0].status, Status::Waiting));
    assert!(matches!(reporter.projects[1].status, Status::Deleting));
    assert!(matches!(reporter.projects[2].status, Status::Waiting));
}
