use nodeclean::discover::{discover, DirTree};
use nodeclean::pool::DeletionPool;
use nodeclean::report::{RenderAction, Reporter};
use nodeclean::{Project, Status};

fn dir(name: &str, has_manifest: bool, has_cache: bool, subdirs: Vec<DirTree>) -> DirTree {
    DirTree { name: name.to_string(), has_manifest, has_cache, subdirs }
}

#[test]
fn discovery_feeds_pool_feeds_reporter() {
    // Two candidates are discovered; a's cache dir deletes cleanly while
    // c's vanished in the meantime. The reporter ends with exactly one
    // finalized success line and exactly one finalized failure line.
    let root = dir(
        ".",
        false,
        false,
        vec![
            dir("a", true, true, vec![]),
            dir("b", false, false, vec![]),
            dir("c", true, true, vec![]),
        ],
    );
    let found = discover(&root, 2);
    assert_eq!(found.len(), 2);

    let copies: Vec<Project> = found.iter().map(|p| Project::new(p.path())).collect();
    let mut reporter = Reporter::new(copies);
    let mut pool = DeletionPool::new(found, 8);

    let mut actions = Vec::new();
    while let Some(i) = pool.next_waiting() {
        assert!(pool.can_start());
        let started = pool.start(i);
        actions.push(reporter.handle_event(&started));
        let removal_succeeded = started.path == vec!["a".to_string()];
        let finished = pool.finish(i, true, removal_succeeded);
        actions.push(reporter.handle_event(&finished));
    }

    assert!(pool.all_terminal());
    assert_eq!(
        actions,
        vec![
            RenderAction::Progress { index: 0 },
            RenderAction::FinishSuccess { index: 0 },
            RenderAction::Progress { index: 1 },
            RenderAction::FinishFailure { index: 1 },
        ]
    );
    assert!(matches!(reporter.projects[0].status, Status::Done));
    assert!(matches!(reporter.projects[1].status, Status::Failed));
}
