use nodeclean::pool::DeletionPool;
use nodeclean::{Project, Status};

fn candidates(names: &[&str]) -> Vec<Project> {
    names.iter().map(|n| Project::new(vec![n.to_string()])).collect()
}

#[test]
fn each_candidate_gets_deleting_then_terminal() {
    let mut pool = DeletionPool::new(candidates(&["a", "b"]), 8);

    let ev = pool.start(0);
    assert!(matches!(ev.status, Status::Deleting));
    assert_eq!(ev.path, vec!["a".to_string()]);

    let ev = pool.finish(0, true, true);
    assert!(matches!(ev.status, Status::Done));
    assert_eq!(ev.path, vec!["a".to_string()]);

    let ev = pool.start(1);
    assert!(matches!(ev.status, Status::Deleting));
    let ev = pool.finish(1, true, false);
    assert!(matches!(ev.status, Status::Failed));

    assert!(pool.all_terminal());
    assert!(matches!(pool.projects[0].status, Status::Done));
    assert!(matches!(pool.projects[1].status, Status::Failed));
}

#[test]
fn concurrency_limit_gates_starts() {
    let mut pool = DeletionPool::new(candidates(&["a", "b", "c"]), 2);
    assert_eq!(pool.running(), 0);
    assert!(pool.can_start());

    pool.start(0);
    assert_eq!(pool.running(), 1);
    assert!(pool.can_start());

    pool.start(1);
    assert_eq!(pool.running(), 2);
    assert!(!pool.can_start());

    pool.finish(1, true, true);
    assert_eq!(pool.running(), 1);
    assert!(pool.can_start());

    pool.start(2);
    assert_eq!(pool.running(), 2);
    assert!(!pool.can_start());
}

#[test]
fn next_waiting_walks_the_list() {
    let mut pool = DeletionPool::new(candidates(&["a", "b"]), 4);
    assert_eq!(pool.next_waiting(), Some(0));
    pool.start(0);
    assert_eq!(pool.next_waiting(), Some(1));
    pool.start(1);
    assert_eq!(pool.next_waiting(), None);
    pool.finish(0, true, true);
    pool.finish(1, true, true);
    assert_eq!(pool.next_waiting(), None);
}

#[test]
fn resolution_failure_fails_the_candidate() {
    // The candidate whose path cannot be resolved fails; nothing else is
    // affected.
    let mut pool = DeletionPool::new(candidates(&["a"]), 8);
    pool.start(0);
    let ev = pool.finish(0, false, false);
    assert!(matches!(ev.status, Status::Failed));
}

#[test]
fn externally_removed_cache_fails_only_its_candidate() {
    // The cache dir of b vanished between discovery and deletion: its
    // removal reports failure, while a still completes normally.
    let mut pool = DeletionPool::new(candidates(&["a", "b"]), 8);
    pool.start(0);
    pool.start(1);
    let ev_a = pool.finish(0, true, true);
    let ev_b = pool.finish(1, true, false);
    assert!(matches!(ev_a.status, Status::Done));
    assert!(matches!(ev_b.status, Status::Failed));
    assert!(pool.all_terminal());
}

#[test]
fn empty_pool_is_immediately_done() {
    let pool = DeletionPool::new(Vec::new(), 8);
    assert!(pool.all_terminal());
    assert_eq!(pool.next_waiting(), None);
    assert_eq!(pool.running(), 0);
}
