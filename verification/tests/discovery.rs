use nodeclean::discover::{discover, DirTree};
use nodeclean::Status;

fn dir(name: &str, has_manifest: bool, has_cache: bool, subdirs: Vec<DirTree>) -> DirTree {
    DirTree { name: name.to_string(), has_manifest, has_cache, subdirs }
}

fn paths(projects: &Vec<nodeclean::Project>) -> Vec<Vec<String>> {
    projects.iter().map(|p| p.path.clone()).collect()
}

#[test]
fn finds_only_the_top_candidate() {
    // a holds the manifest and the cache dir; b has no cache dir; a/sub is
    // nested beneath the already-matched a. Only a is a candidate.
    let root = dir(
        ".",
        false,
        false,
        vec![
            dir("a", true, true, vec![dir("sub", true, true, vec![])]),
            dir("b", true, false, vec![]),
        ],
    );
    let found = discover(&root, 3);
    assert_eq!(paths(&found), vec![vec!["a".to_string()]]);
    assert!(matches!(found[0].status, Status::Waiting));
}

#[test]
fn candidate_needs_both_manifest_and_cache() {
    let root = dir(
        ".",
        false,
        false,
        vec![
            dir("only_manifest", true, false, vec![]),
            dir("only_cache", false, true, vec![]),
            dir("both", true, true, vec![]),
        ],
    );
    let found = discover(&root, 2);
    assert_eq!(paths(&found), vec![vec!["both".to_string()]]);
}

#[test]
fn manifest_prunes_the_subtree() {
    // The manifest in a (without a cache dir) still prunes everything
    // below a, so the nested project is never reported.
    let root = dir(
        ".",
        false,
        false,
        vec![dir("a", true, false, vec![dir("sub", true, true, vec![])])],
    );
    let found = discover(&root, 5);
    assert!(found.is_empty());
}

#[test]
fn depth_bound_is_exact() {
    // The manifest of "sub" lies two segments below the root; it is seen
    // at depth 2 and not at depth 1.
    let root = dir(".", false, false, vec![dir("sub", true, true, vec![])]);
    assert!(discover(&root, 1).is_empty());
    let found = discover(&root, 2);
    assert_eq!(paths(&found), vec![vec!["sub".to_string()]]);
}

#[test]
fn root_manifest_seen_from_depth_one() {
    // The root's own manifest is one segment deep: invisible at depth 0.
    let root = dir(".", true, true, vec![]);
    assert!(discover(&root, 0).is_empty());
    let found = discover(&root, 1);
    assert_eq!(found.len(), 1);
    assert!(found[0].path.is_empty());
}

#[test]
fn empty_tree_yields_nothing() {
    let root = dir(
        ".",
        false,
        false,
        vec![dir("x", false, false, vec![dir("y", false, false, vec![])])],
    );
    assert!(discover(&root, 4).is_empty());
}

#[test]
fn discovery_is_idempotent() {
    let root = dir(
        ".",
        false,
        false,
        vec![
            dir("a", true, true, vec![]),
            dir("b", false, false, vec![dir("c", true, true, vec![])]),
        ],
    );
    let first = discover(&root, 3);
    let second = discover(&root, 3);
    assert_eq!(paths(&first), paths(&second));
}

#[test]
fn deeper_candidates_carry_full_paths() {
    let root = dir(
        ".",
        false,
        false,
        vec![dir("work", false, false, vec![dir("app", true, true, vec![])])],
    );
    let found = discover(&root, 3);
    assert_eq!(paths(&found), vec![vec!["work".to_string(), "app".to_string()]]);
}
