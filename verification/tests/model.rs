use nodeclean::{Arguments, Project, Status};

#[test]
fn new_project_waits() {
    let p = Project::new(vec!["a".to_string(), "b".to_string()]);
    assert_eq!(p.path, vec!["a".to_string(), "b".to_string()]);
    assert!(matches!(p.status, Status::Waiting));
}

#[test]
fn update_status_keeps_the_path() {
    let mut p = Project::new(vec!["a".to_string()]);
    p.update_status(Status::Deleting);
    assert!(matches!(p.status, Status::Deleting));
    assert_eq!(p.path, vec!["a".to_string()]);
    p.update_status(Status::Done);
    assert!(matches!(p.status, Status::Done));
}

#[test]
fn path_returns_an_equal_copy() {
    let p = Project::new(vec!["x".to_string(), "y".to_string()]);
    let copy = p.path();
    assert_eq!(copy, p.path);
}

#[test]
fn default_arguments() {
    let args = Arguments::default();
    assert_eq!(args.depth, 2);
    assert!(!args.silent);
    assert!(!args.interactive);
}
