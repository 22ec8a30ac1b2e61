use dtree::DEnt;
use dtree::DTree;
use dtree::DirError;
use dtree::OsState;

#[test]
fn mkdir_then_resolve_new_child() {
    let mut dt = DTree::new();
    dt.mkdir("projects").unwrap();
    let seen = dt
        .with_subdir(&["projects".to_string()], |sub| sub.children.len())
        .unwrap();
    assert_eq!(seen, 0);
}

#[test]
fn mkdir_duplicate_fails_and_keeps_count() {
    let mut dt = DTree::new();
    dt.mkdir("a").unwrap();
    let r = dt.mkdir("a");
    assert_eq!(r, Err(DirError::DirExists("a".to_string())));
    assert_eq!(dt.children.len(), 1);
}

#[test]
fn mkdir_slash_fails_and_leaves_tree_unmodified() {
    let mut dt = DTree::new();
    dt.mkdir("a").unwrap();
    let r = dt.mkdir("a/b");
    assert_eq!(r, Err(DirError::SlashInName("a/b".to_string())));
    assert_eq!(dt.children.len(), 1);
    assert_eq!(dt.paths(), vec!["/a/".to_string()]);
}

#[test]
fn empty_tree_has_single_root_path() {
    let dt = DTree::new();
    assert_eq!(dt.paths(), vec!["/".to_string()]);
}

#[test]
fn paths_of_two_leaves_sorted() {
    let mut dt = DTree::new();
    dt.mkdir("a").unwrap();
    dt.with_subdir_mut(&["a".to_string()], |mut t| {
        let r = t.mkdir("b");
        (t, r)
    })
    .unwrap()
    .unwrap();
    dt.with_subdir_mut(&["a".to_string()], |mut t| {
        let r = t.mkdir("c");
        (t, r)
    })
    .unwrap()
    .unwrap();
    let mut paths = dt.paths();
    paths.sort();
    assert_eq!(paths, vec!["/a/b/".to_string(), "/a/c/".to_string()]);
}

#[test]
fn paths_one_string_per_leaf_with_clean_shape() {
    let mut dt = DTree::new();
    dt.mkdir("a").unwrap();
    dt.mkdir("b").unwrap();
    dt.with_subdir_mut(&["a".to_string()], |mut t| {
        let r = t.mkdir("deep");
        (t, r)
    })
    .unwrap()
    .unwrap();
    let paths = dt.paths();
    // leaves: a/deep and b
    assert_eq!(paths.len(), 2);
    for p in &paths {
        assert!(p.starts_with('/'));
        assert!(p.ends_with('/'));
        assert!(!p.contains("//"));
    }
}

#[test]
fn mutation_is_visible_to_following_read() {
    let mut dt = DTree::new();
    dt.mkdir("a").unwrap();
    dt.with_subdir_mut(&["a".to_string()], |mut t| {
        let r = t.mkdir("b");
        (t, r)
    })
    .unwrap()
    .unwrap();
    let count = dt
        .with_subdir(&["a".to_string()], |sub| sub.children.len())
        .unwrap();
    assert_eq!(count, 1);
    assert_eq!(dt.paths(), vec!["/a/b/".to_string()]);
}

#[test]
fn traversal_to_missing_child_reports_segment() {
    let mut dt = DTree::new();
    dt.mkdir("a").unwrap();
    let r = dt.with_subdir(&["a".to_string(), "nope".to_string()], |_| ());
    assert_eq!(r, Err(DirError::InvalidChild("nope".to_string())));
    let r2 = dt.with_subdir_mut(&["zip".to_string()], |t| (t, ()));
    assert_eq!(r2, Err(DirError::InvalidChild("zip".to_string())));
}

#[test]
fn descend_reaches_nested_directory() {
    let mut dt = DTree::new();
    dt.mkdir("x").unwrap();
    dt.with_subdir_mut(&["x".to_string()], |mut t| {
        let r = t.mkdir("y");
        (t, r)
    })
    .unwrap()
    .unwrap();
    let node = dt.descend(&["x".to_string(), "y".to_string()]).unwrap();
    assert_eq!(node.children.len(), 0);
    assert_eq!(dt.descend(&[]).unwrap().children.len(), 1);
}

#[test]
fn visitor_result_is_returned() {
    let mut dt = DTree::new();
    dt.mkdir("top").unwrap();
    let name_count = dt
        .with_subdir(&[], |t| t.children.len())
        .unwrap();
    assert_eq!(name_count, 1);
    let swapped = dt.with_subdir_mut(&["top".to_string()], |t| {
        let n = t.children.len();
        (t, n * 10)
    });
    assert_eq!(swapped, Ok(0));
}

#[test]
fn dent_new_validates_name() {
    let e = DEnt::new("music").unwrap();
    assert_eq!(e.name, "music".to_string());
    assert_eq!(e.subdir.children.len(), 0);
    match DEnt::new("mu/sic") {
        Err(DirError::SlashInName(n)) => assert_eq!(n, "mu/sic".to_string()),
        _ => panic!("a slashed name must be refused"),
    }
}

#[test]
fn round_trip_segments_from_paths() {
    let mut dt = DTree::new();
    dt.mkdir("a").unwrap();
    dt.with_subdir_mut(&["a".to_string()], |mut t| {
        let r = t.mkdir("b");
        (t, r)
    })
    .unwrap()
    .unwrap();
    dt.with_subdir_mut(&["a".to_string(), "b".to_string()], |mut t| {
        let r = t.mkdir("c");
        (t, r)
    })
    .unwrap()
    .unwrap();
    let paths = dt.paths();
    assert_eq!(paths.len(), 1);
    let segs: Vec<&str> = paths[0].split('/').filter(|s| !s.is_empty()).collect();
    assert_eq!(segs, vec!["a", "b", "c"]);
}

#[test]
fn state_example_flow() {
    let mut s = OsState::new();
    s.mkdir("a").unwrap();
    s.chdir(&["a".to_string()]).unwrap();
    s.mkdir("b").unwrap();
    s.chdir(&["b".to_string()]).unwrap();
    s.mkdir("c").unwrap();
    s.chdir(&[]).unwrap();
    assert_eq!(s.paths().unwrap(), vec!["/a/b/c/".to_string()]);
    s.chdir(&["a".to_string(), "b".to_string(), "c".to_string()]).unwrap();
    assert_eq!(s.paths().unwrap(), vec!["/".to_string()]);
}

#[test]
fn chdir_failure_leaves_cwd_unchanged() {
    let mut s = OsState::new();
    s.mkdir("a").unwrap();
    s.chdir(&["a".to_string()]).unwrap();
    let r = s.chdir(&["missing".to_string()]);
    assert_eq!(r, Err(DirError::InvalidChild("missing".to_string())));
    // still inside `a`: a new directory lands under /a/
    s.mkdir("b").unwrap();
    s.chdir(&[]).unwrap();
    let mut paths = s.paths().unwrap();
    paths.sort();
    assert_eq!(paths, vec!["/a/b/".to_string()]);
}

#[test]
fn state_mkdir_propagates_name_errors() {
    let mut s = OsState::new();
    assert_eq!(s.mkdir("x/y"), Err(DirError::SlashInName("x/y".to_string())));
    s.mkdir("x").unwrap();
    assert_eq!(s.mkdir("x"), Err(DirError::DirExists("x".to_string())));
}

#[test]
fn state_with_dangling_cwd_reports_invalid_child() {
    let mut s = OsState::new();
    s.mkdir("real").unwrap();
    s.cwd = vec!["ghost".to_string()];
    assert_eq!(s.mkdir("any"), Err(DirError::InvalidChild("ghost".to_string())));
    assert_eq!(s.paths(), Err(DirError::InvalidChild("ghost".to_string())));
}

#[test]
fn error_messages_name_the_offender() {
    let e = DirError::SlashInName("a/b".to_string());
    assert_eq!(e.message(), "a/b: slash in name is invalid".to_string());
    assert_eq!(e.offender(), &"a/b".to_string());
    let e = DirError::DirExists("dup".to_string());
    assert_eq!(e.message(), "dup: directory exists".to_string());
    let e = DirError::InvalidChild("seg".to_string());
    assert_eq!(e.message(), "seg: invalid element in path".to_string());
}

#[test]
fn default_trees_are_empty() {
    let dt = DTree::default();
    assert_eq!(dt.children.len(), 0);
    let s = OsState::default();
    assert_eq!(s.cwd.len(), 0);
    assert_eq!(s.dtree.children.len(), 0);
}
