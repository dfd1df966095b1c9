use dtree::DEnt;
use dtree::DTree;
use dtree::DirError;

fn names(parts: &[&str]) -> Vec<String> {
    parts.iter().map(|p| p.to_string()).collect()
}

#[test]
fn new_tree_is_leaf() {
    let dt = DTree::new();
    assert_eq!(dt.children.len(), 0);
}

#[test]
fn dent_new_holds_name_and_empty_subdir() {
    let e = DEnt::new("docs").unwrap();
    assert_eq!(e.name, "docs");
    assert_eq!(e.subdir.children.len(), 0);
}

#[test]
fn mkdir_then_paths() {
    let mut dt = DTree::new();
    dt.mkdir("test").unwrap();
    assert_eq!(&dt.paths(), &["/test/"]);
}

#[test]
fn mkdir_same_name_twice_fails_and_counts() {
    let mut dt = DTree::new();
    assert!(dt.mkdir("a").is_ok());
    assert_eq!(dt.children.len(), 1);
    assert_eq!(dt.mkdir("a"), Err(DirError::DirExists));
    assert_eq!(dt.children.len(), 1);
}

#[test]
fn mkdir_with_separator_fails_without_change() {
    let mut dt = DTree::new();
    assert_eq!(dt.mkdir("a/b"), Err(DirError::SlashInName));
    assert_eq!(dt.children.len(), 0);
    assert_eq!(dt.mkdir("/"), Err(DirError::SlashInName));
    assert_eq!(&dt.paths(), &["/"]);
}

#[test]
fn paths_of_empty_tree_is_single_separator() {
    let dt = DTree::new();
    assert_eq!(&dt.paths(), &["/"]);
}

#[test]
fn paths_reports_every_leaf() {
    // root -> a -> {b, c}: one path per leaf, even below depth 1.
    let mut dt = DTree::new();
    dt.mkdir("a").unwrap();
    dt.with_subdir_mut(&names(&["a"]), |t| t.mkdir("b").unwrap()).unwrap();
    dt.with_subdir_mut(&names(&["a"]), |t| t.mkdir("c").unwrap()).unwrap();
    let mut paths = dt.paths();
    paths.sort();
    assert_eq!(&paths, &["/a/b/", "/a/c/"]);
}

#[test]
fn with_subdir_visits_subtree() {
    let mut dt = DTree::new();
    dt.mkdir("test").unwrap();
    let paths = dt.with_subdir(&names(&["test"]), |t| t.paths()).unwrap();
    assert_eq!(&paths, &["/"]);
}

#[test]
fn with_subdir_walks_every_component() {
    let mut dt = DTree::new();
    dt.mkdir("a").unwrap();
    dt.with_subdir_mut(&names(&["a"]), |t| t.mkdir("b").unwrap()).unwrap();
    dt.with_subdir_mut(&names(&["a", "b"]), |t| t.mkdir("c").unwrap()).unwrap();
    let inner = dt.with_subdir(&names(&["a", "b", "c"]), |t| t.paths()).unwrap();
    assert_eq!(&inner, &["/"]);
    let mut paths = dt.paths();
    paths.sort();
    assert_eq!(&paths, &["/a/b/c/"]);
}

#[test]
fn traverse_empty_or_missing_path_fails_unchanged() {
    let mut dt = DTree::new();
    dt.mkdir("a").unwrap();
    let before = dt.paths();

    let r = dt.with_subdir(&names(&[]), |t| t.paths());
    assert_eq!(r, Err(DirError::InvalidChild));
    let r = dt.with_subdir(&names(&["missing"]), |t| t.paths());
    assert_eq!(r, Err(DirError::InvalidChild));
    let r = dt.with_subdir_mut(&names(&[]), |t| t.mkdir("x"));
    assert_eq!(r, Err(DirError::InvalidChild));
    let r = dt.with_subdir_mut(&names(&["missing"]), |t| t.mkdir("x"));
    assert_eq!(r, Err(DirError::InvalidChild));

    assert_eq!(dt.paths(), before);
}

#[test]
fn clone_copies_the_whole_tree() {
    let mut dt = DTree::default();
    dt.mkdir("a").unwrap();
    let copy = dt.clone();
    dt.mkdir("b").unwrap();
    assert_eq!(copy.paths(), vec!["/a/"]);
    let mut paths = dt.paths();
    paths.sort();
    assert_eq!(paths, vec!["/a/", "/b/"]);
}

#[test]
fn error_messages() {
    assert_eq!(DirError::SlashInName.message(), "slash in name is invalid");
    assert_eq!(DirError::DirExists.message(), "directory exists");
    assert_eq!(DirError::InvalidChild.message(), "invalid element in path");
}

#[test]
fn paths_come_in_insertion_order() {
    let mut dt = DTree::new();
    dt.mkdir("b").unwrap();
    dt.mkdir("a").unwrap();
    assert_eq!(&dt.paths(), &["/b/", "/a/"]);
}

#[test]
fn visitor_result_is_returned() {
    let mut dt = DTree::new();
    dt.mkdir("a").unwrap();
    dt.with_subdir_mut(&names(&["a"]), |t| t.mkdir("b").unwrap()).unwrap();
    let n = dt.with_subdir(&names(&["a"]), |t| t.children.len()).unwrap();
    assert_eq!(n, 1);
}
