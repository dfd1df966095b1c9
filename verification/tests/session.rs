use dtree::DirError;
use dtree::OsState;

fn names(parts: &[&str]) -> Vec<String> {
    parts.iter().map(|p| p.to_string()).collect()
}

#[test]
fn new_session_is_at_empty_root() {
    let s = OsState::new();
    assert_eq!(s.cwd.len(), 0);
    assert_eq!(&s.paths().unwrap(), &["/"]);
}

#[test]
fn mkdir_at_root_and_below() {
    let mut s = OsState::new();
    s.mkdir("a").unwrap();
    assert_eq!(&s.paths().unwrap(), &["/a/"]);
    s.chdir(&names(&["a"])).unwrap();
    s.mkdir("b").unwrap();
    assert_eq!(&s.paths().unwrap(), &["/b/"]);
}

#[test]
fn mkdir_validation_at_cwd() {
    let mut s = OsState::new();
    s.mkdir("a").unwrap();
    s.chdir(&names(&["a"])).unwrap();
    assert_eq!(s.mkdir("x/y"), Err(DirError::SlashInName));
    assert_eq!(&s.paths().unwrap(), &["/"]);
    s.mkdir("b").unwrap();
    assert_eq!(s.mkdir("b"), Err(DirError::DirExists));
    assert_eq!(&s.paths().unwrap(), &["/b/"]);
}

#[test]
fn chdir_empty_resets_to_root() {
    let mut s = OsState::new();
    s.mkdir("a").unwrap();
    s.chdir(&names(&["a"])).unwrap();
    s.chdir(&names(&[])).unwrap();
    assert_eq!(&s.paths().unwrap(), &["/a/"]);
    // Resetting again from the root is still fine.
    s.chdir(&names(&[])).unwrap();
    assert_eq!(&s.paths().unwrap(), &["/a/"]);
}

#[test]
fn failed_chdir_keeps_cwd() {
    let mut s = OsState::new();
    s.mkdir("a").unwrap();
    s.chdir(&names(&["a"])).unwrap();
    s.mkdir("b").unwrap();
    let before = s.paths().unwrap();
    assert_eq!(s.chdir(&names(&["missing"])), Err(DirError::InvalidChild));
    assert_eq!(s.paths().unwrap(), before);
    assert_eq!(s.cwd, names(&["a"]));
}

#[test]
fn chdir_multi_component() {
    let mut s = OsState::new();
    s.mkdir("a").unwrap();
    s.chdir(&names(&["a"])).unwrap();
    s.mkdir("b").unwrap();
    s.chdir(&names(&[])).unwrap();
    s.chdir(&names(&["a", "b"])).unwrap();
    s.mkdir("c").unwrap();
    s.chdir(&names(&[])).unwrap();
    assert_eq!(&s.paths().unwrap(), &["/a/b/c/"]);
}

#[test]
fn default_and_clone_session() {
    let s: OsState = Default::default();
    assert_eq!(&s.paths().unwrap(), &["/"]);
    let mut t = s.clone();
    t.mkdir("a").unwrap();
    t.chdir(&names(&["a"])).unwrap();
    let u = t.clone();
    assert_eq!(u.cwd, names(&["a"]));
    assert_eq!(&u.paths().unwrap(), &["/"]);
    assert_eq!(&s.paths().unwrap(), &["/"]);
}

#[test]
fn end_to_end_single_chain() {
    let mut s = OsState::new();
    s.mkdir("a").unwrap();
    s.chdir(&names(&["a"])).unwrap();
    s.mkdir("b").unwrap();
    s.chdir(&names(&["b"])).unwrap();
    s.mkdir("c").unwrap();
    s.chdir(&names(&[])).unwrap();
    assert_eq!(&s.paths().unwrap(), &["/a/b/c/"]);
}
