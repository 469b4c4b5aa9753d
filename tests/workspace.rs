use jit::error::Error;
use jit::lockfile::lock_path;
use jit::refs::Refs;
use jit::repository::Repository;
use jit::workspace::Workspace;

#[test]
fn relative_paths() {
    let workspace = Workspace::new("/tmp/work");
    assert_eq!(workspace.path("/tmp/work/a/b.txt").unwrap().rel_path(), "a/b.txt");
    assert_eq!(workspace.path("/tmp/work").unwrap().rel_path(), "");
    assert_eq!(workspace.path("/tmp/work/a/b.txt").unwrap().path(), "/tmp/work/a/b.txt");
    assert!(matches!(workspace.path("/tmp/workshop/x"), Err(Error::OutsideWorkspace)));
    assert!(matches!(workspace.path("/elsewhere"), Err(Error::OutsideWorkspace)));
    let root = Workspace::new("/");
    assert_eq!(root.path("/etc/x").unwrap().rel_path(), "etc/x");
}

#[test]
fn ignored_names() {
    assert!(Workspace::is_ignored(".git"));
    assert!(Workspace::is_ignored("target"));
    assert!(Workspace::is_ignored(".notes.swp"));
    assert!(Workspace::is_ignored("file.un~"));
    assert!(!Workspace::is_ignored("targets"));
    assert!(!Workspace::is_ignored(".gitignore"));
    assert!(!Workspace::is_ignored("src"));
}

#[test]
fn lock_sidecar_names() {
    assert_eq!(lock_path("/r/.git/index"), "/r/.git/index.lock");
    assert_eq!(lock_path("/r/.git/HEAD"), "/r/.git/HEAD.lock");
}

#[test]
fn head_update_and_read() {
    let refs = Refs::new("/r/.git");
    assert_eq!(refs.head_path(), "/r/.git/HEAD");
    let update = refs.update_head("ce013625030ba8dba906f756967f9e9ca394464a");
    assert_eq!(update.path, "/r/.git/HEAD");
    assert_eq!(update.contents, b"ce013625030ba8dba906f756967f9e9ca394464a\n".to_vec());
    let text = String::from_utf8(update.contents).unwrap();
    assert_eq!(
        Refs::read_head(Some(text.as_str())),
        Some("ce013625030ba8dba906f756967f9e9ca394464a".to_string())
    );
    assert_eq!(Refs::read_head(Some("abc \t\r\n")), Some("abc".to_string()));
    assert_eq!(Refs::read_head(None), None);
}

#[test]
fn repository_layout() {
    let repo = Repository::new("/r");
    assert_eq!(repo.git_path(), "/r/.git");
    assert_eq!(repo.database().root(), "/r/.git/objects");
    assert_eq!(repo.index_path(), "/r/.git/index");
    assert_eq!(repo.refs().head_path(), "/r/.git/HEAD");
    assert_eq!(repo.workspace().root(), "/r");
}

#[test]
fn visible_names_skip_ignored_ones() {
    let names = vec![
        "src".to_string(),
        ".git".to_string(),
        "a.swp".to_string(),
        "target".to_string(),
        "notes.txt".to_string(),
        "x.un~".to_string(),
    ];
    assert_eq!(Workspace::visible(names), vec!["src".to_string(), "notes.txt".to_string()]);
    assert!(Workspace::visible(Vec::new()).is_empty());
}
