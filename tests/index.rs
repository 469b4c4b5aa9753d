use jit::error::Error;
use jit::index::{Entry, Index};
use jit::workspace::{FileStat, Workspace, WorkspacePath};

const OID: &str = "f1d2d2f924e986ac86fdf7b36c94bcdf32beec15";

fn stat(mode: u32) -> FileStat {
    FileStat {
        ctime: 1_700_000_000,
        ctime_nsec: 5,
        mtime: 1_700_000_001,
        mtime_nsec: 6,
        dev: 0x1_0000_0042,
        ino: 77,
        mode,
        uid: 1000,
        gid: 100,
        size: 0,
    }
}

fn path_in(workspace: &Workspace, rel: &str) -> WorkspacePath {
    workspace.path(&format!("/tmp/work/{}", rel)).expect("Workspace::path")
}

fn paths(index: &Index) -> Vec<String> {
    index.iter().iter().map(|entry: &Entry| entry.path.clone()).collect()
}

#[test]
fn can_add_file_to_index() {
    let workspace = Workspace::new("/tmp/work");
    let workspace_path = path_in(&workspace, "testfile");
    let mut index = Index::load(None).expect("Index::load");
    index.add(&workspace_path, OID, &stat(0o100644)).expect("Index::add");
    assert_eq!(paths(&index), ["testfile"]);
}

#[test]
fn can_save_and_load_index() {
    let workspace = Workspace::new("/tmp/work");
    let workspace_path = path_in(&workspace, "testfile");
    let bytes = {
        let mut index = Index::load(None).expect("Index::load while empty");
        index.add(&workspace_path, OID, &stat(0o100644)).expect("Index::add");
        index.write_updates().expect("Index::write_updates").expect("changed")
    };
    let index = Index::load(Some(bytes)).expect("Index::load after write");
    assert_eq!(paths(&index), ["testfile"]);
}

#[test]
fn can_replace_file_with_dir() {
    let workspace = Workspace::new("/tmp/work");
    let alice = path_in(&workspace, "alice.txt");
    let bob = path_in(&workspace, "bob.txt");
    let mut index = Index::load(None).expect("Index::load");
    index.add(&alice, OID, &stat(0o100644)).expect("Index::add");
    index.add(&bob, OID, &stat(0o100644)).expect("Index::add");
    let nested = path_in(&workspace, "alice.txt/nested.txt");
    index.add(&nested, OID, &stat(0o100644)).expect("Index::add");
    assert_eq!(paths(&index), ["alice.txt/nested.txt", "bob.txt"]);
}

#[test]
fn staging_a_file_drops_entries_below_it() {
    let workspace = Workspace::new("/tmp/work");
    let mut index = Index::new();
    index.add(&path_in(&workspace, "a/b"), OID, &stat(0o100644)).unwrap();
    index.add(&path_in(&workspace, "a/c"), OID, &stat(0o100644)).unwrap();
    index.add(&path_in(&workspace, "ab"), OID, &stat(0o100644)).unwrap();
    index.add(&path_in(&workspace, "a"), OID, &stat(0o100644)).unwrap();
    assert_eq!(paths(&index), ["a", "ab"]);
}

#[test]
fn entries_are_kept_in_path_order() {
    let workspace = Workspace::new("/tmp/work");
    let mut index = Index::new();
    for name in ["zeta", "b/x", "alpha", "b-y", "b.z"] {
        index.add(&path_in(&workspace, name), OID, &stat(0o100644)).unwrap();
    }
    assert_eq!(paths(&index), ["alpha", "b-y", "b.z", "b/x", "zeta"]);
}

#[test]
fn adding_twice_gives_identical_index() {
    let workspace = Workspace::new("/tmp/work");
    let p = path_in(&workspace, "dir/file.txt");
    let mut index = Index::new();
    index.add(&p, OID, &stat(0o100644)).unwrap();
    let once = index.serialize().unwrap();
    index.add(&p, OID, &stat(0o100644)).unwrap();
    let twice = index.serialize().unwrap();
    assert_eq!(once, twice);
}

#[test]
fn entry_records_stat_mode_and_oid() {
    let workspace = Workspace::new("/tmp/work");
    let mut index = Index::new();
    index.add(&path_in(&workspace, "run.sh"), OID, &stat(0o100755)).unwrap();
    index.add(&path_in(&workspace, "plain"), OID, &stat(0o100600)).unwrap();
    index.add(&path_in(&workspace, "group-exec"), OID, &stat(0o100654)).unwrap();
    let entries = index.iter();
    let get = |name: &str| entries.iter().find(|e| e.path == name).unwrap();
    assert_eq!(get("run.sh").mode, 0o100755);
    assert_eq!(get("plain").mode, 0o100644);
    assert_eq!(get("group-exec").mode, 0o100755);
    let e = get("run.sh");
    assert_eq!(e.dev, 0x42);
    assert_eq!(e.ino, 77);
    assert_eq!(e.ctime, 1_700_000_000);
    assert_eq!(e.mtime_nsec, 6);
    assert_eq!(e.uid, 1000);
    assert_eq!(e.flags, 6);
    assert_eq!(e.oid[0], 0xf1);
    assert_eq!(e.oid.len(), 20);
}

#[test]
fn long_path_flags_are_capped() {
    let workspace = Workspace::new("/tmp/work");
    let long = "x".repeat(5000);
    let mut index = Index::new();
    index.add(&path_in(&workspace, &long), OID, &stat(0o100644)).unwrap();
    assert_eq!(index.iter()[0].flags, 0xfff);
    let bytes = index.serialize().unwrap();
    let back = Index::load(Some(bytes)).unwrap();
    assert_eq!(back.iter()[0].path.len(), 5000);
}

#[test]
fn bad_oid_is_an_invalid_entry() {
    let workspace = Workspace::new("/tmp/work");
    let mut index = Index::new();
    let p = path_in(&workspace, "f");
    assert_eq!(index.add(&p, "xyz", &stat(0o100644)), Err(Error::InvalidEntry));
    assert_eq!(index.add(&p, &OID[..38], &stat(0o100644)), Err(Error::InvalidEntry));
    assert!(index.iter().is_empty());
    assert_eq!(index.write_updates(), Ok(None));
}

#[test]
fn serialized_layout() {
    let workspace = Workspace::new("/tmp/work");
    let mut index = Index::new();
    index.add(&path_in(&workspace, "hello.txt"), OID, &stat(0o100644)).unwrap();
    let bytes = index.serialize().unwrap();
    assert_eq!(&bytes[0..12], b"DIRC\0\0\0\x02\0\0\0\x01");
    // one entry: 62 fixed bytes, nine of path, one NUL: 72 bytes.
    assert_eq!(bytes.len(), 12 + 72 + 20);
    assert_eq!(&bytes[12 + 62..12 + 71], b"hello.txt");
    assert_eq!(bytes[12 + 71], 0);
    assert_eq!(&bytes[12 + 24..12 + 28], &[0, 0, 0x81, 0xa4]);
    let mut file = jit::checksum::ChecksummedFile::new(bytes.clone());
    file.read_exact(bytes.len() - 20).unwrap();
    assert_eq!(file.verify_checksum(), Ok(true));
}

#[test]
fn empty_index_round_trip() {
    let index = Index::new();
    let bytes = index.serialize().unwrap();
    assert_eq!(bytes.len(), 32);
    let back = Index::load(Some(bytes)).unwrap();
    assert!(back.iter().is_empty());
}

fn one_entry_file() -> Vec<u8> {
    let workspace = Workspace::new("/tmp/work");
    let mut index = Index::new();
    index.add(&path_in(&workspace, "a.txt"), OID, &stat(0o100644)).unwrap();
    index.serialize().unwrap()
}

#[test]
fn bad_signature_is_a_format_error() {
    let mut bytes = one_entry_file();
    bytes[0] = b'X';
    assert!(matches!(Index::load(Some(bytes)), Err(Error::Format)));
}

#[test]
fn bad_version_is_a_format_error() {
    let mut bytes = one_entry_file();
    bytes[7] = 3;
    assert!(matches!(Index::load(Some(bytes)), Err(Error::Format)));
}

#[test]
fn corrupted_trailer_is_a_checksum_mismatch() {
    let mut bytes = one_entry_file();
    let last = bytes.len() - 1;
    bytes[last] ^= 0xff;
    assert!(matches!(Index::load(Some(bytes)), Err(Error::ChecksumMismatch)));
}

#[test]
fn corrupted_entry_is_a_checksum_mismatch() {
    let mut bytes = one_entry_file();
    bytes[12 + 3] ^= 0xff;
    assert!(matches!(Index::load(Some(bytes)), Err(Error::ChecksumMismatch)));
}

#[test]
fn trailing_bytes_are_a_format_error() {
    let mut bytes = one_entry_file();
    bytes.push(0);
    assert!(matches!(Index::load(Some(bytes)), Err(Error::Format)));
}

#[test]
fn truncated_file_is_a_format_error() {
    let bytes = one_entry_file();
    assert!(matches!(Index::load(Some(bytes[..40].to_vec())), Err(Error::Format)));
    assert!(matches!(Index::load(Some(Vec::new())), Err(Error::Format)));
}

#[test]
fn missing_file_is_an_empty_index() {
    let index = Index::load(None).unwrap();
    assert!(index.iter().is_empty());
}
