use jit::commit::{Author, Commit};
use jit::database::Database;
use jit::hex::to_hex;
use jit::index::Index;
use jit::object::{blob_oid, Blob};
use jit::refs::Refs;
use jit::tree::{Tree, TreeFile};
use jit::workspace::{FileStat, Workspace};

fn hex(raw: &[u8]) -> String {
    String::from_utf8(to_hex(raw)).unwrap()
}

#[test]
fn single_file_commit() {
    // Stage hello.txt holding "hello\n".
    let database = Database::new("/r/.git/objects");
    let blob = database.encode(&Blob::new(b"hello\n".to_vec())).unwrap();
    assert_eq!(blob.oid, blob_oid(b"hello\n").unwrap());
    let blob_hex = hex(&blob.oid);
    assert_eq!(blob_hex, "ce013625030ba8dba906f756967f9e9ca394464a");

    let workspace = Workspace::new("/r");
    let file = workspace.path("/r/hello.txt").unwrap();
    let stat = FileStat {
        ctime: 1,
        ctime_nsec: 0,
        mtime: 1,
        mtime_nsec: 0,
        dev: 1,
        ino: 2,
        mode: 0o100644,
        uid: 0,
        gid: 0,
        size: 6,
    };
    let mut index = Index::new();
    index.add(&file, &blob_hex, &stat).unwrap();
    let bytes = index.write_updates().unwrap().unwrap();

    // The index parses and reports one entry.
    let index = Index::load(Some(bytes)).unwrap();
    assert_eq!(index.iter().len(), 1);
    assert_eq!(index.iter()[0].path, "hello.txt");
    assert_eq!(hex(&index.iter()[0].oid), blob_hex);

    // The tree payload is the single record.
    let entry = &index.iter()[0];
    let tree = Tree::build(vec![TreeFile::new(&entry.path, &hex(&entry.oid), entry.mode).unwrap()])
        .unwrap();
    let trees = tree.traverse().unwrap();
    let mut payload = b"100644 hello.txt\0".to_vec();
    payload.extend_from_slice(&blob.oid);
    assert_eq!(trees[0].payload, payload);
    let tree_hex = hex(&trees[0].oid);
    let again = Tree::build(vec![TreeFile::new("hello.txt", &blob_hex, 0o100644).unwrap()]).unwrap();
    assert_eq!(hex(&again.traverse().unwrap()[0].oid), tree_hex);

    // The commit names the tree, has no parent, and HEAD records it.
    let author = Author::new("A", "a@example.com", 1_700_000_000, 0);
    let commit = Commit::new(None, tree_hex.clone(), author, "initial".to_string());
    let stored = database.encode(&commit).unwrap();
    let commit_hex = hex(&stored.oid);
    assert_eq!(commit_hex.len(), 40);
    let update = Refs::new("/r/.git").update_head(&commit_hex);
    assert_eq!(update.contents, format!("{}\n", commit_hex).into_bytes());

    let mut inflated = Vec::new();
    let mut decoder = flate2::read::ZlibDecoder::new(&stored.compressed[..]);
    std::io::Read::read_to_end(&mut decoder, &mut inflated).unwrap();
    let text = String::from_utf8(inflated).unwrap();
    let body = text.split_once('\0').unwrap().1;
    let lines: Vec<&str> = body.split('\n').collect();
    assert_eq!(lines[0], format!("tree {}", tree_hex));
    assert!(lines[1].starts_with("author A <a@example.com> 1700000000 +0000"));
    assert!(lines[2].starts_with("committer "));
    assert_eq!(lines[3], "");
    assert_eq!(lines[4], "initial");
    assert!(!body.contains("parent "));
}
