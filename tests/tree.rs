use jit::error::Error;
use jit::hex::{from_hex, to_hex};
use jit::object::{compute_oid, Object, ObjectType};
use jit::tree::{Tree, TreeFile};

const HELLO_OID: &str = "ce013625030ba8dba906f756967f9e9ca394464a";
const X_OID: &str = "587be6b4c3f93f93c489c0111bba5596147a26cb";

fn file(path: &str, oid: &str, mode: u32) -> TreeFile {
    TreeFile::new(path, oid, mode).expect("TreeFile::new")
}

#[test]
fn single_file_tree_payload() {
    let tree = Tree::build(vec![file("hello.txt", HELLO_OID, 0o100644)]).expect("build");
    let objects = tree.traverse().expect("traverse");
    assert_eq!(objects.len(), 1);
    let mut expected = b"100644 hello.txt\0".to_vec();
    expected.extend_from_slice(&from_hex(HELLO_OID.as_bytes()).unwrap());
    assert_eq!(objects[0].payload, expected);
    assert_eq!(tree.content(), Ok(expected));
    assert_eq!(tree.object_type(), ObjectType::Tree);
    assert_eq!(compute_oid(&tree).unwrap(), objects[0].oid);
}

#[test]
fn root_tree_oid_is_deterministic() {
    let build = || {
        let tree = Tree::build(vec![
            file("b.txt", X_OID, 0o100644),
            file("a/c.txt", HELLO_OID, 0o100755),
        ])
        .expect("build");
        let objects = tree.traverse().expect("traverse");
        objects.last().unwrap().oid.clone()
    };
    assert_eq!(to_hex(&build()), to_hex(&build()));
}

#[test]
fn nested_directories() {
    let tree = Tree::build(vec![file("a/d.txt", X_OID, 0o100644), file("a/b/c.txt", X_OID, 0o100644)])
        .expect("build");
    let objects = tree.traverse().expect("traverse");
    assert_eq!(objects.len(), 3);
    let root = &objects[2];
    let a = objects.iter().find(|o| root.payload.ends_with(&o.oid)).expect("tree a");
    let b = objects.iter().find(|o| a.payload[..28].ends_with(&o.oid)).expect("tree a/b");
    assert!(root.payload.starts_with(b"40000 a\0"));
    assert_eq!(root.payload.len(), 8 + 20);
    assert!(a.payload.starts_with(b"40000 b\0"));
    assert_eq!(&a.payload[28..40], b"100644 d.txt");
    let mut expected_b = b"100644 c.txt\0".to_vec();
    expected_b.extend_from_slice(&from_hex(X_OID.as_bytes()).unwrap());
    assert_eq!(b.payload, expected_b);
}

#[test]
fn executable_mode() {
    assert_eq!(file("x", X_OID, 0o100755).mode(), b"100755".to_vec());
    assert_eq!(file("x", X_OID, 0o100644).mode(), b"100644".to_vec());
    assert_eq!(file("x", X_OID, 0o100711).mode(), b"100755".to_vec());
}

#[test]
fn ancestors_of_nested_file() {
    let f = file("a/b/c.txt", X_OID, 0o100644);
    assert_eq!(f.ancestors(), Ok(vec![b"a".to_vec(), b"b".to_vec()]));
    assert_eq!(file("top.txt", X_OID, 0o100644).ancestors(), Ok(vec![]));
    assert_eq!(file("a/../b", X_OID, 0o100644).ancestors(), Err(Error::InvalidEntry));
    assert_eq!(file("a//b", X_OID, 0o100644).ancestors(), Err(Error::InvalidEntry));
}

#[test]
fn file_under_file_conflicts() {
    let r = Tree::build(vec![file("a", X_OID, 0o100644), file("a/b", X_OID, 0o100644)]);
    assert!(matches!(r, Err(Error::DirectoryConflict)));
}

#[test]
fn invalid_path_is_rejected() {
    let r = Tree::build(vec![file("./a", X_OID, 0o100644)]);
    assert!(matches!(r, Err(Error::InvalidEntry)));
    assert!(matches!(TreeFile::new("a", "xyz", 0o100644), Err(Error::InvalidEntry)));
}

#[test]
fn empty_tree_payload() {
    let tree = Tree::new();
    let objects = tree.traverse().expect("traverse");
    assert_eq!(objects.len(), 1);
    assert!(objects[0].payload.is_empty());
    assert_eq!(to_hex(&objects[0].oid), b"4b825dc642cb6eb9a060e54bf8d69288fbee4904".to_vec());
}

#[test]
fn input_order_does_not_matter_for_distinct_paths() {
    let one = Tree::build(vec![file("b", X_OID, 0o100644), file("a", HELLO_OID, 0o100644)])
        .expect("build");
    let two = Tree::build(vec![file("a", HELLO_OID, 0o100644), file("b", X_OID, 0o100644)])
        .expect("build");
    assert_eq!(one.traverse().unwrap()[0].payload, two.traverse().unwrap()[0].payload);
    assert!(one.traverse().unwrap()[0].payload.starts_with(b"100644 a\0"));
}
