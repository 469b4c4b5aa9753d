use std::io::Read;

use jit::commit::{Author, Commit};
use jit::database::Database;
use jit::error::Error;
use jit::hex::{from_hex, to_hex};
use jit::object::{blob_oid, compute_oid, to_bytes, Blob, ObjectType};

const HELLO_OID: &str = "ce013625030ba8dba906f756967f9e9ca394464a";

#[test]
fn empty_blob_oid() {
    let id = blob_oid(b"").expect("blob_oid");
    assert_eq!(to_hex(&id), b"e69de29bb2d1d6434b8b29ae775ad8c2e48c5391".to_vec());
}

#[test]
fn simple_blob_oid() {
    let id = blob_oid(b"hello\n").expect("blob_oid");
    assert_eq!(to_hex(&id), HELLO_OID.as_bytes().to_vec());
}

#[test]
fn blob_object_matches_blob_oid() {
    let blob = Blob::new(b"hello\n".to_vec());
    let id = compute_oid(&blob).expect("compute_oid");
    assert_eq!(id, blob_oid(b"hello\n").unwrap());
    assert_eq!(to_bytes(&blob).unwrap(), b"blob 6\0hello\n".to_vec());
}

#[test]
fn kind_names() {
    assert_eq!(ObjectType::Blob.name(), b"blob".to_vec());
    assert_eq!(ObjectType::Tree.name(), b"tree".to_vec());
    assert_eq!(ObjectType::Commit.name(), b"commit".to_vec());
}

#[test]
fn hex_round_trip() {
    let raw = from_hex(HELLO_OID.as_bytes()).expect("from_hex");
    assert_eq!(raw.len(), 20);
    assert_eq!(raw[0], 0xce);
    assert_eq!(to_hex(&raw), HELLO_OID.as_bytes().to_vec());
    assert_eq!(from_hex(b"CE01"), Some(vec![0xce, 0x01]));
    assert_eq!(from_hex(b"abc"), None);
    assert_eq!(from_hex(b"zz"), None);
}

fn author() -> Author {
    Author::new("A U Thor", "author@example.com", 1234567890, 3600)
}

#[test]
fn author_identity_line() {
    assert_eq!(author().to_bytes(), b"A U Thor <author@example.com> 1234567890 +0100".to_vec());
    let west = Author::new("N", "n@x", 5, -(5 * 3600 + 30 * 60));
    assert_eq!(west.to_bytes(), b"N <n@x> 5 -0530".to_vec());
    let before_epoch = Author::new("N", "n@x", -42, 0);
    assert_eq!(before_epoch.to_bytes(), b"N <n@x> -42 +0000".to_vec());
}

#[test]
fn root_commit_has_no_parent_line() {
    let tree = "aaa96ced2d9a1c8e72c56b253a0e2fe78393feb7".to_string();
    let commit = Commit::new(None, tree.clone(), author(), "initial".to_string());
    let bytes = to_bytes(&commit).expect("to_bytes");
    let text = String::from_utf8(bytes).unwrap();
    let payload = text.split_once('\0').unwrap().1;
    let lines: Vec<&str> = payload.split('\n').collect();
    assert_eq!(
        lines,
        [
            "tree aaa96ced2d9a1c8e72c56b253a0e2fe78393feb7",
            "author A U Thor <author@example.com> 1234567890 +0100",
            "committer A U Thor <author@example.com> 1234567890 +0100",
            "",
            "initial",
        ]
    );
    assert!(text.starts_with("commit "));
}

#[test]
fn commit_with_parent() {
    let commit = Commit::new(
        Some(HELLO_OID.to_string()),
        "aaa96ced2d9a1c8e72c56b253a0e2fe78393feb7".to_string(),
        author(),
        "second\n".to_string(),
    );
    let bytes = to_bytes(&commit).expect("to_bytes");
    let text = String::from_utf8(bytes).unwrap();
    let payload = text.split_once('\0').unwrap().1;
    assert!(payload.starts_with(
        "tree aaa96ced2d9a1c8e72c56b253a0e2fe78393feb7\nparent ce013625030ba8dba906f756967f9e9ca394464a\nauthor "
    ));
    assert!(payload.ends_with("\n\nsecond\n"));
}

#[test]
fn first_line_of_message() {
    let c = |m: &str| Commit::new(None, String::new(), author(), m.to_string());
    assert_eq!(c("initial\nmore").first_line(), Ok("initial".to_string()));
    assert_eq!(c("dos line\r\nmore").first_line(), Ok("dos line".to_string()));
    assert_eq!(c("single").first_line(), Ok("single".to_string()));
    assert_eq!(c("\nbody").first_line(), Ok(String::new()));
    assert_eq!(c("").first_line(), Err(Error::EmptyMessage));
}

#[test]
fn object_location_and_compression() {
    let db = Database::new("/repo/.git/objects");
    assert_eq!(db.root(), "/repo/.git/objects");
    let blob = Blob::new(b"hello\n".to_vec());
    let encoded = db.encode(&blob).expect("encode");
    assert_eq!(to_hex(&encoded.oid), HELLO_OID.as_bytes().to_vec());
    assert_eq!(encoded.dir_name, "ce");
    assert_eq!(encoded.file_name, "013625030ba8dba906f756967f9e9ca394464a");
    assert_eq!(encoded.temp_name.len(), 14);
    assert!(encoded.temp_name.starts_with("tmp_obj_"));
    assert!(encoded.temp_name[8..].chars().all(|c| c.is_ascii_alphanumeric()));
    let mut decoder = flate2::read::ZlibDecoder::new(&encoded.compressed[..]);
    let mut plain = Vec::new();
    decoder.read_to_end(&mut plain).expect("inflate");
    assert_eq!(plain, b"blob 6\0hello\n".to_vec());
    assert_ne!(encoded.compressed, plain);
}

#[test]
fn temp_names_are_alphanumeric() {
    let name = Database::temp_name();
    assert!(name.starts_with("tmp_obj_"));
    assert_eq!(name.len(), 14);
    assert!(name[8..].bytes().all(|b| b.is_ascii_alphanumeric()));
}
