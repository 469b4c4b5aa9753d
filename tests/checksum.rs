use jit::checksum::ChecksummedFile;
use jit::error::Error;

const TRAILER: [u8; 20] = [
    0x57, 0xc5, 0x84, 0x76, 0x41, 0xe1, 0xac, 0xef, 0xc8, 0xf9, 0xeb, 0xe8, 0x1d, 0x21, 0x13, 0x0b,
    0xfa, 0x0c, 0x75, 0x54,
];

fn written() -> Vec<u8> {
    let mut file = ChecksummedFile::new(Vec::new());
    file.write(b"test_contents");
    file.write_hash();
    file.into_inner()
}

#[test]
fn can_write_checksummed_file() {
    let mut expected = b"test_contents".to_vec();
    expected.extend_from_slice(&TRAILER);
    assert_eq!(written(), expected);
}

#[test]
fn can_read_checksummed_file() {
    let mut file = ChecksummedFile::new(written());
    let data = file.read_exact(13).expect("read_exact");
    assert_eq!(&data[..], b"test_contents");
    assert!(file.verify_checksum().expect("verify_checksum"));
}

#[test]
fn hash_covers_only_what_was_written() {
    let mut file = ChecksummedFile::new(Vec::new());
    file.write(b"test_contents");
    assert_eq!(file.hash(), TRAILER.to_vec());
}

#[test]
fn corrupted_trailer_fails_verification() {
    let mut bytes = written();
    let last = bytes.len() - 1;
    bytes[last] ^= 1;
    let mut file = ChecksummedFile::new(bytes);
    file.read_exact(13).expect("read_exact");
    assert_eq!(file.verify_checksum(), Ok(false));
}

#[test]
fn short_trailer_is_a_format_error() {
    let mut file = ChecksummedFile::new(b"test_contents\x57\xc5".to_vec());
    file.read_exact(13).expect("read_exact");
    assert_eq!(file.verify_checksum(), Err(Error::Format));
}

#[test]
fn reading_past_the_end_gives_nothing() {
    let mut file = ChecksummedFile::new(b"abc".to_vec());
    assert_eq!(file.read_exact(4), None);
    assert_eq!(file.read_exact(3), Some(b"abc".to_vec()));
}
