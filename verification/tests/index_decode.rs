use pack_index::hashing::Kind;
use pack_index::index_decode::{decode, Error, HeaderError, State, Version};

fn header(version: u32, entries: u32) -> Vec<u8> {
    let mut b = Vec::new();
    b.extend_from_slice(b"DIRC");
    b.extend_from_slice(&version.to_be_bytes());
    b.extend_from_slice(&entries.to_be_bytes());
    b
}

/// A buffer with a header, two extension records (one unknown, one
/// cached-tree), the end-of-index-entries marker and a checksum trailer.
fn with_extensions() -> Vec<u8> {
    let mut b = header(2, 3);
    // unknown extension, skipped by length
    b.extend_from_slice(b"AAAA");
    b.extend_from_slice(&4u32.to_be_bytes());
    b.extend_from_slice(&[9, 9, 9, 9]);
    // cached-tree extension
    b.extend_from_slice(b"TREE");
    b.extend_from_slice(&5u32.to_be_bytes());
    b.extend_from_slice(b"abcde");
    // end-of-index-entries marker: extensions begin right after the header
    b.extend_from_slice(b"EOIE");
    b.extend_from_slice(&24u32.to_be_bytes());
    b.extend_from_slice(&12u32.to_be_bytes());
    b.extend_from_slice(&[0u8; 20]);
    // trailing checksum region
    b.extend_from_slice(&[0u8; 20]);
    b
}

#[test]
fn header_decodes_version_and_entry_count() {
    let mut b = header(2, 7);
    b.extend_from_slice(&[0u8; 20]);
    let (version, entries, pos) = decode(&b, Kind::Sha1).expect("valid header");
    assert!(matches!(version, Version::V2));
    assert_eq!(entries, 7);
    assert_eq!(pos, 12);
}

#[test]
fn header_rejects_unknown_version() {
    let mut b = header(5, 7);
    b.extend_from_slice(&[0u8; 20]);
    match decode(&b, Kind::Sha1) {
        Err(HeaderError::UnsupportedVersion(v)) => assert_eq!(v, 5),
        _ => panic!("expected an unsupported-version error"),
    }
}

#[test]
fn header_rejects_short_buffer_and_bad_signature() {
    assert!(matches!(decode(&[0u8; 8], Kind::Sha1), Err(HeaderError::Corrupt(_))));
    let mut b = header(2, 7);
    b[0] = b'X';
    b.extend_from_slice(&[0u8; 20]);
    assert!(matches!(decode(&b, Kind::Sha1), Err(HeaderError::Corrupt(_))));
}

#[test]
fn from_bytes_walks_extensions_and_keeps_the_tree() {
    let b = with_extensions();
    let s = State::from_bytes(&b, 99, Kind::Sha1).expect("valid index");
    assert!(matches!(s.version, Version::V2));
    assert_eq!(s.num_entries, 3);
    assert_eq!(s.timestamp, 99);
    assert_eq!(s.tree.as_deref(), Some(b"abcde".as_slice()));
}

#[test]
fn from_bytes_without_marker_keeps_no_tree() {
    let mut b = header(3, 1);
    b.extend_from_slice(&[0u8; 20]);
    let s = State::from_bytes(&b, 1, Kind::Sha1).expect("valid index");
    assert!(matches!(s.version, Version::V3));
    assert!(s.tree.is_none());
}

#[test]
fn from_bytes_rejects_overrunning_extension() {
    let mut b = header(2, 3);
    // an extension whose declared length runs past the checksum trailer
    b.extend_from_slice(b"AAAA");
    b.extend_from_slice(&1000u32.to_be_bytes());
    b.extend_from_slice(&[7, 7, 7, 7]);
    b.extend_from_slice(b"TREE");
    b.extend_from_slice(&5u32.to_be_bytes());
    b.extend_from_slice(b"abcde");
    b.extend_from_slice(b"EOIE");
    b.extend_from_slice(&24u32.to_be_bytes());
    b.extend_from_slice(&12u32.to_be_bytes());
    b.extend_from_slice(&[0u8; 20]);
    b.extend_from_slice(&[0u8; 20]);
    assert!(matches!(
        State::from_bytes(&b, 1, Kind::Sha1),
        Err(Error::Header(HeaderError::Corrupt(_)))
    ));
}

#[test]
fn from_bytes_propagates_header_errors() {
    let mut b = header(9, 1);
    b.extend_from_slice(&[0u8; 20]);
    assert!(matches!(
        State::from_bytes(&b, 1, Kind::Sha1),
        Err(Error::Header(HeaderError::UnsupportedVersion(9)))
    ));
}
