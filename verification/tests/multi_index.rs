use std::sync::atomic::AtomicBool;

use pack_index::entries::{IndexSource, SourceEntry};
use pack_index::hashing::{Kind, ObjectId};
use pack_index::multi_index::{DecodeError, Error, File, Options};

fn oid(first: u8, second: u8) -> ObjectId {
    let mut bytes = vec![0u8; 20];
    bytes[0] = first;
    bytes[1] = second;
    ObjectId::from_bytes(bytes, Kind::Sha1).expect("twenty bytes")
}

fn source(name: &str, mtime: u64, entries: Vec<(ObjectId, u64)>) -> IndexSource {
    IndexSource {
        file_name: name.as_bytes().to_vec(),
        mtime,
        entries: entries
            .into_iter()
            .map(|(id, pack_offset)| SourceEntry { id, pack_offset })
            .collect(),
    }
}

fn write(sources: &Vec<IndexSource>) -> pack_index::multi_index::Outcome {
    let flag = AtomicBool::new(false);
    File::write_from_index_paths(sources, &flag, Options { object_hash: Kind::Sha1 })
        .expect("write succeeds")
}

fn be32(b: &[u8], p: usize) -> u32 {
    u32::from_be_bytes([b[p], b[p + 1], b[p + 2], b[p + 3]])
}

fn be64(b: &[u8], p: usize) -> u64 {
    u64::from_be_bytes([
        b[p],
        b[p + 1],
        b[p + 2],
        b[p + 3],
        b[p + 4],
        b[p + 5],
        b[p + 6],
        b[p + 7],
    ])
}

fn chunk_range(bytes: &[u8], tag: u32) -> Option<(usize, usize)> {
    let nc = bytes[6] as usize;
    for i in 0..nc {
        if be32(bytes, 12 + 12 * i) == tag {
            let s = be64(bytes, 12 + 12 * i + 4) as usize;
            let e = be64(bytes, 12 + 12 * (i + 1) + 4) as usize;
            return Some((s, e));
        }
    }
    None
}

#[test]
fn round_trip_reproduces_merged_entries() {
    let sources = vec![
        source("a.idx", 10, vec![(oid(0x10, 1), 100), (oid(0x20, 2), 200)]),
        source("b.idx", 20, vec![(oid(0x20, 2), 999), (oid(0x30, 3), 300)]),
    ];
    let out = write(&sources);
    let file = File::from_bytes(&out.bytes, Kind::Sha1).expect("decode succeeds");
    assert_eq!(file.num_packs, 2);
    assert_eq!(file.entries.len(), 3);
    assert_eq!(file.entries[0].id.as_slice(), oid(0x10, 1).as_slice());
    assert_eq!(file.entries[0].pack_index, 0);
    assert_eq!(file.entries[0].pack_offset, 100);
    // the duplicate id resolves to the source with the later mtime
    assert_eq!(file.entries[1].id.as_slice(), oid(0x20, 2).as_slice());
    assert_eq!(file.entries[1].pack_index, 1);
    assert_eq!(file.entries[1].pack_offset, 999);
    assert_eq!(file.entries[2].id.as_slice(), oid(0x30, 3).as_slice());
    assert_eq!(file.entries[2].pack_index, 1);
}

#[test]
fn fanout_counts_ids_by_first_byte() {
    let sources = vec![source(
        "a.idx",
        1,
        vec![(oid(0x00, 1), 1), (oid(0x10, 2), 2), (oid(0x10, 3), 3), (oid(0xff, 4), 4)],
    )];
    let out = write(&sources);
    let file = File::from_bytes(&out.bytes, Kind::Sha1).expect("decode succeeds");
    let firsts = [0x00u8, 0x10, 0x10, 0xff];
    for b in 0..256usize {
        let expected = firsts.iter().filter(|f| (**f as usize) <= b).count() as u32;
        assert_eq!(file.fanout[b], expected, "bucket {}", b);
    }
    assert_eq!(file.fanout[255] as usize, file.entries.len());
}

#[test]
fn dedup_prefers_later_mtime_then_earlier_name() {
    let id = oid(0x42, 7);
    let sources = vec![
        source("a.idx", 5, vec![(id.duplicate(), 11)]),
        source("b.idx", 50, vec![(id.duplicate(), 22)]),
    ];
    let out = write(&sources);
    let file = File::from_bytes(&out.bytes, Kind::Sha1).expect("decode succeeds");
    assert_eq!(file.entries.len(), 1);
    assert_eq!(file.entries[0].pack_index, 1, "the later mtime wins");
    assert_eq!(file.entries[0].pack_offset, 22);

    let sources = vec![
        source("a.idx", 5, vec![(id.duplicate(), 11)]),
        source("b.idx", 5, vec![(id.duplicate(), 22)]),
    ];
    let out = write(&sources);
    let file = File::from_bytes(&out.bytes, Kind::Sha1).expect("decode succeeds");
    assert_eq!(file.entries.len(), 1);
    assert_eq!(file.entries[0].pack_index, 0, "equal mtimes: the earlier name wins");
    assert_eq!(file.entries[0].pack_offset, 11);
}

#[test]
fn offset_overflow_uses_large_offset_chunk() {
    let sources = vec![source(
        "a.idx",
        1,
        vec![(oid(1, 1), 0x8000_0001), (oid(2, 2), 0x7fff_ffff)],
    )];
    let out = write(&sources);
    assert_eq!(out.bytes[6], 5, "a fifth chunk holds the large offsets");
    let (ooff_s, _) = chunk_range(&out.bytes, 0x4f4f4646).expect("offset chunk present");
    // entry 0: flagged slot pointing at large-offset position 0
    let slot0 = be32(&out.bytes, ooff_s + 4);
    assert_eq!(slot0, 0x8000_0000, "high bit set, index zero");
    // entry 1: literal offset, high bit clear
    let slot1 = be32(&out.bytes, ooff_s + 12);
    assert_eq!(slot1, 0x7fff_ffff);
    let (loff_s, loff_e) = chunk_range(&out.bytes, 0x4c4f4646).expect("large-offset chunk");
    assert_eq!(loff_e - loff_s, 8, "only the overflowing offset is stored");
    assert_eq!(be64(&out.bytes, loff_s), 0x8000_0001);
    let file = File::from_bytes(&out.bytes, Kind::Sha1).expect("decode succeeds");
    assert_eq!(file.entries[0].pack_offset, 0x8000_0001);
    assert_eq!(file.entries[1].pack_offset, 0x7fff_ffff);
}

#[test]
fn no_large_offsets_no_fifth_chunk() {
    let sources = vec![source("a.idx", 1, vec![(oid(1, 1), 0x7fff_ffff)])];
    let out = write(&sources);
    assert_eq!(out.bytes[6], 4);
    assert!(chunk_range(&out.bytes, 0x4c4f4646).is_none());
}

#[test]
fn checksum_is_trailing_twenty_bytes() {
    let sources = vec![source("a.idx", 1, vec![(oid(1, 1), 1)])];
    let out = write(&sources);
    let n = out.bytes.len();
    assert_eq!(out.multi_index_checksum.as_slice(), &out.bytes[n - 20..]);
    // header length + chunk table + names (8 bytes padded) + fanout + lookup
    // + offsets + trailer
    assert_eq!(n, 12 + 12 * 5 + 8 + 1024 + 20 + 8 + 20);
}

#[test]
fn truncation_is_detected() {
    let sources = vec![source("a.idx", 1, vec![(oid(1, 1), 1)])];
    let mut bytes = write(&sources).bytes;
    bytes.pop();
    assert!(File::from_bytes(&bytes, Kind::Sha1).is_err());
}

#[test]
fn flipped_byte_fails_the_checksum() {
    let sources = vec![source("a.idx", 1, vec![(oid(1, 1), 1)])];
    let mut bytes = write(&sources).bytes;
    let (oidl_s, _) = chunk_range(&bytes, 0x4f49444c).expect("lookup chunk");
    bytes[oidl_s] ^= 0xff;
    match File::from_bytes(&bytes, Kind::Sha1) {
        Err(DecodeError::Corrupt(reason)) => assert_eq!(reason, "checksum mismatch"),
        other => panic!("expected a corruption error, got {:?}", other.is_ok()),
    }
}

#[test]
fn interruption_writes_nothing() {
    let flag = AtomicBool::new(true);
    let sources = vec![
        source("a.idx", 1, vec![(oid(1, 1), 1)]),
        source("b.idx", 1, vec![(oid(2, 2), 2)]),
        source("c.idx", 1, vec![(oid(3, 3), 3)]),
    ];
    let r = File::write_from_index_paths(&sources, &flag, Options { object_hash: Kind::Sha1 });
    assert!(matches!(r, Err(Error::Interrupted)));
}

#[test]
fn unknown_chunk_is_skipped() {
    let sources = vec![source("a.idx", 7, vec![(oid(0x11, 1), 41), (oid(0x22, 2), 42)])];
    let out = write(&sources);
    let bytes = &out.bytes;
    let nc = bytes[6] as usize;
    assert_eq!(nc, 4);
    let toc_end = 12 + 12 * (nc + 1);
    let body = &bytes[toc_end..bytes.len() - 20];
    let (fan_s, fan_e) = chunk_range(bytes, 0x4f494446).expect("fan-out chunk");
    // rebuild the file with one extra, unknown chunk after the fan-out
    let extra = [0xde, 0xad, 0xbe, 0xef];
    let new_toc_end = 12 + 12 * (nc + 2);
    let shift = (new_toc_end - toc_end) as u64;
    let mut rebuilt: Vec<u8> = Vec::new();
    rebuilt.extend_from_slice(&bytes[0..6]);
    rebuilt.push((nc + 1) as u8);
    rebuilt.push(0);
    rebuilt.extend_from_slice(&bytes[8..12]);
    for i in 0..nc {
        let id = be32(bytes, 12 + 12 * i);
        let off = be64(bytes, 12 + 12 * i + 4);
        let mut new_off = off + shift;
        if off as usize > fan_s {
            new_off += extra.len() as u64;
        }
        rebuilt.extend_from_slice(&id.to_be_bytes());
        rebuilt.extend_from_slice(&new_off.to_be_bytes());
        if off as usize == fan_s {
            // unknown chunk directly after the fan-out chunk
            rebuilt.extend_from_slice(b"XTRA");
            rebuilt.extend_from_slice(&(fan_e as u64 + shift).to_be_bytes());
        }
    }
    let old_end = be64(bytes, 12 + 12 * nc + 4);
    rebuilt.extend_from_slice(&0u32.to_be_bytes());
    rebuilt.extend_from_slice(&(old_end + shift + extra.len() as u64).to_be_bytes());
    // bodies: everything up to the end of the fan-out, the unknown chunk,
    // then the rest
    rebuilt.extend_from_slice(&bytes[toc_end..fan_e]);
    rebuilt.extend_from_slice(&extra);
    rebuilt.extend_from_slice(&bytes[fan_e..bytes.len() - 20]);
    let mut h = git_features::hash::Sha1::default();
    h.update(&rebuilt);
    let digest = h.digest();
    rebuilt.extend_from_slice(&digest);
    assert_eq!(body.len() + extra.len() + new_toc_end + 20, rebuilt.len());
    let file = File::from_bytes(&rebuilt, Kind::Sha1).expect("decoder skips the unknown chunk");
    assert_eq!(file.entries.len(), 2);
    assert_eq!(file.entries[0].id.as_slice(), oid(0x11, 1).as_slice());
    assert_eq!(file.entries[0].pack_offset, 41);
    assert_eq!(file.entries[1].id.as_slice(), oid(0x22, 2).as_slice());
    assert_eq!(file.entries[1].pack_offset, 42);
}

#[test]
fn unsupported_version_is_reported() {
    let sources = vec![source("a.idx", 1, vec![(oid(1, 1), 1)])];
    let mut bytes = write(&sources).bytes;
    bytes[4] = 2;
    match File::from_bytes(&bytes, Kind::Sha1) {
        Err(DecodeError::UnsupportedVersion(v)) => assert_eq!(v, 2),
        _ => panic!("expected an unsupported-version error"),
    }
}

#[test]
fn signature_mismatch_is_corrupt() {
    let sources = vec![source("a.idx", 1, vec![(oid(1, 1), 1)])];
    let mut bytes = write(&sources).bytes;
    bytes[0] = b'X';
    assert!(matches!(File::from_bytes(&bytes, Kind::Sha1), Err(DecodeError::Corrupt(_))));
}

#[test]
fn pack_names_are_nul_terminated_and_sorted() {
    let sources = vec![
        source("a.idx", 1, vec![(oid(1, 1), 1)]),
        source("b.idx", 1, vec![(oid(2, 2), 2)]),
    ];
    let out = write(&sources);
    let (s, e) = chunk_range(&out.bytes, 0x504e414d).expect("pack-name chunk");
    assert_eq!(&out.bytes[s..e], b"a.idx\0b.idx\0");
}
