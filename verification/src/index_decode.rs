use vstd::prelude::*;

use crate::codec::{be32_at, read_be32};
use crate::hashing::{copy_range, Kind};

verus! {

/// The format versions of a single-pack index file.
#[derive(Clone, Copy, PartialEq, Eq, Structural, Debug)]
pub enum Version {
    V2,
    V3,
    V4,
}

/// Errors of the single-pack header decoder: structural corruption with a
/// static reason, or a recognized file of an unimplemented version.
#[derive(Debug)]
pub enum HeaderError {
    Corrupt(&'static str),
    UnsupportedVersion(u32),
}

/// Errors of the full single-pack decode.
#[derive(Debug)]
pub enum Error {
    Header(HeaderError),
}

/// The version a header's version field selects, if it is known.
pub open spec fn version_of(v: u32) -> Option<Version> {
    if v == 2 {
        Some(Version::V2)
    } else if v == 3 {
        Some(Version::V3)
    } else if v == 4 {
        Some(Version::V4)
    } else {
        None
    }
}

/// The single-pack index signature stands at the start of the buffer.
pub open spec fn index_sig_ok(data: Seq<u8>) -> bool {
    data.len() >= 4 && data[0] == 0x44u8 && data[1] == 0x49u8 && data[2] == 0x52u8 && data[3]
        == 0x43u8
}

/// A buffer long enough for a header with no entries and the smallest hash.
pub open spec fn header_len_ok(data: Seq<u8>, object_hash: Kind) -> bool {
    data.len() >= 12 + object_hash.spec_len_in_bytes()
}

/// Decode the fixed header of a single-pack index: signature, version and
/// entry count; the returned position is where the entry records begin.
pub fn decode(data: &[u8], object_hash: Kind) -> (r: Result<(Version, u32, usize), HeaderError>)
    ensures
        r matches Ok(t) <==> header_len_ok(data@, object_hash) && index_sig_ok(data@)
            && version_of(be32_at(data@, 4)) is Some,
        r matches Ok(t) ==> t.0 == version_of(be32_at(data@, 4)).unwrap() && t.1 == be32_at(
            data@,
            8,
        ) && t.2 == 12,
        r matches Err(HeaderError::UnsupportedVersion(v)) ==> header_len_ok(data@, object_hash)
            && index_sig_ok(data@) && version_of(be32_at(data@, 4)) is None && v == be32_at(
            data@,
            4,
        ),
        (header_len_ok(data@, object_hash) && index_sig_ok(data@) && version_of(
            be32_at(data@, 4),
        ) is None) ==> r == Err::<(Version, u32, usize), HeaderError>(
            HeaderError::UnsupportedVersion(be32_at(data@, 4)),
        ),
{
    if data.len() < 12 + object_hash.len_in_bytes() {
        return Err(
            HeaderError::Corrupt("buffer too small for a header with no entries and its checksum"),
        );
    }
    if !(data[0] == 0x44 && data[1] == 0x49 && data[2] == 0x52 && data[3] == 0x43) {
        return Err(HeaderError::Corrupt("signature mismatch"));
    }
    let version = match read_be32(data, 4) {
        2 => Version::V2,
        3 => Version::V3,
        4 => Version::V4,
        unknown => {
            return Err(HeaderError::UnsupportedVersion(unknown));
        },
    };
    let entries = read_be32(data, 8);
    Ok((version, entries, 12))
}

/// The payload of the first cached-tree extension in the trailer region
/// `[pos, limit)`, walking records of signature, length and payload and
/// skipping unrecognized signatures by their length alone.
pub open spec fn tree_payload(data: Seq<u8>, pos: int, limit: int) -> Option<Seq<u8>>
    decreases limit - pos,
{
    if pos + 8 > limit {
        None
    } else {
        let sz = be32_at(data, pos + 4) as int;
        if pos + 8 + sz > limit {
            None
        } else if be32_at(data, pos) == 0x54524545 {
            Some(data.subrange(pos + 8, pos + 8 + sz))
        } else {
            tree_payload(data, pos + 8 + sz, limit)
        }
    }
}

/// The walk over the trailer region `[pos, limit)` stays inside it: every
/// record up to the first cached-tree record (or the end) declares a length
/// that fits before `limit`. A trailing fragment shorter than one record
/// header is ignored, as the walk cannot enter it.
pub open spec fn ext_walk_ok(data: Seq<u8>, pos: int, limit: int) -> bool
    decreases limit - pos,
{
    if pos + 8 > limit {
        true
    } else {
        let sz = be32_at(data, pos + 4) as int;
        if pos + 8 + sz > limit {
            false
        } else if be32_at(data, pos) == 0x54524545 {
            true
        } else {
            ext_walk_ok(data, pos + 8 + sz, limit)
        }
    }
}

/// Where the end-of-index-entries trailer marker says extensions begin,
/// if a plausible marker is present.
pub open spec fn eoie_spec(data: Seq<u8>, object_hash: Kind) -> Option<int> {
    let hl = object_hash.spec_len_in_bytes() as int;
    let record = 12 + hl;
    if data.len() < 12 + record + hl {
        None
    } else {
        let start = data.len() - hl - record;
        if be32_at(data, start) != 0x454f4945u32 {
            None
        } else if be32_at(data, start + 4) as int != 4 + hl {
            None
        } else {
            let off = be32_at(data, start + 8) as int;
            if off < 12 || off > start {
                None
            } else {
                Some(off)
            }
        }
    }
}

/// The mathematical value of an optional byte buffer.
pub open spec fn opt_bytes_view(o: Option<Vec<u8>>) -> Option<Seq<u8>> {
    match o {
        Some(v) => Some(v@),
        None => None,
    }
}

/// The decoded state of a single-pack index: its version and entry count,
/// the reference timestamp it was read at, and the raw payload of the
/// cached-tree extension when one is present.
pub struct State {
    pub version: Version,
    pub num_entries: u32,
    pub timestamp: u64,
    pub tree: Option<Vec<u8>>,
}

impl State {
    /// Decode the header of a single-pack index, then walk its extension
    /// trailer: records of four-byte signature, length and payload between
    /// the position named by the trailing end-of-index-entries marker and
    /// the checksum. Known extensions are kept, unknown signatures are
    /// skipped by length, so future extension kinds cannot break decoding.
    pub fn from_bytes(data: &[u8], timestamp: u64, object_hash: Kind) -> (r: Result<State, Error>)
        ensures
            r is Ok <==> header_len_ok(data@, object_hash) && index_sig_ok(data@) && version_of(
                be32_at(data@, 4),
            ) is Some && (match eoie_spec(data@, object_hash) {
                Some(st) => ext_walk_ok(
                    data@,
                    st,
                    data@.len() - object_hash.spec_len_in_bytes(),
                ),
                None => true,
            }),
            !(header_len_ok(data@, object_hash) && index_sig_ok(data@)) ==> r matches Err(
                Error::Header(HeaderError::Corrupt(m)),
            ),
            r matches Ok(s) ==> {
                &&& header_len_ok(data@, object_hash) && index_sig_ok(data@)
                &&& version_of(be32_at(data@, 4)) == Some(s.version)
                &&& s.num_entries == be32_at(data@, 8)
                &&& s.timestamp == timestamp
                &&& match eoie_spec(data@, object_hash) {
                    Some(st) => opt_bytes_view(s.tree) == tree_payload(
                        data@,
                        st,
                        data@.len() - object_hash.spec_len_in_bytes(),
                    ),
                    None => s.tree is None,
                }
            },
            (header_len_ok(data@, object_hash) && index_sig_ok(data@) && version_of(
                be32_at(data@, 4),
            ) is None) ==> r == Err::<State, Error>(
                Error::Header(HeaderError::UnsupportedVersion(be32_at(data@, 4))),
            ),
    {
        let (version, num_entries, _after_header) = match decode(data, object_hash) {
            Ok(t) => t,
            Err(e) => {
                proof {
                    if !(header_len_ok(data@, object_hash) && index_sig_ok(data@)) {
                        if e matches HeaderError::UnsupportedVersion(v) {
                            assert(false);
                        }
                    }
                }
                return Err(Error::Header(e));
            },
        };
        let hash_len = object_hash.len_in_bytes();
        let limit = data.len() - hash_len;
        let start_of_extensions = end_of_index_entry(data, object_hash);
        let mut tree: Option<Vec<u8>> = None;
        if let Some(start) = start_of_extensions {
            let ghost limit_i = limit as int;
            let mut pos = start;
            loop
                invariant_except_break
                    12 <= pos <= limit,
                    limit_i == limit as int,
                    limit + object_hash.spec_len_in_bytes() == data@.len(),
                    header_len_ok(data@, object_hash),
                    index_sig_ok(data@),
                    version_of(be32_at(data@, 4)) is Some,
                    eoie_spec(data@, object_hash) == Some(start as int),
                    tree is None,
                    tree_payload(data@, start as int, limit_i) == tree_payload(
                        data@,
                        pos as int,
                        limit_i,
                    ),
                    ext_walk_ok(data@, start as int, limit_i) == ext_walk_ok(
                        data@,
                        pos as int,
                        limit_i,
                    ),
                ensures
                    opt_bytes_view(tree) == tree_payload(data@, start as int, limit_i),
                    ext_walk_ok(data@, start as int, limit_i),
                decreases limit_i - pos,
            {
                if limit - pos < 8 {
                    break ;
                }
                let sig = read_be32(data, pos);
                let sz = read_be32(data, pos + 4) as usize;
                if sz > limit - (pos + 8) {
                    proof {
                        assert(!ext_walk_ok(data@, pos as int, limit_i));
                        assert(!ext_walk_ok(data@, start as int, limit_i));
                    }
                    return Err(Error::Header(HeaderError::Corrupt(
                        "extension record longer than its region",
                    )));
                }
                if sig == 0x54524545 {
                    tree = Some(copy_range(data, pos + 8, pos + 8 + sz));
                    break ;
                }
                pos = pos + 8 + sz;
            }
        }
        Ok(State { version, num_entries, timestamp, tree })
    }
}

/// Locate the trailer marker that names where extensions begin: a record of
/// signature, length, and a payload whose first four bytes give the byte
/// offset of the first extension. Absent or implausible markers yield
/// nothing, never an error.
fn end_of_index_entry(data: &[u8], object_hash: Kind) -> (r: Option<usize>)
    ensures
        r matches Some(p) ==> 12 <= p <= data@.len() - object_hash.spec_len_in_bytes(),
        r is Some <==> eoie_spec(data@, object_hash) is Some,
        r matches Some(p) ==> p == eoie_spec(data@, object_hash).unwrap(),
{
    let hash_len = object_hash.len_in_bytes();
    // signature + size + offset + a hash of the extension headers
    let record = 4 + 4 + 4 + hash_len;
    if data.len() < 12 + record + hash_len {
        return None;
    }
    let start = data.len() - hash_len - record;
    if read_be32(data, start) != 0x454f4945 {
        return None;
    }
    if read_be32(data, start + 4) as usize != 4 + hash_len {
        return None;
    }
    let offset64 = read_be32(data, start + 8) as u64;
    if offset64 < 12 || offset64 > start as u64 {
        return None;
    }
    Some(offset64 as usize)
}

} // verus!
