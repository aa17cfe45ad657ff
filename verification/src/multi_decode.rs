use vstd::prelude::*;

use crate::codec::{be32_at, be64_at, read_be32, read_be64};
use crate::chunks::{entries_wf, fanout_value, large_seq, lemma_fanout_value_bounds,
    lemma_fanout_value_monotonic, lemma_fanout_value_total, lemma_large_seq_at,
    lemma_large_seq_len, slot_value, CHUNK_FANOUT, CHUNK_LARGE_OFFSETS, CHUNK_LOOKUP,
    CHUNK_OFFSETS, CHUNK_PACK_NAMES};
use crate::entries::EntryV;
use crate::hashing::{copy_range, Kind, ObjectId};
use crate::multi_index::{is_encoding_of, spec_body_len, spec_num_chunks, spec_off_fanout,
    spec_off_large, spec_off_lookup, spec_off_offsets, spec_toc_end, DecodeError, File, FileEntry};
use crate::sha::{sha1, sha1_of};

verus! {

/// The first four bytes carry the multi-pack index signature.
pub open spec fn midx_sig_ok(data: Seq<u8>) -> bool {
    data.len() >= 4 && data[0] == 0x4du8 && data[1] == 0x49u8 && data[2] == 0x44u8 && data[3]
        == 0x58u8
}

/// The number of chunks the header declares.
pub open spec fn d_num_chunks(data: Seq<u8>) -> int {
    data[6] as int
}

/// Where the chunk table ends and chunk bodies may begin.
pub open spec fn d_toc_end(data: Seq<u8>) -> int {
    12 + 12 * (d_num_chunks(data) + 1)
}

/// The tag of chunk-table record `i`.
pub open spec fn d_toc_id(data: Seq<u8>, i: int) -> u32 {
    be32_at(data, 12 + 12 * i)
}

/// The starting offset chunk-table record `i` declares.
pub open spec fn d_toc_off(data: Seq<u8>, i: int) -> int {
    be64_at(data, 12 + 12 * i + 4) as int
}

/// The first chunk-table index below `j` whose tag is `id`, or -1.
pub open spec fn d_find_upto(data: Seq<u8>, id: u32, j: int) -> int
    decreases j,
{
    if j <= 0 {
        -1
    } else if d_find_upto(data, id, j - 1) >= 0 {
        d_find_upto(data, id, j - 1)
    } else if d_toc_id(data, j - 1) == id {
        j - 1
    } else {
        -1
    }
}

/// The chunk-table index of the chunk tagged `id`, or -1 when absent.
pub open spec fn d_find(data: Seq<u8>, id: u32) -> int {
    d_find_upto(data, id, d_num_chunks(data))
}

pub open spec fn d_chunk_start(data: Seq<u8>, id: u32) -> int {
    d_toc_off(data, d_find(data, id))
}

pub open spec fn d_chunk_end(data: Seq<u8>, id: u32) -> int {
    d_toc_off(data, d_find(data, id) + 1)
}

/// The stored fan-out count of bucket `b`.
pub open spec fn d_fanout(data: Seq<u8>, b: int) -> u32 {
    be32_at(data, d_chunk_start(data, CHUNK_FANOUT) + 4 * b)
}

/// The entry count the fan-out's last bucket declares.
pub open spec fn d_num_objects(data: Seq<u8>) -> int {
    d_fanout(data, 255) as int
}

/// The stored id of lookup entry `i`.
pub open spec fn d_id(data: Seq<u8>, i: int) -> Seq<u8> {
    data.subrange(
        d_chunk_start(data, CHUNK_LOOKUP) + 20 * i,
        d_chunk_start(data, CHUNK_LOOKUP) + 20 * i + 20,
    )
}

/// The stored pack position of entry `i`.
pub open spec fn d_pack_index(data: Seq<u8>, i: int) -> u32 {
    be32_at(data, d_chunk_start(data, CHUNK_OFFSETS) + 8 * i)
}

/// The stored 32-bit offset slot of entry `i`.
pub open spec fn d_slot(data: Seq<u8>, i: int) -> u32 {
    be32_at(data, d_chunk_start(data, CHUNK_OFFSETS) + 8 * i + 4)
}

/// The pack offset of entry `i`: the slot itself when its high bit is
/// clear, else the overflow-table value the slot's low bits select.
pub open spec fn d_offset(data: Seq<u8>, i: int) -> u64 {
    if d_slot(data, i) < 0x80000000 {
        d_slot(data, i) as u64
    } else {
        be64_at(
            data,
            d_chunk_start(data, CHUNK_LARGE_OFFSETS) + 8 * (d_slot(data, i) - 0x80000000),
        )
    }
}

/// The offset slot of entry `i` is resolvable: either it is a literal
/// offset, or an overflow table exists and the slot's index lies inside it.
pub open spec fn d_slot_ok(data: Seq<u8>, i: int) -> bool {
    d_slot(data, i) < 0x80000000 || (d_find(data, CHUNK_LARGE_OFFSETS) >= 0 && 8 * (d_slot(data, i)
        - 0x80000000) + 8 <= d_chunk_end(data, CHUNK_LARGE_OFFSETS) - d_chunk_start(
        data,
        CHUNK_LARGE_OFFSETS,
    ))
}

/// Every structural condition the decoder demands before trusting the
/// buffer: header, chunk table, required chunks, consistent sizes,
/// ascending fan-out, and resolvable offset slots.
pub open spec fn wf_multi(data: Seq<u8>, object_hash: Kind) -> bool {
    let nc = d_num_chunks(data);
    let limit = data.len() - 20;
    let n = d_num_objects(data);
    &&& data.len() >= 32
    &&& midx_sig_ok(data)
    &&& data[4] == 1u8
    &&& data[5] == object_hash.spec_header_byte()
    &&& d_toc_end(data) <= limit
    &&& forall|i: int| 0 <= i <= nc ==> d_toc_end(data) <= #[trigger] d_toc_off(data, i) <= limit
    &&& forall|i: int, j: int|
        0 <= i <= j <= nc ==> #[trigger] d_toc_off(data, i) <= #[trigger] d_toc_off(data, j)
    &&& d_toc_off(data, nc) == limit
    &&& d_find(data, CHUNK_PACK_NAMES) >= 0
    &&& d_find(data, CHUNK_FANOUT) >= 0
    &&& d_find(data, CHUNK_LOOKUP) >= 0
    &&& d_find(data, CHUNK_OFFSETS) >= 0
    &&& d_chunk_end(data, CHUNK_FANOUT) - d_chunk_start(data, CHUNK_FANOUT) == 1024
    &&& forall|b1: int, b2: int|
        0 <= b1 <= b2 < 256 ==> #[trigger] d_fanout(data, b1) <= #[trigger] d_fanout(data, b2)
    &&& n <= 0x7fffffff
    &&& d_chunk_end(data, CHUNK_LOOKUP) - d_chunk_start(data, CHUNK_LOOKUP) == 20 * n
    &&& d_chunk_end(data, CHUNK_OFFSETS) - d_chunk_start(data, CHUNK_OFFSETS) == 8 * n
    &&& forall|i: int| 0 <= i < n ==> #[trigger] d_slot_ok(data, i)
}

/// The trailing checksum equals the digest of every byte before it.
pub open spec fn checksum_ok(data: Seq<u8>) -> bool {
    data.subrange(data.len() - 20, data.len() as int) == sha1_of(data.subrange(0, data.len() - 20))
}

impl File {
    /// Decode a multi-pack index from a byte buffer. Decoding succeeds
    /// exactly on structurally valid buffers whose trailing checksum
    /// matches the recomputed digest; the result's fan-out, ids, pack
    /// positions and resolved offsets are exactly the stored ones. Chunks
    /// with unrecognized tags are skipped by their size alone.
    #[verifier::rlimit(100)]
    #[verifier::loop_isolation(false)]
    pub fn from_bytes(data: &[u8], object_hash: Kind) -> (r: Result<File, DecodeError>)
        ensures
            r is Ok <==> wf_multi(data@, object_hash) && checksum_ok(data@),
            r matches Ok(f) ==> {
                &&& f.num_packs == be32_at(data@, 8)
                &&& f.fanout@.len() == 256
                &&& forall|b: int| 0 <= b < 256 ==> #[trigger] f.fanout@[b] == d_fanout(data@, b)
                &&& f.entries@.len() == d_num_objects(data@)
                &&& forall|i: int|
                    0 <= i < f.entries@.len() ==> (#[trigger] f.entries@[i]).id@ == d_id(data@, i)
                        && f.entries@[i].pack_index == d_pack_index(data@, i)
                        && f.entries@[i].pack_offset == d_offset(data@, i)
            },
            r matches Err(DecodeError::UnsupportedVersion(v)) ==> data@.len() >= 32 && midx_sig_ok(
                data@,
            ) && data@[4] != 1 && v == data@[4],
            (data@.len() >= 32 && midx_sig_ok(data@) && data@[4] != 1) ==> r == Err::<
                File,
                DecodeError,
            >(DecodeError::UnsupportedVersion(data@[4])),
    {
        let len = data.len();
        if len < 32 {
            return Err(DecodeError::Corrupt("buffer too small for header and trailing checksum"));
        }
        if !(data[0] == 0x4d && data[1] == 0x49 && data[2] == 0x44 && data[3] == 0x58) {
            return Err(DecodeError::Corrupt("signature mismatch"));
        }
        if data[4] != 1 {
            return Err(DecodeError::UnsupportedVersion(data[4]));
        }
        if data[5] != object_hash.header_byte() {
            return Err(DecodeError::Corrupt("hash kind mismatch"));
        }
        let nc = data[6] as usize;
        let toc_end: usize = 12 + 12 * (nc + 1);
        let limit: usize = len - 20;
        if limit < toc_end {
            return Err(DecodeError::Corrupt("buffer too small for chunk table"));
        }
        // chunk boundaries: one offset per chunk plus the terminating end
        let mut offs: Vec<usize> = Vec::new();
        let mut i: usize = 0;
        while i <= nc
            invariant
                i <= nc + 1,
                offs@.len() == i,
                forall|q: int| 0 <= q < i ==> #[trigger] offs@[q] == d_toc_off(data@, q),
                forall|q: int| 0 <= q < i ==> toc_end <= #[trigger] offs@[q] <= limit,
                forall|q1: int, q2: int|
                    0 <= q1 <= q2 < i ==> #[trigger] offs@[q1] <= #[trigger] offs@[q2],
            decreases nc + 1 - i,
        {
            let off64 = read_be64(data, 12 + 12 * i + 4);
            if off64 > limit as u64 {
                proof {
                    assert(d_toc_off(data@, i as int) > limit);
                    assert(!wf_multi(data@, object_hash));
                }
                return Err(DecodeError::Corrupt("chunk offset beyond the checksum trailer"));
            }
            let off = off64 as usize;
            if off < toc_end {
                proof {
                    assert(d_toc_off(data@, i as int) < d_toc_end(data@));
                    assert(!wf_multi(data@, object_hash));
                }
                return Err(DecodeError::Corrupt("chunk offset inside the chunk table"));
            }
            if i > 0 && off < offs[i - 1] {
                proof {
                    assert(d_toc_off(data@, i - 1) > d_toc_off(data@, i as int));
                    assert(!wf_multi(data@, object_hash));
                }
                return Err(DecodeError::Corrupt("chunk offsets not ascending"));
            }
            offs.push(off);
            proof {
                assert forall|q1: int, q2: int| 0 <= q1 <= q2 < i + 1 implies #[trigger] offs@[q1]
                    <= #[trigger] offs@[q2] by {
                    if q2 == i && q1 < i {
                        assert(offs@[q1] <= offs@[i - 1]);
                    }
                }
            }
            i = i + 1;
        }
        if offs[nc] != limit {
            return Err(DecodeError::Corrupt("chunk table does not end at the checksum trailer"));
        }
        // locate the known chunks; skip unrecognized tags by size alone
        let mut pnam_i: usize = nc;
        let mut fan_i: usize = nc;
        let mut oidl_i: usize = nc;
        let mut ooff_i: usize = nc;
        let mut loff_i: usize = nc;
        let mut j: usize = 0;
        while j < nc
            invariant
                j <= nc,
                pnam_i == nc || pnam_i == d_find_upto(data@, CHUNK_PACK_NAMES, j as int),
                pnam_i == nc ==> d_find_upto(data@, CHUNK_PACK_NAMES, j as int) == -1,
                fan_i == nc || fan_i == d_find_upto(data@, CHUNK_FANOUT, j as int),
                fan_i == nc ==> d_find_upto(data@, CHUNK_FANOUT, j as int) == -1,
                oidl_i == nc || oidl_i == d_find_upto(data@, CHUNK_LOOKUP, j as int),
                oidl_i == nc ==> d_find_upto(data@, CHUNK_LOOKUP, j as int) == -1,
                ooff_i == nc || ooff_i == d_find_upto(data@, CHUNK_OFFSETS, j as int),
                ooff_i == nc ==> d_find_upto(data@, CHUNK_OFFSETS, j as int) == -1,
                loff_i == nc || loff_i == d_find_upto(data@, CHUNK_LARGE_OFFSETS, j as int),
                loff_i == nc ==> d_find_upto(data@, CHUNK_LARGE_OFFSETS, j as int) == -1,
                pnam_i <= nc && fan_i <= nc && oidl_i <= nc && ooff_i <= nc && loff_i <= nc,
            decreases nc - j,
        {
            let id = read_be32(data, 12 + 12 * j);
            proof {
                assert(id == d_toc_id(data@, j as int));
            }
            if id == CHUNK_PACK_NAMES && pnam_i == nc {
                pnam_i = j;
            } else if id == CHUNK_FANOUT && fan_i == nc {
                fan_i = j;
            } else if id == CHUNK_LOOKUP && oidl_i == nc {
                oidl_i = j;
            } else if id == CHUNK_OFFSETS && ooff_i == nc {
                ooff_i = j;
            } else if id == CHUNK_LARGE_OFFSETS && loff_i == nc {
                loff_i = j;
            }
            j = j + 1;
        }
        if pnam_i == nc || fan_i == nc || oidl_i == nc || ooff_i == nc {
            return Err(DecodeError::Corrupt("a required chunk is missing"));
        }
        let fan_s = offs[fan_i];
        if offs[fan_i + 1] - fan_s != 1024 {
            return Err(DecodeError::Corrupt("fan-out chunk must hold 256 counts"));
        }
        proof {
            assert(fan_s == d_chunk_start(data@, CHUNK_FANOUT));
        }
        // fan-out: 256 cumulative counts, checked to be ascending
        let mut fanout: Vec<u32> = Vec::new();
        let mut b: usize = 0;
        while b < 256
            invariant
                b <= 256,
                fanout@.len() == b,
                forall|q: int| 0 <= q < b ==> #[trigger] fanout@[q] == d_fanout(data@, q),
                forall|q1: int, q2: int|
                    0 <= q1 <= q2 < b ==> #[trigger] fanout@[q1] <= #[trigger] fanout@[q2],
            decreases 256 - b,
        {
            let v = read_be32(data, fan_s + 4 * b);
            if b > 0 && v < fanout[b - 1] {
                proof {
                    assert(d_fanout(data@, b - 1) > d_fanout(data@, b as int));
                    assert(!wf_multi(data@, object_hash));
                }
                return Err(DecodeError::Corrupt("fan-out counts not ascending"));
            }
            fanout.push(v);
            proof {
                assert forall|q1: int, q2: int| 0 <= q1 <= q2 < b + 1 implies #[trigger] fanout@[q1]
                    <= #[trigger] fanout@[q2] by {
                    if q2 == b && q1 < b {
                        assert(fanout@[q1] <= fanout@[b - 1]);
                    }
                }
            }
            b = b + 1;
        }
        let n64 = fanout[255] as u64;
        if n64 > 0x7fffffff {
            return Err(DecodeError::Corrupt("entry count out of range"));
        }
        let n = fanout[255] as usize;
        let oidl_s = offs[oidl_i];
        if (offs[oidl_i + 1] - oidl_s) as u64 != 20 * (n as u64) {
            return Err(DecodeError::Corrupt("lookup chunk size does not match the entry count"));
        }
        let ooff_s = offs[ooff_i];
        if (offs[ooff_i + 1] - ooff_s) as u64 != 8 * (n as u64) {
            return Err(DecodeError::Corrupt("offset chunk size does not match the entry count"));
        }
        let has_loff = loff_i != nc;
        let loff_s = if has_loff {
            offs[loff_i]
        } else {
            0
        };
        let loff_len = if has_loff {
            offs[loff_i + 1] - offs[loff_i]
        } else {
            0
        };
        let mut entries: Vec<FileEntry> = Vec::new();
        let mut e: usize = 0;
        while e < n
            invariant
                e <= n,
                entries@.len() == e,
                forall|q: int| 0 <= q < e ==> #[trigger] d_slot_ok(data@, q),
                forall|q: int|
                    0 <= q < e ==> (#[trigger] entries@[q]).id@ == d_id(data@, q)
                        && entries@[q].pack_index == d_pack_index(data@, q)
                        && entries@[q].pack_offset == d_offset(data@, q),
            decreases n - e,
        {
            let id_bytes = copy_range(data, oidl_s + 20 * e, oidl_s + 20 * e + 20);
            let id = match ObjectId::from_bytes(id_bytes, Kind::Sha1) {
                Some(id) => id,
                None => {
                    proof {
                        assert(false);
                    }
                    return Err(DecodeError::Corrupt("unreachable"));
                },
            };
            let pack_index = read_be32(data, ooff_s + 8 * e);
            let slot = read_be32(data, ooff_s + 8 * e + 4);
            proof {
                assert(slot == d_slot(data@, e as int));
            }
            let pack_offset: u64 = if slot >= 0x80000000 {
                if !has_loff {
                    proof {
                        assert(!d_slot_ok(data@, e as int));
                        assert(!wf_multi(data@, object_hash));
                    }
                    return Err(
                        DecodeError::Corrupt("flagged offset without a large-offset chunk"),
                    );
                }
                let k = (slot - 0x80000000) as usize;
                if 8 * (k as u64) + 8 > loff_len as u64 {
                    proof {
                        assert(!d_slot_ok(data@, e as int));
                        assert(!wf_multi(data@, object_hash));
                    }
                    return Err(DecodeError::Corrupt("large-offset index out of range"));
                }
                read_be64(data, loff_s + 8 * k)
            } else {
                slot as u64
            };
            entries.push(FileEntry { id, pack_index, pack_offset });
            e = e + 1;
        }
        // recompute the trailing checksum over everything before it
        let body = vstd::slice::slice_subrange(data, 0, limit);
        let digest = sha1(body);
        let mut c: usize = 0;
        while c < 20
            invariant
                c <= 20,
                digest@.len() == 20,
                digest@ == sha1_of(data@.subrange(0, limit as int)),
                forall|q: int| 0 <= q < c ==> data@[limit + q] == digest@[q],
            decreases 20 - c,
        {
            if data[limit + c] != digest[c] {
                proof {
                    if checksum_ok(data@) {
                        assert(data@.subrange(data@.len() - 20, data@.len() as int)[c as int]
                            == digest@[c as int]);
                    }
                }
                return Err(DecodeError::Corrupt("checksum mismatch"));
            }
            c = c + 1;
        }
        proof {
            assert(data@.subrange(data@.len() - 20, data@.len() as int) =~= digest@);
            let nc_i = nc as int;
            assert forall|q: int| 0 <= q <= nc_i implies d_toc_end(data@) <= #[trigger] d_toc_off(
                data@,
                q,
            ) <= limit by {
                assert(offs@[q] == d_toc_off(data@, q));
                assert(toc_end <= offs@[q] <= limit);
            }
            assert forall|q1: int, q2: int| 0 <= q1 <= q2 <= nc_i implies #[trigger] d_toc_off(
                data@,
                q1,
            ) <= #[trigger] d_toc_off(data@, q2) by {
                assert(offs@[q1] == d_toc_off(data@, q1));
                assert(offs@[q2] == d_toc_off(data@, q2));
                assert(offs@[q1] <= offs@[q2]);
            }
            assert(offs@[nc_i] == d_toc_off(data@, nc_i));
            assert forall|b1: int, b2: int| 0 <= b1 <= b2 < 256 implies #[trigger] d_fanout(
                data@,
                b1,
            ) <= #[trigger] d_fanout(data@, b2) by {
                assert(fanout@[b1] == d_fanout(data@, b1));
                assert(fanout@[b2] == d_fanout(data@, b2));
                assert(fanout@[b1] <= fanout@[b2]);
            }
            assert(fan_s == d_chunk_start(data@, CHUNK_FANOUT));
            assert(offs@[fan_i + 1] == d_chunk_end(data@, CHUNK_FANOUT));
            assert(oidl_s == d_chunk_start(data@, CHUNK_LOOKUP));
            assert(offs@[oidl_i + 1] == d_chunk_end(data@, CHUNK_LOOKUP));
            assert(ooff_s == d_chunk_start(data@, CHUNK_OFFSETS));
            assert(offs@[ooff_i + 1] == d_chunk_end(data@, CHUNK_OFFSETS));
            assert(d_num_objects(data@) == n);
            assert(wf_multi(data@, object_hash));
        }
        let num_packs = read_be32(data, 8);
        Ok(File { num_packs, fanout, entries })
    }
}

/// The round-trip law: a file that is the exact encoding of merged entries
/// is structurally valid with a matching checksum, so the decoder accepts
/// it, and the tables it then returns are exactly the encoded ones: the
/// fan-out counts, the ids in order, and each entry's pack position and
/// resolved pack offset.
#[verifier::rlimit(100)]
pub proof fn lemma_encoding_decodes(data: Seq<u8>, names: Seq<Seq<u8>>, s: Seq<EntryV>)
    requires
        is_encoding_of(data, names, s),
        entries_wf(s),
        s.len() <= 0x7fffffff,
        spec_body_len(names, s) + 20 <= 0xffffffffffffffff,
    ensures
        wf_multi(data, Kind::Sha1),
        checksum_ok(data),
        d_num_objects(data) == s.len(),
        forall|b: int| 0 <= b < 256 ==> #[trigger] d_fanout(data, b) == fanout_value(s, b) as u32,
        forall|i: int| 0 <= i < s.len() ==> #[trigger] d_id(data, i) == s[i].id,
        forall|i: int| 0 <= i < s.len() ==> #[trigger] d_pack_index(data, i) == s[i].pack_index,
        forall|i: int| 0 <= i < s.len() ==> #[trigger] d_offset(data, i) == s[i].pack_offset,
{
    let nc = spec_num_chunks(s);
    let nl = large_seq(s).len() as int;
    let o_pnam = spec_toc_end(s);
    let o_fan = spec_off_fanout(names, s);
    let o_oidl = spec_off_lookup(names, s);
    let o_ooff = spec_off_offsets(names, s);
    let o_loff = spec_off_large(names, s);
    let body = spec_body_len(names, s);
    let limit = data.len() - 20;
    lemma_large_seq_len(s);
    assert(d_num_chunks(data) == nc);
    assert(limit == body);
    // the chunk table holds exactly the writer's records
    assert(d_toc_id(data, 0) == CHUNK_PACK_NAMES && d_toc_off(data, 0) == o_pnam);
    assert(d_toc_id(data, 1) == CHUNK_FANOUT && d_toc_off(data, 1) == o_fan);
    assert(d_toc_id(data, 2) == CHUNK_LOOKUP && d_toc_off(data, 2) == o_oidl);
    assert(d_toc_id(data, 3) == CHUNK_OFFSETS && d_toc_off(data, 3) == o_ooff);
    if nl > 0 {
        assert(d_toc_id(data, 4) == CHUNK_LARGE_OFFSETS && d_toc_off(data, 4) == o_loff);
        assert(d_toc_id(data, 5) == 0u32 && d_toc_off(data, 5) == body);
    } else {
        assert(d_toc_id(data, 4) == 0u32 && d_toc_off(data, 4) == body);
    }
    // each known tag is first found at its own record
    assert(d_find_upto(data, CHUNK_PACK_NAMES, 0) == -1);
    assert(d_find_upto(data, CHUNK_FANOUT, 0) == -1);
    assert(d_find_upto(data, CHUNK_LOOKUP, 0) == -1);
    assert(d_find_upto(data, CHUNK_OFFSETS, 0) == -1);
    assert(d_find_upto(data, CHUNK_LARGE_OFFSETS, 0) == -1);
    assert(d_find_upto(data, CHUNK_PACK_NAMES, 1) == 0);
    assert(d_find_upto(data, CHUNK_PACK_NAMES, 2) == 0);
    assert(d_find_upto(data, CHUNK_PACK_NAMES, 3) == 0);
    assert(d_find_upto(data, CHUNK_PACK_NAMES, 4) == 0);
    assert(d_find_upto(data, CHUNK_PACK_NAMES, 5) == 0);
    assert(d_find_upto(data, CHUNK_FANOUT, 1) == -1);
    assert(d_find_upto(data, CHUNK_FANOUT, 2) == 1);
    assert(d_find_upto(data, CHUNK_FANOUT, 3) == 1);
    assert(d_find_upto(data, CHUNK_FANOUT, 4) == 1);
    assert(d_find_upto(data, CHUNK_FANOUT, 5) == 1);
    assert(d_find_upto(data, CHUNK_LOOKUP, 1) == -1);
    assert(d_find_upto(data, CHUNK_LOOKUP, 2) == -1);
    assert(d_find_upto(data, CHUNK_LOOKUP, 3) == 2);
    assert(d_find_upto(data, CHUNK_LOOKUP, 4) == 2);
    assert(d_find_upto(data, CHUNK_LOOKUP, 5) == 2);
    assert(d_find_upto(data, CHUNK_OFFSETS, 1) == -1);
    assert(d_find_upto(data, CHUNK_OFFSETS, 2) == -1);
    assert(d_find_upto(data, CHUNK_OFFSETS, 3) == -1);
    assert(d_find_upto(data, CHUNK_OFFSETS, 4) == 3);
    assert(d_find_upto(data, CHUNK_OFFSETS, 5) == 3);
    assert(d_find_upto(data, CHUNK_LARGE_OFFSETS, 1) == -1);
    assert(d_find_upto(data, CHUNK_LARGE_OFFSETS, 2) == -1);
    assert(d_find_upto(data, CHUNK_LARGE_OFFSETS, 3) == -1);
    assert(d_find_upto(data, CHUNK_LARGE_OFFSETS, 4) == -1);
    if nl > 0 {
        assert(d_find_upto(data, CHUNK_LARGE_OFFSETS, 5) == 4);
    }
    assert(d_find(data, CHUNK_PACK_NAMES) == 0);
    assert(d_find(data, CHUNK_FANOUT) == 1);
    assert(d_find(data, CHUNK_LOOKUP) == 2);
    assert(d_find(data, CHUNK_OFFSETS) == 3);
    assert(d_chunk_start(data, CHUNK_FANOUT) == o_fan);
    assert(d_chunk_start(data, CHUNK_LOOKUP) == o_oidl);
    assert(d_chunk_start(data, CHUNK_OFFSETS) == o_ooff);
    // chunk boundaries lie between the table and the trailer, ascending
    assert forall|i: int| 0 <= i <= nc implies d_toc_end(data) <= #[trigger] d_toc_off(data, i)
        <= limit by {}
    assert forall|i: int, j: int| 0 <= i <= j <= nc implies #[trigger] d_toc_off(data, i)
        <= #[trigger] d_toc_off(data, j) by {}
    // fan-out counts are the cumulative counts of the encoded entries
    assert forall|b: int| 0 <= b < 256 implies #[trigger] d_fanout(data, b) == fanout_value(
        s,
        b,
    ) as u32 by {}
    assert forall|b1: int, b2: int| 0 <= b1 <= b2 < 256 implies #[trigger] d_fanout(data, b1)
        <= #[trigger] d_fanout(data, b2) by {
        lemma_fanout_value_monotonic(s, b1, b2);
        lemma_fanout_value_bounds(s, b1);
        lemma_fanout_value_bounds(s, b2);
    }
    lemma_fanout_value_total(s, 255);
    lemma_fanout_value_bounds(s, 255);
    assert(d_num_objects(data) == s.len());
    // every offset slot resolves, and to the entry's own pack offset
    assert forall|i: int| 0 <= i < s.len() implies #[trigger] d_slot_ok(data, i) && d_offset(
        data,
        i,
    ) == s[i].pack_offset by {
        assert(d_slot(data, i) == slot_value(s, i));
        if s[i].pack_offset > 0x7fffffff {
            lemma_large_seq_at(s, i);
            let k = large_seq(s.take(i)).len() as int;
            assert(k < nl);
            assert(slot_value(s, i) == (0x80000000 + k) as u32);
            assert(d_slot(data, i) - 0x80000000 == k);
            assert(d_find(data, CHUNK_LARGE_OFFSETS) == 4);
            assert(d_chunk_start(data, CHUNK_LARGE_OFFSETS) == o_loff);
            assert(d_chunk_end(data, CHUNK_LARGE_OFFSETS) == body);
            assert(be64_at(data, o_loff + 8 * k) == large_seq(s)[k]);
        } else {
            assert(slot_value(s, i) == s[i].pack_offset as u32);
        }
    }
    assert forall|i: int| 0 <= i < s.len() implies #[trigger] d_offset(data, i)
        == s[i].pack_offset by {
        assert(d_slot_ok(data, i));
    }
    assert(wf_multi(data, Kind::Sha1));
    assert(data.subrange(data.len() - 20, data.len() as int) == sha1_of(
        data.subrange(0, data.len() - 20),
    ));
}

} // verus!
