use std::sync::atomic::{AtomicBool, Ordering};
use vstd::prelude::*;

use crate::chunks::{
    append_bytes, entries_wf, fanout_chunk, fanout_value, large_offsets_chunk, large_seq,
    lookup_chunk, names_chunk, names_chunk_bytes, names_view, offsets_chunk, slot_value,
    CHUNK_FANOUT, CHUNK_LARGE_OFFSETS, CHUNK_LOOKUP, CHUNK_OFFSETS, CHUNK_PACK_NAMES,
};
use crate::codec::{
    be32_at, be64_at, be32_bytes, be64_bytes, lemma_be32_at_of_bytes, lemma_be32_at_prefix,
    lemma_be64_at_of_bytes, lemma_be64_at_prefix, push_be32, push_be64,
};
use crate::entries::{
    contains_id, dedup_entries, entries_sorted, entry_ids_unique, entry_le, sort_entries, view_of,
    Entry, EntryV, IndexSource, IndexSourceV,
};
use crate::hashing::{copy_bytes, lex_lt, Kind, ObjectId};
use crate::sha::{sha1, sha1_of};

verus! {

broadcast use vstd::seq_lib::group_to_multiset_ensures;

/// What can go wrong while writing a multi-pack index. `Io` and `OpenIndex`
/// stand for failures of the surrounding input/output layer; the verified
/// writer itself only ever reports `Interrupted`.
#[derive(Debug)]
pub enum Error {
    Io,
    Interrupted,
    OpenIndex,
}

/// Options for writing a multi-pack index.
pub struct Options {
    pub object_hash: Kind,
}

/// The result of a successful write: the encoded file and its trailing
/// checksum.
pub struct Outcome {
    pub multi_index_checksum: ObjectId,
    pub bytes: Vec<u8>,
}

/// A decoded multi-pack index.
pub struct File {
    pub num_packs: u32,
    pub fanout: Vec<u32>,
    pub entries: Vec<FileEntry>,
}

/// One entry of a decoded multi-pack index.
pub struct FileEntry {
    pub id: ObjectId,
    pub pack_index: u32,
    pub pack_offset: u64,
}

pub open spec fn sources_view(ss: Seq<IndexSource>) -> Seq<IndexSourceV> {
    Seq::new(ss.len(), |k: int| ss[k]@)
}

pub open spec fn names_of(ss: Seq<IndexSourceV>) -> Seq<Seq<u8>> {
    Seq::new(ss.len(), |k: int| ss[k].file_name)
}

/// The entries contributed by one source, tagged with its position.
pub open spec fn src_entries(sv: IndexSourceV, k: int) -> Seq<EntryV> {
    Seq::new(
        sv.entries.len(),
        |x: int|
            EntryV {
                id: sv.entries[x].id,
                pack_index: k as u32,
                pack_offset: sv.entries[x].pack_offset,
                mtime: sv.mtime,
            },
    )
}

/// All entries of all sources, concatenated in source order.
pub open spec fn collected(ss: Seq<IndexSourceV>) -> Seq<EntryV>
    decreases ss.len(),
{
    if ss.len() == 0 {
        Seq::empty()
    } else {
        collected(ss.drop_last()) + src_entries(ss.last(), ss.len() - 1)
    }
}

/// `m` is the merged form of the collected entries `all`: sorted by id,
/// one entry per id, and for each id the entry that the merge order ranks
/// first among all its occurrences (latest modification time, then lowest
/// pack position).
pub open spec fn merges(all: Seq<EntryV>, m: Seq<EntryV>) -> bool {
    &&& entries_sorted(m)
    &&& entry_ids_unique(m)
    &&& forall|i: int| 0 <= i < m.len() ==> #[trigger] all.contains(m[i])
    &&& forall|j: int| 0 <= j < all.len() ==> #[trigger] contains_id(m, (#[trigger] all[j]).id)
    &&& forall|i: int, j: int|
        0 <= i < m.len() && 0 <= j < all.len() && (#[trigger] m[i]).id == (#[trigger] all[j]).id
            ==> entry_le(m[i], all[j])
}

/// Source names are strictly ascending (unique and sorted).
pub open spec fn sources_sorted(ss: Seq<IndexSourceV>) -> bool {
    forall|i: int, j: int|
        0 <= i < j < ss.len() ==> lex_lt((#[trigger] ss[i]).file_name, (#[trigger] ss[j]).file_name)
}

/// Every id of every source has the hash width.
pub open spec fn sources_wf(ss: Seq<IndexSourceV>) -> bool {
    forall|k: int, x: int|
        0 <= k < ss.len() && 0 <= x < (#[trigger] ss[k]).entries.len() ==> (#[trigger] ss[k].entries[x]).id.len()
            == 20
}

pub open spec fn spec_num_chunks(s: Seq<EntryV>) -> int {
    if large_seq(s).len() > 0 {
        5
    } else {
        4
    }
}

pub open spec fn spec_toc_end(s: Seq<EntryV>) -> int {
    12 + 12 * (spec_num_chunks(s) + 1)
}

pub open spec fn spec_off_fanout(names: Seq<Seq<u8>>, s: Seq<EntryV>) -> int {
    spec_toc_end(s) + names_chunk_bytes(names).len()
}

pub open spec fn spec_off_lookup(names: Seq<Seq<u8>>, s: Seq<EntryV>) -> int {
    spec_off_fanout(names, s) + 1024
}

pub open spec fn spec_off_offsets(names: Seq<Seq<u8>>, s: Seq<EntryV>) -> int {
    spec_off_lookup(names, s) + 20 * s.len()
}

pub open spec fn spec_off_large(names: Seq<Seq<u8>>, s: Seq<EntryV>) -> int {
    spec_off_offsets(names, s) + 8 * s.len()
}

pub open spec fn spec_body_len(names: Seq<Seq<u8>>, s: Seq<EntryV>) -> int {
    spec_off_large(names, s) + 8 * large_seq(s).len()
}

/// `data` is exactly the encoded multi-pack index for the given sorted pack
/// names and merged entries: header, chunk table, chunk bodies in fixed
/// order, and the trailing checksum of everything before it.
pub open spec fn is_encoding_of(data: Seq<u8>, names: Seq<Seq<u8>>, s: Seq<EntryV>) -> bool {
    let nc = spec_num_chunks(s);
    let nl = large_seq(s).len() as int;
    let o_pnam = spec_toc_end(s);
    let o_fan = spec_off_fanout(names, s);
    let o_oidl = spec_off_lookup(names, s);
    let o_ooff = spec_off_offsets(names, s);
    let o_loff = spec_off_large(names, s);
    let body = spec_body_len(names, s);
    &&& data.len() == body + 20
    &&& data[0] == 0x4du8 && data[1] == 0x49u8 && data[2] == 0x44u8 && data[3] == 0x58u8
    &&& data[4] == 1u8 && data[5] == 1u8 && data[6] == nc as u8 && data[7] == 0u8
    &&& be32_at(data, 8) == names.len() as u32
    &&& be32_at(data, 12) == CHUNK_PACK_NAMES && be64_at(data, 16) == o_pnam as u64
    &&& be32_at(data, 24) == CHUNK_FANOUT && be64_at(data, 28) == o_fan as u64
    &&& be32_at(data, 36) == CHUNK_LOOKUP && be64_at(data, 40) == o_oidl as u64
    &&& be32_at(data, 48) == CHUNK_OFFSETS && be64_at(data, 52) == o_ooff as u64
    &&& (nl > 0 ==> be32_at(data, 60) == CHUNK_LARGE_OFFSETS && be64_at(data, 64) == o_loff as u64
        && be32_at(data, 72) == 0u32 && be64_at(data, 76) == body as u64)
    &&& (nl == 0 ==> be32_at(data, 60) == 0u32 && be64_at(data, 64) == body as u64)
    &&& data.subrange(o_pnam, o_fan) == names_chunk_bytes(names)
    &&& forall|b: int| 0 <= b < 256 ==> be32_at(data, o_fan + 4 * b) == fanout_value(s, b) as u32
    &&& forall|i: int|
        0 <= i < s.len() ==> data.subrange(o_oidl + 20 * i, o_oidl + 20 * i + 20) == (
        #[trigger] s[i]).id
    &&& forall|i: int|
        0 <= i < s.len() ==> be32_at(data, o_ooff + 8 * i) == (#[trigger] s[i]).pack_index
            && be32_at(data, o_ooff + 8 * i + 4) == slot_value(s, i)
    &&& forall|k: int|
        0 <= k < nl ==> be64_at(data, o_loff + 8 * k) == #[trigger] large_seq(s)[k]
    &&& data.subrange(body, body + 20) == sha1_of(data.subrange(0, body))
}

impl File {
    /// Append the fixed twelve-byte header: signature, version, hash kind,
    /// chunk count, reserved base-file count, and the number of packs.
    pub fn write_header(out: &mut Vec<u8>, num_chunks: u8, num_indices: u32, object_hash: Kind)
        ensures
            final(out)@ == old(out)@ + seq![
                0x4du8,
                0x49u8,
                0x44u8,
                0x58u8,
                1u8,
                object_hash.spec_header_byte(),
                num_chunks,
                0u8,
            ] + be32_bytes(num_indices),
    {
        out.push(0x4d);
        out.push(0x49);
        out.push(0x44);
        out.push(0x58);
        out.push(1);
        out.push(object_hash.header_byte());
        out.push(num_chunks);
        out.push(0);
        let ghost mid = out@;
        push_be32(out, num_indices);
        proof {
            assert(out@ =~= old(out)@ + seq![
                0x4du8,
                0x49u8,
                0x44u8,
                0x58u8,
                1u8,
                object_hash.spec_header_byte(),
                num_chunks,
                0u8,
            ] + be32_bytes(num_indices));
        }
    }
}

/// Build the header and chunk table: twelve header bytes, one record per
/// chunk (tag and starting offset) and a terminating record that holds the
/// end of the last chunk.
fn build_header_and_toc(
    num_packs: u32,
    nc: u8,
    base: usize,
    o_fan: usize,
    o_oidl: usize,
    o_ooff: usize,
    o_loff: usize,
    end: usize,
    has_large: bool,
) -> (r: Vec<u8>)
    requires
        base == 12 + 12 * (nc as int + 1),
        nc == if has_large { 5int } else { 4int },
    ensures
        r@.len() == base,
        r@[0] == 0x4du8 && r@[1] == 0x49u8 && r@[2] == 0x44u8 && r@[3] == 0x58u8,
        r@[4] == 1u8 && r@[5] == 1u8 && r@[6] == nc && r@[7] == 0u8,
        be32_at(r@, 8) == num_packs,
        be32_at(r@, 12) == CHUNK_PACK_NAMES && be64_at(r@, 16) == base as u64,
        be32_at(r@, 24) == CHUNK_FANOUT && be64_at(r@, 28) == o_fan as u64,
        be32_at(r@, 36) == CHUNK_LOOKUP && be64_at(r@, 40) == o_oidl as u64,
        be32_at(r@, 48) == CHUNK_OFFSETS && be64_at(r@, 52) == o_ooff as u64,
        has_large ==> be32_at(r@, 60) == CHUNK_LARGE_OFFSETS && be64_at(r@, 64) == o_loff as u64
            && be32_at(r@, 72) == 0u32 && be64_at(r@, 76) == end as u64,
        !has_large ==> be32_at(r@, 60) == 0u32 && be64_at(r@, 64) == end as u64,
{
    let mut out: Vec<u8> = Vec::new();
    File::write_header(&mut out, nc, num_packs, Kind::Sha1);
    push_be32(&mut out, CHUNK_PACK_NAMES);
    push_be64(&mut out, base as u64);
    push_be32(&mut out, CHUNK_FANOUT);
    push_be64(&mut out, o_fan as u64);
    push_be32(&mut out, CHUNK_LOOKUP);
    push_be64(&mut out, o_oidl as u64);
    push_be32(&mut out, CHUNK_OFFSETS);
    push_be64(&mut out, o_ooff as u64);
    if has_large {
        push_be32(&mut out, CHUNK_LARGE_OFFSETS);
        push_be64(&mut out, o_loff as u64);
    }
    push_be32(&mut out, 0);
    push_be64(&mut out, end as u64);
    proof {
        let data = out@;
        assert(data.subrange(8, 12) =~= be32_bytes(num_packs));
        lemma_be32_at_of_bytes(num_packs, data, 8);
        assert(data.subrange(12, 16) =~= be32_bytes(CHUNK_PACK_NAMES));
        lemma_be32_at_of_bytes(CHUNK_PACK_NAMES, data, 12);
        assert(data.subrange(16, 24) =~= be64_bytes(base as u64));
        lemma_be64_at_of_bytes(base as u64, data, 16);
        assert(data.subrange(24, 28) =~= be32_bytes(CHUNK_FANOUT));
        lemma_be32_at_of_bytes(CHUNK_FANOUT, data, 24);
        assert(data.subrange(28, 36) =~= be64_bytes(o_fan as u64));
        lemma_be64_at_of_bytes(o_fan as u64, data, 28);
        assert(data.subrange(36, 40) =~= be32_bytes(CHUNK_LOOKUP));
        lemma_be32_at_of_bytes(CHUNK_LOOKUP, data, 36);
        assert(data.subrange(40, 48) =~= be64_bytes(o_oidl as u64));
        lemma_be64_at_of_bytes(o_oidl as u64, data, 40);
        assert(data.subrange(48, 52) =~= be32_bytes(CHUNK_OFFSETS));
        lemma_be32_at_of_bytes(CHUNK_OFFSETS, data, 48);
        assert(data.subrange(52, 60) =~= be64_bytes(o_ooff as u64));
        lemma_be64_at_of_bytes(o_ooff as u64, data, 52);
        if has_large {
            assert(data.subrange(60, 64) =~= be32_bytes(CHUNK_LARGE_OFFSETS));
            lemma_be32_at_of_bytes(CHUNK_LARGE_OFFSETS, data, 60);
            assert(data.subrange(64, 72) =~= be64_bytes(o_loff as u64));
            lemma_be64_at_of_bytes(o_loff as u64, data, 64);
            assert(data.subrange(72, 76) =~= be32_bytes(0u32));
            lemma_be32_at_of_bytes(0u32, data, 72);
            assert(data.subrange(76, 84) =~= be64_bytes(end as u64));
            lemma_be64_at_of_bytes(end as u64, data, 76);
        } else {
            assert(data.subrange(60, 64) =~= be32_bytes(0u32));
            lemma_be32_at_of_bytes(0u32, data, 60);
            assert(data.subrange(64, 72) =~= be64_bytes(end as u64));
            lemma_be64_at_of_bytes(end as u64, data, 64);
        }
    }
    out
}

/// Encode the whole multi-pack index file for already-merged entries and
/// already-sorted pack names, including the trailing checksum. The
/// cancellation flag is polled between chunk encodings; when it is
/// observed, no bytes are produced.
#[verifier::rlimit(100)]
pub fn encode_multi_index(
    names: &Vec<Vec<u8>>,
    entries: &Vec<Entry>,
    should_interrupt: &AtomicBool,
) -> (r: Result<Vec<u8>, Error>)
    requires
        names@.len() <= 0xffffffff,
        entries@.len() <= 0x7fffffff,
        entries_wf(view_of(entries@)),
        spec_body_len(names_view(names@), view_of(entries@)) + 20 <= usize::MAX,
    ensures
        r matches Ok(v) ==> is_encoding_of(v@, names_view(names@), view_of(entries@)),
        r is Err ==> r == Err::<Vec<u8>, Error>(Error::Interrupted),
{
    let ghost nv = names_view(names@);
    let ghost ev = view_of(entries@);
    let pnam = names_chunk(names);
    if should_interrupt.load(Ordering::Relaxed) {
        return Err(Error::Interrupted);
    }
    let fan = fanout_chunk(entries);
    if should_interrupt.load(Ordering::Relaxed) {
        return Err(Error::Interrupted);
    }
    let oidl = lookup_chunk(entries);
    if should_interrupt.load(Ordering::Relaxed) {
        return Err(Error::Interrupted);
    }
    let ooff = offsets_chunk(entries);
    if should_interrupt.load(Ordering::Relaxed) {
        return Err(Error::Interrupted);
    }
    let loff = large_offsets_chunk(entries);
    if should_interrupt.load(Ordering::Relaxed) {
        return Err(Error::Interrupted);
    }
    let has_large = loff.len() > 0;
    let nc: u8 = if has_large {
        5
    } else {
        4
    };
    proof {
        assert(spec_num_chunks(ev) == nc as int);
        assert(spec_body_len(nv, ev) == 12 + 12 * (nc as int + 1) + pnam@.len() + 1024
            + oidl@.len() + ooff@.len() + loff@.len());
    }
    let base: usize = 12 + 12 * ((nc as usize) + 1);
    let o_fan: usize = base + pnam.len();
    let o_oidl: usize = o_fan + 1024;
    let o_ooff: usize = o_oidl + oidl.len();
    let o_loff: usize = o_ooff + ooff.len();
    let end: usize = o_loff + loff.len();
    proof {
        assert(base == spec_toc_end(ev));
        assert(o_fan == spec_off_fanout(nv, ev));
        assert(o_oidl == spec_off_lookup(nv, ev));
        assert(o_ooff == spec_off_offsets(nv, ev));
        assert(o_loff == spec_off_large(nv, ev));
        assert(end == spec_body_len(nv, ev));
    }
    let mut out = build_header_and_toc(
        names.len() as u32,
        nc,
        base,
        o_fan,
        o_oidl,
        o_ooff,
        o_loff,
        end,
        has_large,
    );
    let ghost toc = out@;
    append_bytes(&mut out, pnam.as_slice());
    append_bytes(&mut out, fan.as_slice());
    append_bytes(&mut out, oidl.as_slice());
    append_bytes(&mut out, ooff.as_slice());
    append_bytes(&mut out, loff.as_slice());
    proof {
        assert(out@.len() == end as int);
        assert(out@ == toc + pnam@ + fan@ + oidl@ + ooff@ + loff@);
    }
    let ghost body = out@;
    let digest = sha1(out.as_slice());
    append_bytes(&mut out, digest.as_slice());
    proof {
        let data = out@;
        assert(data.len() == end + 20);
        assert(data.subrange(0, end as int) =~= body);
        assert(data.subrange(0, base as int) =~= toc);
        assert(data.subrange(end as int, end + 20) =~= digest@);
        lemma_encoding_header(data, toc, nv, ev, base as int, o_fan as int, o_oidl as int,
            o_ooff as int, o_loff as int, end as int, has_large, names@.len() as u32);
        lemma_encoding_bodies(data, toc, pnam@, fan@, oidl@, ooff@, loff@, digest@, nv, ev,
            base as int, o_fan as int, o_oidl as int, o_ooff as int, o_loff as int, end as int);
        assert(data.subrange(end as int, end + 20) == sha1_of(data.subrange(0, end as int)));
    }
    Ok(out)
}

/// Lift the header and chunk-table facts from the assembled prefix to the
/// whole file.
#[verifier::rlimit(100)]
proof fn lemma_encoding_header(
    data: Seq<u8>,
    toc: Seq<u8>,
    nv: Seq<Seq<u8>>,
    ev: Seq<EntryV>,
    base: int,
    o_fan: int,
    o_oidl: int,
    o_ooff: int,
    o_loff: int,
    end: int,
    has_large: bool,
    num_packs: u32,
)
    requires
        toc.len() == base,
        base <= data.len(),
        data.subrange(0, base) == toc,
        has_large == (large_seq(ev).len() > 0),
        base == spec_toc_end(ev),
        o_fan == spec_off_fanout(nv, ev),
        o_oidl == spec_off_lookup(nv, ev),
        o_ooff == spec_off_offsets(nv, ev),
        o_loff == spec_off_large(nv, ev),
        end == spec_body_len(nv, ev),
        toc[0] == 0x4du8 && toc[1] == 0x49u8 && toc[2] == 0x44u8 && toc[3] == 0x58u8,
        toc[4] == 1u8 && toc[5] == 1u8 && toc[6] == spec_num_chunks(ev) as u8 && toc[7] == 0u8,
        be32_at(toc, 8) == num_packs,
        num_packs == nv.len() as u32,
        be32_at(toc, 12) == CHUNK_PACK_NAMES && be64_at(toc, 16) == base as u64,
        be32_at(toc, 24) == CHUNK_FANOUT && be64_at(toc, 28) == o_fan as u64,
        be32_at(toc, 36) == CHUNK_LOOKUP && be64_at(toc, 40) == o_oidl as u64,
        be32_at(toc, 48) == CHUNK_OFFSETS && be64_at(toc, 52) == o_ooff as u64,
        has_large ==> be32_at(toc, 60) == CHUNK_LARGE_OFFSETS && be64_at(toc, 64) == o_loff as u64
            && be32_at(toc, 72) == 0u32 && be64_at(toc, 76) == end as u64,
        !has_large ==> be32_at(toc, 60) == 0u32 && be64_at(toc, 64) == end as u64,
    ensures
        data[0] == 0x4du8 && data[1] == 0x49u8 && data[2] == 0x44u8 && data[3] == 0x58u8,
        data[4] == 1u8 && data[5] == 1u8 && data[6] == spec_num_chunks(ev) as u8 && data[7]
            == 0u8,
        be32_at(data, 8) == nv.len() as u32,
        be32_at(data, 12) == CHUNK_PACK_NAMES && be64_at(data, 16) == spec_toc_end(ev) as u64,
        be32_at(data, 24) == CHUNK_FANOUT && be64_at(data, 28) == spec_off_fanout(nv, ev) as u64,
        be32_at(data, 36) == CHUNK_LOOKUP && be64_at(data, 40) == spec_off_lookup(nv, ev) as u64,
        be32_at(data, 48) == CHUNK_OFFSETS && be64_at(data, 52) == spec_off_offsets(nv, ev) as u64,
        large_seq(ev).len() > 0 ==> be32_at(data, 60) == CHUNK_LARGE_OFFSETS && be64_at(data, 64)
            == spec_off_large(nv, ev) as u64 && be32_at(data, 72) == 0u32 && be64_at(data, 76)
            == spec_body_len(nv, ev) as u64,
        large_seq(ev).len() == 0 ==> be32_at(data, 60) == 0u32 && be64_at(data, 64) == spec_body_len(
            nv,
            ev,
        ) as u64,
{
    let sub = data.subrange(0, base);
    assert(data[0] == sub[0]);
    assert(data[1] == sub[1]);
    assert(data[2] == sub[2]);
    assert(data[3] == sub[3]);
    assert(data[4] == sub[4]);
    assert(data[5] == sub[5]);
    assert(data[6] == sub[6]);
    assert(data[7] == sub[7]);
    lemma_be32_at_prefix(toc, data, 8);
    lemma_be32_at_prefix(toc, data, 12);
    lemma_be64_at_prefix(toc, data, 16);
    lemma_be32_at_prefix(toc, data, 24);
    lemma_be64_at_prefix(toc, data, 28);
    lemma_be32_at_prefix(toc, data, 36);
    lemma_be64_at_prefix(toc, data, 40);
    lemma_be32_at_prefix(toc, data, 48);
    lemma_be64_at_prefix(toc, data, 52);
    if has_large {
        lemma_be32_at_prefix(toc, data, 60);
        lemma_be64_at_prefix(toc, data, 64);
        lemma_be32_at_prefix(toc, data, 72);
        lemma_be64_at_prefix(toc, data, 76);
    } else {
        lemma_be32_at_prefix(toc, data, 60);
        lemma_be64_at_prefix(toc, data, 64);
    }
}

/// Lift the per-chunk body facts from the individually encoded chunks to
/// their regions of the whole file.
#[verifier::rlimit(100)]
proof fn lemma_encoding_bodies(
    data: Seq<u8>,
    toc: Seq<u8>,
    pnam: Seq<u8>,
    fan: Seq<u8>,
    oidl: Seq<u8>,
    ooff: Seq<u8>,
    loff: Seq<u8>,
    digest: Seq<u8>,
    nv: Seq<Seq<u8>>,
    ev: Seq<EntryV>,
    base: int,
    o_fan: int,
    o_oidl: int,
    o_ooff: int,
    o_loff: int,
    end: int,
)
    requires
        data == toc + pnam + fan + oidl + ooff + loff + digest,
        toc.len() == base,
        pnam.len() == o_fan - base,
        fan.len() == 1024,
        o_oidl == o_fan + 1024,
        oidl.len() == o_ooff - o_oidl,
        ooff.len() == o_loff - o_ooff,
        loff.len() == end - o_loff,
        oidl.len() == 20 * ev.len(),
        ooff.len() == 8 * ev.len(),
        loff.len() == 8 * large_seq(ev).len(),
        pnam == names_chunk_bytes(nv),
        forall|b: int|
            0 <= b < 256 ==> #[trigger] fan.subrange(4 * b, 4 * b + 4) == be32_bytes(
                fanout_value(ev, b) as u32,
            ),
        forall|i: int|
            0 <= i < ev.len() ==> #[trigger] oidl.subrange(20 * i, 20 * i + 20) == ev[i].id,
        forall|i: int|
            0 <= i < ev.len() ==> #[trigger] ooff.subrange(8 * i, 8 * i + 4) == be32_bytes(
                ev[i].pack_index,
            ),
        forall|i: int|
            0 <= i < ev.len() ==> #[trigger] ooff.subrange(8 * i + 4, 8 * i + 8) == be32_bytes(
                slot_value(ev, i),
            ),
        forall|k: int|
            0 <= k < large_seq(ev).len() ==> #[trigger] loff.subrange(8 * k, 8 * k + 8)
                == be64_bytes(large_seq(ev)[k]),
    ensures
        data.subrange(base, o_fan) == names_chunk_bytes(nv),
        forall|b: int| 0 <= b < 256 ==> be32_at(data, o_fan + 4 * b) == fanout_value(ev, b) as u32,
        forall|i: int|
            0 <= i < ev.len() ==> data.subrange(o_oidl + 20 * i, o_oidl + 20 * i + 20) == (
            #[trigger] ev[i]).id,
        forall|i: int|
            0 <= i < ev.len() ==> be32_at(data, o_ooff + 8 * i) == (#[trigger] ev[i]).pack_index
                && be32_at(data, o_ooff + 8 * i + 4) == slot_value(ev, i),
        forall|k: int|
            0 <= k < large_seq(ev).len() ==> be64_at(data, o_loff + 8 * k) == #[trigger] large_seq(
                ev,
            )[k],
{
    assert(data.subrange(base, o_fan) =~= pnam);
    assert forall|b: int| 0 <= b < 256 implies be32_at(data, o_fan + 4 * b) == fanout_value(
        ev,
        b,
    ) as u32 by {
        assert(data.subrange(o_fan + 4 * b, o_fan + 4 * b + 4) =~= fan.subrange(4 * b, 4 * b + 4));
        lemma_be32_at_of_bytes(fanout_value(ev, b) as u32, data, o_fan + 4 * b);
    }
    assert forall|i: int| 0 <= i < ev.len() implies data.subrange(
        o_oidl + 20 * i,
        o_oidl + 20 * i + 20,
    ) == (#[trigger] ev[i]).id by {
        assert(data.subrange(o_oidl + 20 * i, o_oidl + 20 * i + 20) =~= oidl.subrange(
            20 * i,
            20 * i + 20,
        ));
    }
    assert forall|i: int| 0 <= i < ev.len() implies be32_at(data, o_ooff + 8 * i) == (
    #[trigger] ev[i]).pack_index && be32_at(data, o_ooff + 8 * i + 4) == slot_value(ev, i) by {
        assert(data.subrange(o_ooff + 8 * i, o_ooff + 8 * i + 4) =~= ooff.subrange(
            8 * i,
            8 * i + 4,
        ));
        lemma_be32_at_of_bytes(ev[i].pack_index, data, o_ooff + 8 * i);
        assert(data.subrange(o_ooff + 8 * i + 4, o_ooff + 8 * i + 8) =~= ooff.subrange(
            8 * i + 4,
            8 * i + 8,
        ));
        lemma_be32_at_of_bytes(slot_value(ev, i), data, o_ooff + 8 * i + 4);
    }
    assert forall|k: int| 0 <= k < large_seq(ev).len() implies be64_at(data, o_loff + 8 * k)
        == #[trigger] large_seq(ev)[k] by {
        assert(data.subrange(o_loff + 8 * k, o_loff + 8 * k + 8) =~= loff.subrange(
            8 * k,
            8 * k + 8,
        ));
        lemma_be64_at_of_bytes(large_seq(ev)[k], data, o_loff + 8 * k);
    }
}

/// Errors of the multi-pack index decoder: structural corruption with a
/// static reason, or a recognized file of an unimplemented version.
#[derive(Debug)]
pub enum DecodeError {
    Corrupt(&'static str),
    UnsupportedVersion(u8),
}

proof fn lemma_collected_take_unfold(ss: Seq<IndexSourceV>, k: int)
    requires
        0 <= k < ss.len(),
    ensures
        collected(ss.take(k + 1)) == collected(ss.take(k)) + src_entries(ss[k], k),
{
    assert(ss.take(k + 1).drop_last() =~= ss.take(k));
    assert(ss.take(k + 1).last() == ss[k]);
}

/// Load every entry of every source, tagging each with the position of its
/// source, and poll the cancellation flag once per source.
fn collect_entries(indices: &Vec<IndexSource>, should_interrupt: &AtomicBool) -> (r: Result<
    Vec<Entry>,
    Error,
>)
    requires
        indices@.len() <= 0xffffffff,
    ensures
        r matches Ok(v) ==> view_of(v@) == collected(sources_view(indices@)),
        r is Err ==> r == Err::<Vec<Entry>, Error>(Error::Interrupted),
{
    let ghost sv = sources_view(indices@);
    let mut out: Vec<Entry> = Vec::new();
    let mut k: usize = 0;
    while k < indices.len()
        invariant
            k <= indices@.len(),
            indices@.len() <= 0xffffffff,
            sv == sources_view(indices@),
            view_of(out@) == collected(sv.take(k as int)),
        decreases indices@.len() - k,
    {
        proof {
            assert(sv[k as int] == indices@[k as int]@);
        }
        let src = &indices[k];
        let mut x: usize = 0;
        while x < src.entries.len()
            invariant
                x <= src.entries@.len(),
                k < indices@.len(),
                indices@.len() <= 0xffffffff,
                sv == sources_view(indices@),
                src == &indices@[k as int],
                view_of(out@) == collected(sv.take(k as int)) + src_entries(sv[k as int], k as int).take(x as int),
            decreases src.entries@.len() - x,
        {
            let ghost old_out = out@;
            let e = Entry {
                id: src.entries[x].id.duplicate(),
                pack_index: k as u32,
                pack_offset: src.entries[x].pack_offset,
                mtime: src.mtime,
            };
            proof {
                assert(sv[k as int].entries[x as int] == src.entries@[x as int]@);
                assert(e@ == src_entries(sv[k as int], k as int)[x as int]);
            }
            out.push(e);
            proof {
                assert(view_of(out@) =~= view_of(old_out).push(e@));
                assert(view_of(out@) =~= collected(sv.take(k as int)) + src_entries(
                    sv[k as int],
                    k as int,
                ).take(x + 1));
            }
            x = x + 1;
        }
        proof {
            assert(src_entries(sv[k as int], k as int).take(src.entries@.len() as int)
                =~= src_entries(sv[k as int], k as int));
            lemma_collected_take_unfold(sv, k as int);
        }
        k = k + 1;
        if should_interrupt.load(Ordering::Relaxed) {
            return Err(Error::Interrupted);
        }
    }
    proof {
        assert(sv.take(indices@.len() as int) =~= sv);
    }
    Ok(out)
}

/// An element of a sequence is in any sequence with the same multiset.
proof fn lemma_multiset_transfer(a: Seq<EntryV>, b: Seq<EntryV>, x: EntryV)
    requires
        a.to_multiset() == b.to_multiset(),
        a.contains(x),
    ensures
        b.contains(x),
{
    broadcast use vstd::seq_lib::group_to_multiset_ensures;

    assert(a.to_multiset().count(x) > 0);
}

impl File {
    /// Build a multi-pack index from the contents of the given per-pack
    /// indices, which arrive in strictly ascending name order. Entries are
    /// merged over all sources, sorted by object id, and deduplicated by
    /// the rule that a later source modification time wins, then a lower
    /// pack position. The cancellation flag is polled once per source,
    /// once after the merge, and between chunk encodings; when it is
    /// observed the operation reports `Interrupted` and produces no bytes.
    #[verifier::rlimit(100)]
    pub fn write_from_index_paths(
        indices: &Vec<IndexSource>,
        should_interrupt: &AtomicBool,
        options: Options,
    ) -> (r: Result<Outcome, Error>)
        requires
            indices@.len() <= 0xffffffff,
            sources_sorted(sources_view(indices@)),
            sources_wf(sources_view(indices@)),
            collected(sources_view(indices@)).len() <= 0x7fffffff,
            96 + names_chunk_bytes(names_of(sources_view(indices@))).len() + 1024 + 36 * collected(
                sources_view(indices@),
            ).len() + 20 <= usize::MAX,
        ensures
            r is Err ==> r == Err::<Outcome, Error>(Error::Interrupted),
            r matches Ok(o) ==> exists|m: Seq<EntryV>|
                {
                    &&& #[trigger] merges(collected(sources_view(indices@)), m)
                    &&& entries_wf(m)
                    &&& is_encoding_of(o.bytes@, names_of(sources_view(indices@)), m)
                    &&& o.bytes@.len() >= 20
                    &&& o.multi_index_checksum@ == o.bytes@.subrange(
                        o.bytes@.len() - 20,
                        o.bytes@.len() as int,
                    )
                },
    {
        let ghost sv = sources_view(indices@);
        let ghost all = collected(sv);
        let collected_entries = match collect_entries(indices, should_interrupt) {
            Ok(v) => v,
            Err(e) => {
                return Err(Error::Interrupted);
            },
        };
        let sorted = sort_entries(collected_entries);
        let ghost sortedv = view_of(sorted@);
        let deduped = dedup_entries(sorted);
        if should_interrupt.load(std::sync::atomic::Ordering::Relaxed) {
            return Err(Error::Interrupted);
        }
        let ghost m = view_of(deduped@);
        proof {
            lemma_collected_wf(sv);
            assert forall|j: int| 0 <= j < sortedv.len() implies #[trigger] contains_id(
                m,
                sortedv[j].id,
            ) by {
                assert(view_of(sorted@)[j] == sortedv[j]);
            }
            lemma_merges_from_sort_dedup(all, sortedv, m);
            crate::chunks::lemma_large_seq_len(m);
        }
        let mut names: Vec<Vec<u8>> = Vec::new();
        let mut k: usize = 0;
        while k < indices.len()
            invariant
                k <= indices@.len(),
                sv == sources_view(indices@),
                names@.len() == k,
                forall|q: int| 0 <= q < k ==> (#[trigger] names@[q])@ == sv[q].file_name,
            decreases indices@.len() - k,
        {
            proof {
                assert(sv[k as int] == indices@[k as int]@);
            }
            names.push(copy_bytes(indices[k].file_name.as_slice()));
            k = k + 1;
        }
        proof {
            assert(names_view(names@) =~= names_of(sv));
        }
        let bytes = match encode_multi_index(&names, &deduped, should_interrupt) {
            Ok(b) => b,
            Err(e) => {
                return Err(Error::Interrupted);
            },
        };
        proof {
            assert(is_encoding_of(bytes@, names_of(sv), m));
        }
        let n = bytes.len();
        let trailer = crate::hashing::copy_range(bytes.as_slice(), n - 20, n);
        let checksum = match ObjectId::from_bytes(trailer, options.object_hash) {
            Some(c) => c,
            None => {
                proof {
                    assert(false);
                }
                return Err(Error::Interrupted);
            },
        };
        Ok(Outcome { multi_index_checksum: checksum, bytes })
    }
}

/// Sorting and then deduplicating the collected entries yields a merged
/// list in the sense of `merges`, and keeps ids well formed.
#[verifier::rlimit(100)]
proof fn lemma_merges_from_sort_dedup(all: Seq<EntryV>, sortedv: Seq<EntryV>, m: Seq<EntryV>)
    requires
        entries_wf(all),
        sortedv.to_multiset() == all.to_multiset(),
        entries_sorted(sortedv),
        entries_sorted(m),
        entry_ids_unique(m),
        m.len() <= sortedv.len(),
        forall|i: int| 0 <= i < m.len() ==> #[trigger] sortedv.contains(m[i]),
        forall|j: int|
            0 <= j < sortedv.len() ==> #[trigger] contains_id(m, sortedv[j].id),
        forall|i: int, j: int|
            0 <= i < m.len() && 0 <= j < sortedv.len() && (#[trigger] m[i]).id == (
            #[trigger] sortedv[j]).id ==> entry_le(m[i], sortedv[j]),
    ensures
        merges(all, m),
        entries_wf(m),
        m.len() <= all.len(),
{
    broadcast use vstd::seq_lib::group_to_multiset_ensures;

    sortedv.to_multiset_ensures();
    all.to_multiset_ensures();
    assert(sortedv.to_multiset().len() == all.to_multiset().len());
    assert(sortedv.len() == all.len());
    assert forall|i: int| 0 <= i < m.len() implies #[trigger] all.contains(m[i]) by {
        lemma_multiset_transfer(sortedv, all, m[i]);
    }
    assert forall|i: int| 0 <= i < m.len() implies (#[trigger] m[i]).id.len() == 20 by {
        assert(all.contains(m[i]));
        let q = choose|q: int| 0 <= q < all.len() && all[q] == m[i];
        assert(all[q].id.len() == 20);
    }
    assert forall|j: int| 0 <= j < all.len() implies #[trigger] contains_id(
        m,
        (#[trigger] all[j]).id,
    ) by {
        assert(all.contains(all[j]));
        lemma_multiset_transfer(all, sortedv, all[j]);
        let jj = choose|jj: int| 0 <= jj < sortedv.len() && sortedv[jj] == all[j];
        assert(contains_id(m, sortedv[jj].id));
        assert(sortedv[jj].id == all[j].id);
    }
    assert forall|i: int, j: int|
        0 <= i < m.len() && 0 <= j < all.len() && (#[trigger] m[i]).id == (#[trigger] all[j]).id
        implies entry_le(m[i], all[j]) by {
        assert(all.contains(all[j]));
        lemma_multiset_transfer(all, sortedv, all[j]);
        let jj = choose|jj: int| 0 <= jj < sortedv.len() && sortedv[jj] == all[j];
        assert(entry_le(m[i], sortedv[jj]));
    }
}

/// Ids collected from well-formed sources keep the hash width.
proof fn lemma_collected_wf(ss: Seq<IndexSourceV>)
    requires
        sources_wf(ss),
    ensures
        entries_wf(collected(ss)),
    decreases ss.len(),
{
    if ss.len() > 0 {
        assert(sources_wf(ss.drop_last()));
        lemma_collected_wf(ss.drop_last());
        assert forall|i: int| 0 <= i < collected(ss).len() implies (#[trigger] collected(
            ss,
        )[i]).id.len() == 20 by {
            let pre = collected(ss.drop_last());
            if i < pre.len() {
                assert(collected(ss)[i] == pre[i]);
            } else {
                let x = i - pre.len();
                assert(collected(ss)[i] == src_entries(ss.last(), ss.len() - 1)[x]);
                assert(ss[ss.len() - 1].entries[x].id.len() == 20);
            }
        }
    }
}

/// The deduplication tie-break: when an object id occurs in exactly two of
/// the collected entries, the merged index keeps the one from the source
/// with the later modification time, and with equal modification times the
/// one from the earlier (lower-positioned) pack name.
pub proof fn lemma_dedup_tie_break(all: Seq<EntryV>, m: Seq<EntryV>, i1: int, i2: int)
    requires
        merges(all, m),
        0 <= i1 < all.len(),
        0 <= i2 < all.len(),
        i1 != i2,
        all[i1].id == all[i2].id,
        forall|j: int|
            0 <= j < all.len() && (#[trigger] all[j]).id == all[i1].id ==> j == i1 || j == i2,
        all[i1].mtime > all[i2].mtime || (all[i1].mtime == all[i2].mtime && all[i1].pack_index
            < all[i2].pack_index),
    ensures
        exists|k: int| 0 <= k < m.len() && #[trigger] m[k] == all[i1],
{
    assert(contains_id(m, all[i1].id));
    let k = choose|k: int| 0 <= k < m.len() && (#[trigger] m[k]).id == all[i1].id;
    assert(all.contains(m[k]));
    let j = choose|j: int| 0 <= j < all.len() && all[j] == m[k];
    assert(j == i1 || j == i2);
    assert(entry_le(m[k], all[i1]));
    if j == i2 {
        assert(entry_le(all[i2], all[i1]));
        assert(false);
    }
    assert(m[k] == all[i1]);
}

} // verus!
