use vstd::prelude::*;

use crate::codec::{be32_bytes, be64_bytes, push_be32, push_be64};
use crate::entries::{Entry, EntryV, view_of};

verus! {

/// Chunk identifiers of the multi-pack index, as big-endian 32-bit tags.
pub const CHUNK_PACK_NAMES: u32 = 0x504e414d;

pub const CHUNK_FANOUT: u32 = 0x4f494446;

pub const CHUNK_LOOKUP: u32 = 0x4f49444c;

pub const CHUNK_OFFSETS: u32 = 0x4f4f4646;

pub const CHUNK_LARGE_OFFSETS: u32 = 0x4c4f4646;

/// An offset is "large" when it exceeds the 31 bits an offset-table slot
/// can hold inline.
pub open spec fn entry_large(e: EntryV) -> bool {
    e.pack_offset > 0x7fffffff
}

/// Every id has the width of the hash kind in use.
pub open spec fn entries_wf(s: Seq<EntryV>) -> bool {
    forall|i: int| 0 <= i < s.len() ==> (#[trigger] s[i]).id.len() == 20
}

/// How many entries have an id whose first byte is at most `b`.
pub open spec fn fanout_value(s: Seq<EntryV>, b: int) -> int
    decreases s.len(),
{
    if s.len() == 0 {
        0
    } else {
        fanout_value(s.drop_last(), b) + if s.last().id[0] <= b {
            1int
        } else {
            0int
        }
    }
}

pub proof fn lemma_fanout_value_bounds(s: Seq<EntryV>, b: int)
    ensures
        0 <= fanout_value(s, b) <= s.len(),
    decreases s.len(),
{
    if s.len() > 0 {
        lemma_fanout_value_bounds(s.drop_last(), b);
    }
}

/// Buckets accumulate: a larger first byte covers at least as many entries.
pub proof fn lemma_fanout_value_monotonic(s: Seq<EntryV>, b1: int, b2: int)
    requires
        b1 <= b2,
    ensures
        fanout_value(s, b1) <= fanout_value(s, b2),
    decreases s.len(),
{
    if s.len() > 0 {
        lemma_fanout_value_monotonic(s.drop_last(), b1, b2);
    }
}

/// The last bucket counts every entry.
pub proof fn lemma_fanout_value_total(s: Seq<EntryV>, b: int)
    requires
        b >= 255,
        entries_wf(s),
    ensures
        fanout_value(s, b) == s.len(),
    decreases s.len(),
{
    if s.len() > 0 {
        assert(entries_wf(s.drop_last()));
        lemma_fanout_value_total(s.drop_last(), b);
    }
}

/// Fan-out consistency: buckets never decrease, the last bucket counts
/// every entry, and no bucket counts more than there are entries.
pub proof fn lemma_fanout_consistency(s: Seq<EntryV>)
    requires
        entries_wf(s),
    ensures
        forall|b1: int, b2: int|
            b1 <= b2 ==> #[trigger] fanout_value(s, b1) <= #[trigger] fanout_value(s, b2),
        fanout_value(s, 255) == s.len(),
        forall|b: int| 0 <= #[trigger] fanout_value(s, b) <= s.len(),
{
    assert forall|b1: int, b2: int| b1 <= b2 implies #[trigger] fanout_value(s, b1)
        <= #[trigger] fanout_value(s, b2) by {
        lemma_fanout_value_monotonic(s, b1, b2);
    }
    lemma_fanout_value_total(s, 255);
    assert forall|b: int| 0 <= #[trigger] fanout_value(s, b) <= s.len() by {
        lemma_fanout_value_bounds(s, b);
    }
}

/// The pack offsets that need the overflow table, in entry order.
pub open spec fn large_seq(s: Seq<EntryV>) -> Seq<u64>
    decreases s.len(),
{
    if s.len() == 0 {
        Seq::empty()
    } else {
        large_seq(s.drop_last()) + if entry_large(s.last()) {
            seq![s.last().pack_offset]
        } else {
            Seq::empty()
        }
    }
}

pub proof fn lemma_large_seq_len(s: Seq<EntryV>)
    ensures
        large_seq(s).len() <= s.len(),
    decreases s.len(),
{
    if s.len() > 0 {
        lemma_large_seq_len(s.drop_last());
    }
}

pub proof fn lemma_large_seq_take_unfold(s: Seq<EntryV>, i: int)
    requires
        0 <= i < s.len(),
    ensures
        large_seq(s.take(i + 1)) == large_seq(s.take(i)) + if entry_large(s[i]) {
            seq![s[i].pack_offset]
        } else {
            Seq::<u64>::empty()
        },
{
    assert(s.take(i + 1).drop_last() =~= s.take(i));
    assert(s.take(i + 1).last() == s[i]);
}

/// The overflow offsets of a prefix are a prefix of the whole table.
pub proof fn lemma_large_seq_prefix(s: Seq<EntryV>, i: int)
    requires
        0 <= i <= s.len(),
    ensures
        large_seq(s.take(i)).len() <= large_seq(s).len(),
        forall|k: int|
            0 <= k < large_seq(s.take(i)).len() ==> #[trigger] large_seq(s.take(i))[k]
                == large_seq(s)[k],
    decreases s.len() - i,
{
    if i == s.len() {
        assert(s.take(i) =~= s);
    } else {
        lemma_large_seq_take_unfold(s, i);
        lemma_large_seq_prefix(s, i + 1);
        assert forall|k: int| 0 <= k < large_seq(s.take(i)).len() implies #[trigger] large_seq(
            s.take(i),
        )[k] == large_seq(s)[k] by {
            assert(large_seq(s.take(i))[k] == large_seq(s.take(i + 1))[k]);
        }
    }
}

/// A large entry's offset stands in the overflow table exactly at the
/// position its flagged slot encodes: the number of large entries before it.
pub proof fn lemma_large_seq_at(s: Seq<EntryV>, i: int)
    requires
        0 <= i < s.len(),
        entry_large(s[i]),
    ensures
        large_seq(s.take(i)).len() < large_seq(s).len(),
        large_seq(s)[large_seq(s.take(i)).len() as int] == s[i].pack_offset,
{
    lemma_large_seq_take_unfold(s, i);
    lemma_large_seq_prefix(s, i + 1);
    let k = large_seq(s.take(i)).len() as int;
    assert(large_seq(s.take(i + 1))[k] == s[i].pack_offset);
}

/// The 32-bit value stored in the offset-table slot of entry `i`: the
/// literal offset when it fits in 31 bits, otherwise the high bit plus the
/// position of the offset in the overflow table.
pub open spec fn slot_value(s: Seq<EntryV>, i: int) -> u32 {
    if entry_large(s[i]) {
        (0x80000000 + large_seq(s.take(i)).len()) as u32
    } else {
        s[i].pack_offset as u32
    }
}

/// The pack-name chunk body before padding: each name, NUL-terminated.
pub open spec fn names_cat(ns: Seq<Seq<u8>>) -> Seq<u8>
    decreases ns.len(),
{
    if ns.len() == 0 {
        Seq::empty()
    } else {
        names_cat(ns.drop_last()) + ns.last() + seq![0u8]
    }
}

/// Padding that rounds a chunk body up to the four-byte alignment rule.
pub open spec fn pad_len(l: int) -> int {
    (4 - l % 4) % 4
}

/// The full pack-name chunk body: concatenated NUL-terminated names plus
/// NUL padding to the alignment boundary.
pub open spec fn names_chunk_bytes(ns: Seq<Seq<u8>>) -> Seq<u8> {
    names_cat(ns) + Seq::new(pad_len(names_cat(ns).len() as int) as nat, |i: int| 0u8)
}

pub open spec fn names_view(ns: Seq<Vec<u8>>) -> Seq<Seq<u8>> {
    Seq::new(ns.len(), |i: int| ns[i]@)
}

/// Append a byte slice to a buffer.
pub fn append_bytes(out: &mut Vec<u8>, src: &[u8])
    ensures
        final(out)@ == old(out)@ + src@,
{
    let mut i: usize = 0;
    while i < src.len()
        invariant
            i <= src@.len(),
            out@ == old(out)@ + src@.subrange(0, i as int),
        decreases src@.len() - i,
    {
        out.push(src[i]);
        assert(out@ =~= old(out)@ + src@.subrange(0, i + 1));
        i = i + 1;
    }
    assert(out@ =~= old(out)@ + src@);
}

/// Encode the pack-name chunk.
pub fn names_chunk(names: &Vec<Vec<u8>>) -> (r: Vec<u8>)
    ensures
        r@ == names_chunk_bytes(names_view(names@)),
{
    let ghost nv = names_view(names@);
    let mut out: Vec<u8> = Vec::new();
    let mut k: usize = 0;
    while k < names.len()
        invariant
            k <= names@.len(),
            nv == names_view(names@),
            out@ == names_cat(nv.take(k as int)),
        decreases names@.len() - k,
    {
        let ghost pre = out@;
        append_bytes(&mut out, names[k].as_slice());
        out.push(0);
        proof {
            assert(nv.take(k + 1).drop_last() =~= nv.take(k as int));
            assert(nv.take(k + 1).last() == nv[k as int]);
            assert(nv[k as int] == names@[k as int]@);
            assert(out@ =~= pre + names@[k as int]@ + seq![0u8]);
        }
        k = k + 1;
    }
    proof {
        assert(nv.take(names@.len() as int) =~= nv);
    }
    let l = out.len();
    let pad = (4 - (l % 4)) % 4;
    let mut p: usize = 0;
    while p < pad
        invariant
            p <= pad,
            pad == pad_len(names_cat(nv).len() as int),
            out@ == names_cat(nv) + Seq::new(p as nat, |i: int| 0u8),
        decreases pad - p,
    {
        out.push(0);
        assert(out@ =~= names_cat(nv) + Seq::new((p + 1) as nat, |i: int| 0u8));
        p = p + 1;
    }
    out
}

/// Encode the fan-out chunk: 256 cumulative big-endian counts.
pub fn fanout_chunk(entries: &Vec<Entry>) -> (r: Vec<u8>)
    requires
        entries@.len() <= 0xffffffff,
        entries_wf(view_of(entries@)),
    ensures
        r@.len() == 1024,
        forall|b: int|
            0 <= b < 256 ==> #[trigger] r@.subrange(4 * b, 4 * b + 4) == be32_bytes(
                fanout_value(view_of(entries@), b) as u32,
            ),
{
    let ghost ev = view_of(entries@);
    let mut out: Vec<u8> = Vec::new();
    let mut b: usize = 0;
    while b < 256
        invariant
            b <= 256,
            ev == view_of(entries@),
            entries@.len() <= 0xffffffff,
            entries_wf(ev),
            out@.len() == 4 * b,
            forall|b2: int|
                0 <= b2 < b ==> #[trigger] out@.subrange(4 * b2, 4 * b2 + 4) == be32_bytes(
                    fanout_value(ev, b2) as u32,
                ),
        decreases 256 - b,
    {
        let ghost pre = out@;
        let mut c: usize = 0;
        let mut i: usize = 0;
        while i < entries.len()
            invariant
                i <= entries@.len(),
                ev == view_of(entries@),
                entries_wf(ev),
                b < 256,
                c == fanout_value(ev.take(i as int), b as int),
                c <= i,
            decreases entries@.len() - i,
        {
            proof {
                lemma_fanout_value_bounds(ev.take(i + 1), b as int);
                assert(ev.take(i + 1).drop_last() =~= ev.take(i as int));
                assert(ev.take(i + 1).last() == ev[i as int]);
                assert(ev[i as int] == entries@[i as int]@);
            }
            let ghost e0 = entries@[i as int];
            if entries[i].id.first_byte() <= b as u8 {
                c = c + 1;
            }
            i = i + 1;
        }
        proof {
            assert(ev.take(entries@.len() as int) =~= ev);
            lemma_fanout_value_bounds(ev, b as int);
        }
        push_be32(&mut out, c as u32);
        proof {
            assert forall|b2: int| 0 <= b2 < b + 1 implies #[trigger] out@.subrange(
                4 * b2,
                4 * b2 + 4,
            ) == be32_bytes(fanout_value(ev, b2) as u32) by {
                if b2 < b {
                    assert(out@.subrange(4 * b2, 4 * b2 + 4) =~= pre.subrange(4 * b2, 4 * b2 + 4));
                } else {
                    assert(out@.subrange(4 * b2, 4 * b2 + 4) =~= be32_bytes(
                        fanout_value(ev, b2) as u32,
                    ));
                }
            }
        }
        b = b + 1;
    }
    out
}

/// Encode the object-id lookup chunk: the ids back to back.
pub fn lookup_chunk(entries: &Vec<Entry>) -> (r: Vec<u8>)
    requires
        entries_wf(view_of(entries@)),
    ensures
        r@.len() == 20 * entries@.len(),
        forall|i: int|
            0 <= i < entries@.len() ==> #[trigger] r@.subrange(20 * i, 20 * i + 20) == view_of(
                entries@,
            )[i].id,
{
    let ghost ev = view_of(entries@);
    let mut out: Vec<u8> = Vec::new();
    let mut i: usize = 0;
    while i < entries.len()
        invariant
            i <= entries@.len(),
            ev == view_of(entries@),
            entries_wf(ev),
            out@.len() == 20 * i,
            forall|i2: int|
                0 <= i2 < i ==> #[trigger] out@.subrange(20 * i2, 20 * i2 + 20) == ev[i2].id,
        decreases entries@.len() - i,
    {
        let ghost pre = out@;
        proof {
            assert(ev[i as int] == entries@[i as int]@);
        }
        append_bytes(&mut out, entries[i].id.as_slice());
        proof {
            assert forall|i2: int| 0 <= i2 < i + 1 implies #[trigger] out@.subrange(
                20 * i2,
                20 * i2 + 20,
            ) == ev[i2].id by {
                if i2 < i {
                    assert(out@.subrange(20 * i2, 20 * i2 + 20) =~= pre.subrange(
                        20 * i2,
                        20 * i2 + 20,
                    ));
                } else {
                    assert(out@.subrange(20 * i2, 20 * i2 + 20) =~= ev[i2].id);
                }
            }
        }
        i = i + 1;
    }
    out
}

/// Encode the offset chunk: per entry, its pack position and its 32-bit
/// offset slot, with the high bit marking an overflow-table reference.
pub fn offsets_chunk(entries: &Vec<Entry>) -> (r: Vec<u8>)
    requires
        entries@.len() <= 0x7fffffff,
    ensures
        r@.len() == 8 * entries@.len(),
        forall|i: int|
            0 <= i < entries@.len() ==> #[trigger] r@.subrange(8 * i, 8 * i + 4) == be32_bytes(
                view_of(entries@)[i].pack_index,
            ),
        forall|i: int|
            0 <= i < entries@.len() ==> #[trigger] r@.subrange(8 * i + 4, 8 * i + 8) == be32_bytes(
                slot_value(view_of(entries@), i),
            ),
{
    let ghost ev = view_of(entries@);
    let mut out: Vec<u8> = Vec::new();
    let mut nl: u32 = 0;
    let mut i: usize = 0;
    while i < entries.len()
        invariant
            i <= entries@.len(),
            ev == view_of(entries@),
            entries@.len() <= 0x7fffffff,
            nl == large_seq(ev.take(i as int)).len(),
            out@.len() == 8 * i,
            forall|i2: int|
                0 <= i2 < i ==> #[trigger] out@.subrange(8 * i2, 8 * i2 + 4) == be32_bytes(
                    ev[i2].pack_index,
                ),
            forall|i2: int|
                0 <= i2 < i ==> #[trigger] out@.subrange(8 * i2 + 4, 8 * i2 + 8) == be32_bytes(
                    slot_value(ev, i2),
                ),
        decreases entries@.len() - i,
    {
        let ghost pre = out@;
        proof {
            assert(ev[i as int] == entries@[i as int]@);
            lemma_large_seq_take_unfold(ev, i as int);
            lemma_large_seq_len(ev.take(i as int));
            assert(ev.take(i as int).len() == i);
        }
        push_be32(&mut out, entries[i].pack_index);
        let slot: u32 = if entries[i].pack_offset > 0x7fffffff {
            let s = 0x80000000u32 + nl;
            proof {
                assert(entry_large(ev[i as int]));
            }
            s
        } else {
            entries[i].pack_offset as u32
        };
        proof {
            assert(slot == slot_value(ev, i as int));
        }
        push_be32(&mut out, slot);
        if entries[i].pack_offset > 0x7fffffff {
            nl = nl + 1;
        }
        proof {
            assert forall|i2: int| 0 <= i2 < i + 1 implies #[trigger] out@.subrange(
                8 * i2,
                8 * i2 + 4,
            ) == be32_bytes(ev[i2].pack_index) by {
                if i2 < i {
                    assert(out@.subrange(8 * i2, 8 * i2 + 4) =~= pre.subrange(8 * i2, 8 * i2 + 4));
                } else {
                    assert(out@.subrange(8 * i2, 8 * i2 + 4) =~= be32_bytes(ev[i2].pack_index));
                }
            }
            assert forall|i2: int| 0 <= i2 < i + 1 implies #[trigger] out@.subrange(
                8 * i2 + 4,
                8 * i2 + 8,
            ) == be32_bytes(slot_value(ev, i2)) by {
                if i2 < i {
                    assert(out@.subrange(8 * i2 + 4, 8 * i2 + 8) =~= pre.subrange(
                        8 * i2 + 4,
                        8 * i2 + 8,
                    ));
                } else {
                    assert(out@.subrange(8 * i2 + 4, 8 * i2 + 8) =~= be32_bytes(
                        slot_value(ev, i2),
                    ));
                }
            }
        }
        i = i + 1;
    }
    out
}

/// Encode the large-offset chunk: each overflowing offset as eight
/// big-endian bytes, in the order their flagged slots appear.
pub fn large_offsets_chunk(entries: &Vec<Entry>) -> (r: Vec<u8>)
    ensures
        r@.len() == 8 * large_seq(view_of(entries@)).len(),
        forall|k: int|
            0 <= k < large_seq(view_of(entries@)).len() ==> #[trigger] r@.subrange(8 * k, 8 * k + 8)
                == be64_bytes(large_seq(view_of(entries@))[k]),
{
    let ghost ev = view_of(entries@);
    let mut out: Vec<u8> = Vec::new();
    let mut i: usize = 0;
    while i < entries.len()
        invariant
            i <= entries@.len(),
            ev == view_of(entries@),
            out@.len() == 8 * large_seq(ev.take(i as int)).len(),
            forall|k: int|
                0 <= k < large_seq(ev.take(i as int)).len() ==> #[trigger] out@.subrange(
                    8 * k,
                    8 * k + 8,
                ) == be64_bytes(large_seq(ev.take(i as int))[k]),
        decreases entries@.len() - i,
    {
        let ghost pre = out@;
        let ghost lpre = large_seq(ev.take(i as int));
        proof {
            assert(ev[i as int] == entries@[i as int]@);
            lemma_large_seq_take_unfold(ev, i as int);
        }
        if entries[i].pack_offset > 0x7fffffff {
            push_be64(&mut out, entries[i].pack_offset);
            proof {
                let lnow = large_seq(ev.take(i + 1));
                assert(lnow =~= lpre.push(ev[i as int].pack_offset));
                assert forall|k: int| 0 <= k < lnow.len() implies #[trigger] out@.subrange(
                    8 * k,
                    8 * k + 8,
                ) == be64_bytes(lnow[k]) by {
                    if k < lpre.len() {
                        assert(out@.subrange(8 * k, 8 * k + 8) =~= pre.subrange(8 * k, 8 * k + 8));
                    } else {
                        assert(out@.subrange(8 * k, 8 * k + 8) =~= be64_bytes(lnow[k]));
                    }
                }
            }
        } else {
            proof {
                assert(large_seq(ev.take(i + 1)) =~= lpre);
            }
        }
        i = i + 1;
    }
    proof {
        assert(ev.take(entries@.len() as int) =~= ev);
    }
    out
}

} // verus!
