use vstd::prelude::*;

verus! {

/// The four big-endian bytes of a 32-bit value, most significant first.
pub open spec fn be32_bytes(v: u32) -> Seq<u8> {
    seq![
        ((v >> 24) & 0xff) as u8,
        ((v >> 16) & 0xff) as u8,
        ((v >> 8) & 0xff) as u8,
        (v & 0xff) as u8,
    ]
}

/// The eight big-endian bytes of a 64-bit value, most significant first.
pub open spec fn be64_bytes(v: u64) -> Seq<u8> {
    seq![
        ((v >> 56) & 0xff) as u8,
        ((v >> 48) & 0xff) as u8,
        ((v >> 40) & 0xff) as u8,
        ((v >> 32) & 0xff) as u8,
        ((v >> 24) & 0xff) as u8,
        ((v >> 16) & 0xff) as u8,
        ((v >> 8) & 0xff) as u8,
        (v & 0xff) as u8,
    ]
}

/// The 32-bit value stored big-endian at position `i` of `s`.
pub open spec fn be32_at(s: Seq<u8>, i: int) -> u32
    recommends
        0 <= i,
        i + 4 <= s.len(),
{
    ((s[i] as u32) << 24) | ((s[i + 1] as u32) << 16) | ((s[i + 2] as u32) << 8) | (s[i + 3] as u32)
}

/// The 64-bit value stored big-endian at position `i` of `s`.
pub open spec fn be64_at(s: Seq<u8>, i: int) -> u64
    recommends
        0 <= i,
        i + 8 <= s.len(),
{
    ((s[i] as u64) << 56) | ((s[i + 1] as u64) << 48) | ((s[i + 2] as u64) << 40) | ((s[i + 3]
        as u64) << 32) | ((s[i + 4] as u64) << 24) | ((s[i + 5] as u64) << 16) | ((s[i + 6]
        as u64) << 8) | (s[i + 7] as u64)
}

/// Reading back the four bytes written for `v` yields `v` again.
pub proof fn lemma_be32_roundtrip(v: u32)
    ensures
        be32_at(be32_bytes(v), 0) == v,
{
    let b0: u8 = ((v >> 24) & 0xff) as u8;
    let b1: u8 = ((v >> 16) & 0xff) as u8;
    let b2: u8 = ((v >> 8) & 0xff) as u8;
    let b3: u8 = (v & 0xff) as u8;
    assert(((b0 as u32) << 24) | ((b1 as u32) << 16) | ((b2 as u32) << 8) | (b3 as u32) == v)
        by (bit_vector)
        requires
            b0 == ((v >> 24) & 0xff) as u8,
            b1 == ((v >> 16) & 0xff) as u8,
            b2 == ((v >> 8) & 0xff) as u8,
            b3 == (v & 0xff) as u8,
    ;
}

/// Reading back the eight bytes written for `v` yields `v` again.
pub proof fn lemma_be64_roundtrip(v: u64)
    ensures
        be64_at(be64_bytes(v), 0) == v,
{
    let b0: u8 = ((v >> 56) & 0xff) as u8;
    let b1: u8 = ((v >> 48) & 0xff) as u8;
    let b2: u8 = ((v >> 40) & 0xff) as u8;
    let b3: u8 = ((v >> 32) & 0xff) as u8;
    let b4: u8 = ((v >> 24) & 0xff) as u8;
    let b5: u8 = ((v >> 16) & 0xff) as u8;
    let b6: u8 = ((v >> 8) & 0xff) as u8;
    let b7: u8 = (v & 0xff) as u8;
    assert(((b0 as u64) << 56) | ((b1 as u64) << 48) | ((b2 as u64) << 40) | ((b3 as u64) << 32)
        | ((b4 as u64) << 24) | ((b5 as u64) << 16) | ((b6 as u64) << 8) | (b7 as u64) == v)
        by (bit_vector)
        requires
            b0 == ((v >> 56) & 0xff) as u8,
            b1 == ((v >> 48) & 0xff) as u8,
            b2 == ((v >> 40) & 0xff) as u8,
            b3 == ((v >> 32) & 0xff) as u8,
            b4 == ((v >> 24) & 0xff) as u8,
            b5 == ((v >> 16) & 0xff) as u8,
            b6 == ((v >> 8) & 0xff) as u8,
            b7 == (v & 0xff) as u8,
    ;
}

/// A region of `s` equal to the bytes of `v` reads back as `v`.
pub proof fn lemma_be32_at_of_bytes(v: u32, s: Seq<u8>, i: int)
    requires
        0 <= i,
        i + 4 <= s.len(),
        s.subrange(i, i + 4) == be32_bytes(v),
    ensures
        be32_at(s, i) == v,
{
    let sub = s.subrange(i, i + 4);
    assert(s[i] == sub[0]);
    assert(s[i + 1] == sub[1]);
    assert(s[i + 2] == sub[2]);
    assert(s[i + 3] == sub[3]);
    lemma_be32_roundtrip(v);
}

/// A region of `s` equal to the bytes of `v` reads back as `v`.
pub proof fn lemma_be64_at_of_bytes(v: u64, s: Seq<u8>, i: int)
    requires
        0 <= i,
        i + 8 <= s.len(),
        s.subrange(i, i + 8) == be64_bytes(v),
    ensures
        be64_at(s, i) == v,
{
    let sub = s.subrange(i, i + 8);
    assert(s[i] == sub[0]);
    assert(s[i + 1] == sub[1]);
    assert(s[i + 2] == sub[2]);
    assert(s[i + 3] == sub[3]);
    assert(s[i + 4] == sub[4]);
    assert(s[i + 5] == sub[5]);
    assert(s[i + 6] == sub[6]);
    assert(s[i + 7] == sub[7]);
    lemma_be64_roundtrip(v);
}

/// Bytes below the length of a prefix read the same through the whole.
pub proof fn lemma_be32_at_prefix(pre: Seq<u8>, data: Seq<u8>, i: int)
    requires
        pre.len() <= data.len(),
        data.subrange(0, pre.len() as int) == pre,
        0 <= i,
        i + 4 <= pre.len(),
    ensures
        be32_at(data, i) == be32_at(pre, i),
{
    let sub = data.subrange(0, pre.len() as int);
    assert(data[i] == sub[i]);
    assert(data[i + 1] == sub[i + 1]);
    assert(data[i + 2] == sub[i + 2]);
    assert(data[i + 3] == sub[i + 3]);
}

/// Bytes below the length of a prefix read the same through the whole.
pub proof fn lemma_be64_at_prefix(pre: Seq<u8>, data: Seq<u8>, i: int)
    requires
        pre.len() <= data.len(),
        data.subrange(0, pre.len() as int) == pre,
        0 <= i,
        i + 8 <= pre.len(),
    ensures
        be64_at(data, i) == be64_at(pre, i),
{
    let sub = data.subrange(0, pre.len() as int);
    assert(data[i] == sub[i]);
    assert(data[i + 1] == sub[i + 1]);
    assert(data[i + 2] == sub[i + 2]);
    assert(data[i + 3] == sub[i + 3]);
    assert(data[i + 4] == sub[i + 4]);
    assert(data[i + 5] == sub[i + 5]);
    assert(data[i + 6] == sub[i + 6]);
    assert(data[i + 7] == sub[i + 7]);
}

/// Append the big-endian bytes of a 32-bit value.
pub fn push_be32(out: &mut Vec<u8>, v: u32)
    ensures
        final(out)@ == old(out)@ + be32_bytes(v),
{
    out.push(((v >> 24) & 0xff) as u8);
    out.push(((v >> 16) & 0xff) as u8);
    out.push(((v >> 8) & 0xff) as u8);
    out.push((v & 0xff) as u8);
    assert(out@ =~= old(out)@ + be32_bytes(v));
}

/// Append the big-endian bytes of a 64-bit value.
pub fn push_be64(out: &mut Vec<u8>, v: u64)
    ensures
        final(out)@ == old(out)@ + be64_bytes(v),
{
    out.push(((v >> 56) & 0xff) as u8);
    out.push(((v >> 48) & 0xff) as u8);
    out.push(((v >> 40) & 0xff) as u8);
    out.push(((v >> 32) & 0xff) as u8);
    out.push(((v >> 24) & 0xff) as u8);
    out.push(((v >> 16) & 0xff) as u8);
    out.push(((v >> 8) & 0xff) as u8);
    out.push((v & 0xff) as u8);
    assert(out@ =~= old(out)@ + be64_bytes(v));
}

/// Read the big-endian 32-bit value at `pos`.
pub fn read_be32(data: &[u8], pos: usize) -> (r: u32)
    requires
        pos + 4 <= data@.len(),
    ensures
        r == be32_at(data@, pos as int),
{
    ((data[pos] as u32) << 24) | ((data[pos + 1] as u32) << 16) | ((data[pos + 2] as u32) << 8) | (
    data[pos + 3] as u32)
}

/// Read the big-endian 64-bit value at `pos`.
pub fn read_be64(data: &[u8], pos: usize) -> (r: u64)
    requires
        pos + 8 <= data@.len(),
    ensures
        r == be64_at(data@, pos as int),
{
    ((data[pos] as u64) << 56) | ((data[pos + 1] as u64) << 48) | ((data[pos + 2] as u64) << 40)
        | ((data[pos + 3] as u64) << 32) | ((data[pos + 4] as u64) << 24) | ((data[pos + 5]
        as u64) << 16) | ((data[pos + 6] as u64) << 8) | (data[pos + 7] as u64)
}

} // verus!
