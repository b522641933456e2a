//! Big-endian integer encodings and a model of a growable write buffer.
use vstd::prelude::*;

verus! {

/// The two bytes of `v`, most significant first.
pub open spec fn be16(v: u16) -> Seq<u8> {
    seq![(v >> 8u16) as u8, (v & 0xffu16) as u8]
}

/// The four bytes of `v`, most significant first.
pub open spec fn be32(v: u32) -> Seq<u8> {
    seq![(v >> 24u32) as u8, ((v >> 16u32) & 0xffu32) as u8, ((v >> 8u32) & 0xffu32) as u8, (v & 0xffu32) as u8]
}

/// The eight bytes of `v`, most significant first.
pub open spec fn be64(v: u64) -> Seq<u8> {
    be32((v >> 32u64) as u32) + be32((v & 0xffff_ffffu64) as u32)
}

/// The big-endian `u16` stored at `s[i..i + 2]`.
pub open spec fn get16(s: Seq<u8>, i: int) -> u16 {
    ((s[i] as u16) << 8u16) | (s[i + 1] as u16)
}

/// The big-endian `u32` stored at `s[i..i + 4]`.
pub open spec fn get32(s: Seq<u8>, i: int) -> u32 {
    ((s[i] as u32) << 24u32) | ((s[i + 1] as u32) << 16u32) | ((s[i + 2] as u32) << 8u32) | (s[i + 3] as u32)
}

pub proof fn lemma_be16_roundtrip(v: u16)
    ensures
        be16(v).len() == 2,
        get16(be16(v), 0) == v,
{
    let b0 = (v >> 8u16) as u8;
    let b1 = (v & 0xffu16) as u8;
    assert((((b0 as u16) << 8u16) | (b1 as u16)) == v) by (bit_vector)
        requires
            b0 == (v >> 8u16) as u8,
            b1 == (v & 0xffu16) as u8,
    ;
}

pub proof fn lemma_be32_roundtrip(v: u32)
    ensures
        be32(v).len() == 4,
        get32(be32(v), 0) == v,
{
    let b0 = (v >> 24u32) as u8;
    let b1 = ((v >> 16u32) & 0xffu32) as u8;
    let b2 = ((v >> 8u32) & 0xffu32) as u8;
    let b3 = (v & 0xffu32) as u8;
    assert((((b0 as u32) << 24u32) | ((b1 as u32) << 16u32) | ((b2 as u32) << 8u32) | (b3 as u32))
        == v) by (bit_vector)
        requires
            b0 == (v >> 24u32) as u8,
            b1 == ((v >> 16u32) & 0xffu32) as u8,
            b2 == ((v >> 8u32) & 0xffu32) as u8,
            b3 == (v & 0xffu32) as u8,
    ;
}

/// Reading back the bytes at `i` gives the encoding of what was read.
pub proof fn lemma_get16_bytes(s: Seq<u8>, i: int)
    requires
        0 <= i,
        i + 2 <= s.len(),
    ensures
        be16(get16(s, i)) == s.subrange(i, i + 2),
{
    let b0 = s[i];
    let b1 = s[i + 1];
    let v = get16(s, i);
    assert((v >> 8u16) as u8 == b0 && (v & 0xffu16) as u8 == b1) by (bit_vector)
        requires
            v == ((b0 as u16) << 8u16) | (b1 as u16),
    ;
    assert(be16(v) =~= s.subrange(i, i + 2));
}

/// Reading back the bytes at `i` gives the encoding of what was read.
pub proof fn lemma_get32_bytes(s: Seq<u8>, i: int)
    requires
        0 <= i,
        i + 4 <= s.len(),
    ensures
        be32(get32(s, i)) == s.subrange(i, i + 4),
{
    let b0 = s[i];
    let b1 = s[i + 1];
    let b2 = s[i + 2];
    let b3 = s[i + 3];
    let v = get32(s, i);
    assert((v >> 24u32) as u8 == b0 && ((v >> 16u32) & 0xffu32) as u8 == b1 && ((v >> 8u32)
        & 0xffu32) as u8 == b2 && (v & 0xffu32) as u8 == b3) by (bit_vector)
        requires
            v == ((b0 as u32) << 24u32) | ((b1 as u32) << 16u32) | ((b2 as u32) << 8u32) | (
            b3 as u32),
    ;
    assert(be32(v) =~= s.subrange(i, i + 4));
}

/// The value read at `i` only depends on the bytes at `i`.
pub proof fn lemma_get32_of(s: Seq<u8>, i: int, v: u32)
    requires
        0 <= i,
        i + 4 <= s.len(),
        s.subrange(i, i + 4) == be32(v),
    ensures
        get32(s, i) == v,
{
    lemma_be32_roundtrip(v);
    assert(s[i] == be32(v)[0] && s[i + 1] == be32(v)[1] && s[i + 2] == be32(v)[2] && s[i + 3]
        == be32(v)[3]) by {
        assert(s.subrange(i, i + 4)[0] == s[i]);
        assert(s.subrange(i, i + 4)[1] == s[i + 1]);
        assert(s.subrange(i, i + 4)[2] == s[i + 2]);
        assert(s.subrange(i, i + 4)[3] == s[i + 3]);
    }
}

/// The value read at `i` only depends on the bytes at `i`.
pub proof fn lemma_get16_of(s: Seq<u8>, i: int, v: u16)
    requires
        0 <= i,
        i + 2 <= s.len(),
        s.subrange(i, i + 2) == be16(v),
    ensures
        get16(s, i) == v,
{
    lemma_be16_roundtrip(v);
    assert(s[i] == be16(v)[0] && s[i + 1] == be16(v)[1]) by {
        assert(s.subrange(i, i + 2)[0] == s[i]);
        assert(s.subrange(i, i + 2)[1] == s[i + 1]);
    }
}

/// Two adjacent ranges of a sequence concatenate to the joint range.
pub proof fn lemma_subrange_concat(s: Seq<u8>, i: int, j: int, k: int)
    requires
        0 <= i <= j <= k <= s.len(),
    ensures
        s.subrange(i, j) + s.subrange(j, k) == s.subrange(i, k),
{
    assert(s.subrange(i, j) + s.subrange(j, k) =~= s.subrange(i, k));
}

/// Reinterpreting a signed word as unsigned and back is the identity.
pub proof fn lemma_i32_u32(v: i32)
    ensures
        (v as u32) as i32 == v,
{
    assert((v as u32) as i32 == v) by (bit_vector);
}

/// Reinterpreting an unsigned word as signed and back is the identity.
pub proof fn lemma_u32_i32(v: u32)
    ensures
        (v as i32) as u32 == v,
{
    assert((v as i32) as u32 == v) by (bit_vector);
}

/// Appends the big-endian encoding of `v`.
pub fn push_be16(out: &mut Vec<u8>, v: u16)
    ensures
        final(out)@ == old(out)@ + be16(v),
{
    out.push((v >> 8u16) as u8);
    out.push((v & 0xffu16) as u8);
    assert(final(out)@ =~= old(out)@ + be16(v));
}

/// Appends the big-endian encoding of `v`.
pub fn push_be32(out: &mut Vec<u8>, v: u32)
    ensures
        final(out)@ == old(out)@ + be32(v),
{
    out.push((v >> 24u32) as u8);
    out.push(((v >> 16u32) & 0xffu32) as u8);
    out.push(((v >> 8u32) & 0xffu32) as u8);
    out.push((v & 0xffu32) as u8);
    assert(final(out)@ =~= old(out)@ + be32(v));
}

/// Appends the big-endian encoding of `v`.
pub fn push_be64(out: &mut Vec<u8>, v: u64)
    ensures
        final(out)@ == old(out)@ + be64(v),
{
    push_be32(out, (v >> 32u64) as u32);
    push_be32(out, (v & 0xffff_ffffu64) as u32);
    assert(final(out)@ =~= old(out)@ + be64(v));
}

/// Reads the big-endian `u16` at `i`.
pub fn read_be16(s: &[u8], i: usize) -> (r: u16)
    requires
        i + 2 <= s@.len(),
    ensures
        r == get16(s@, i as int),
{
    ((s[i] as u16) << 8u16) | (s[i + 1] as u16)
}

/// Reads the big-endian `u32` at `i`.
pub fn read_be32(s: &[u8], i: usize) -> (r: u32)
    requires
        i + 4 <= s@.len(),
    ensures
        r == get32(s@, i as int),
{
    ((s[i] as u32) << 24u32) | ((s[i + 1] as u32) << 16u32) | ((s[i + 2] as u32) << 8u32) | (s[i
        + 3] as u32)
}

/// The buffer after writing `data` at position `pos`: the buffer grows as
/// needed, a gap between its old end and `pos` is filled with zeros, and the
/// bytes under `data` are overwritten.
pub open spec fn write_at(buf: Seq<u8>, pos: int, data: Seq<u8>) -> Seq<u8> {
    let end = pos + data.len();
    let new_len = if end > buf.len() {
        end
    } else {
        buf.len() as int
    };
    Seq::new(
        new_len as nat,
        |k: int|
            if pos <= k < end {
                data[k - pos]
            } else if k < buf.len() {
                buf[k]
            } else {
                0u8
            },
    )
}

/// What was written at `pos` is read back from `pos`.
pub proof fn lemma_write_at_read_back(buf: Seq<u8>, pos: int, data: Seq<u8>)
    requires
        0 <= pos,
    ensures
        write_at(buf, pos, data).len() >= pos + data.len(),
        write_at(buf, pos, data).subrange(pos, pos + data.len()) == data,
{
    assert(write_at(buf, pos, data).subrange(pos, pos + data.len()) =~= data);
}

/// Bytes outside the written range keep their value.
pub proof fn lemma_write_at_frame(buf: Seq<u8>, pos: int, data: Seq<u8>, k: int)
    requires
        0 <= pos,
        0 <= k < buf.len(),
        k < pos || pos + data.len() <= k,
    ensures
        write_at(buf, pos, data)[k] == buf[k],
{
}

/// Whether `buf` holds `data` at `pos`.
pub open spec fn holds_at(buf: Seq<u8>, pos: int, data: Seq<u8>) -> bool {
    0 <= pos && pos + data.len() <= buf.len() && buf.subrange(pos, pos + data.len()) == data
}

/// What was written is held where it was written.
pub proof fn lemma_write_at_holds(buf: Seq<u8>, pos: int, data: Seq<u8>)
    requires
        0 <= pos,
    ensures
        holds_at(write_at(buf, pos, data), pos, data),
{
    lemma_write_at_read_back(buf, pos, data);
}

/// A write beside a held range keeps it.
pub proof fn lemma_write_at_keeps(buf: Seq<u8>, p: int, d: Seq<u8>, pos: int, data: Seq<u8>)
    requires
        holds_at(buf, pos, data),
        0 <= p,
        pos + data.len() <= p || p + d.len() <= pos,
    ensures
        holds_at(write_at(buf, p, d), pos, data),
{
    let w = write_at(buf, p, d);
    assert forall|k: int| 0 <= k < data.len() implies #[trigger] w.subrange(pos, pos + data.len())[k] == data[k] by {
        lemma_write_at_frame(buf, p, d, pos + k);
        assert(buf.subrange(pos, pos + data.len())[k] == buf[pos + k]);
    }
    assert(w.subrange(pos, pos + data.len()) =~= data);
}

/// Writes `data` into `buf` at `pos`, growing `buf` as needed.
pub fn write_bytes_at(buf: &mut Vec<u8>, pos: usize, data: &[u8])
    requires
        pos + data@.len() <= usize::MAX,
    ensures
        final(buf)@ == write_at(old(buf)@, pos as int, data@),
{
    if buf.len() < pos {
        buf.resize(pos, 0u8);
    }
    let ghost mid = buf@;
    assert(mid.len() >= pos);
    assert forall|k: int| 0 <= k < mid.len() implies #[trigger] mid[k] == (if k < old(buf)@.len() {
        old(buf)@[k]
    } else {
        0u8
    }) by {}
    let mut j: usize = 0;
    while j < data.len()
        invariant
            j <= data@.len(),
            pos + data@.len() <= usize::MAX,
            mid.len() >= pos,
            forall|k: int|
                0 <= k < mid.len() ==> #[trigger] mid[k] == (if k < old(buf)@.len() {
                    old(buf)@[k]
                } else {
                    0u8
                }),
            buf@.len() == if pos + j > mid.len() {
                (pos + j) as int
            } else {
                mid.len() as int
            },
            forall|k: int|
                0 <= k < buf@.len() ==> #[trigger] buf@[k] == if pos <= k < pos + j {
                    data@[k - pos]
                } else {
                    mid[k]
                },
        decreases data@.len() - j,
    {
        if pos + j < buf.len() {
            buf[pos + j] = data[j];
        } else {
            buf.push(data[j]);
        }
        j = j + 1;
    }
    assert(buf@ =~= write_at(old(buf)@, pos as int, data@));
}

/// A copy of `s[start..end]`.
pub fn copy_range(s: &[u8], start: usize, end: usize) -> (r: Vec<u8>)
    requires
        start <= end <= s@.len(),
    ensures
        r@ == s@.subrange(start as int, end as int),
{
    let mut out: Vec<u8> = Vec::with_capacity(end - start);
    let mut k: usize = start;
    while k < end
        invariant
            start <= k <= end,
            end <= s@.len(),
            out@ == s@.subrange(start as int, k as int),
        decreases end - k,
    {
        out.push(s[k]);
        assert(s@.subrange(start as int, k + 1) =~= s@.subrange(start as int, k as int).push(s@[k as int]));
        k = k + 1;
    }
    out
}

/// Whether `s` starts with `prefix`.
pub open spec fn starts_with(s: Seq<u8>, prefix: Seq<u8>) -> bool {
    prefix.len() <= s.len() && s.subrange(0, prefix.len() as int) == prefix
}

/// Whether `s` starts with `prefix`.
pub fn has_prefix(s: &[u8], prefix: &[u8]) -> (r: bool)
    ensures
        r == starts_with(s@, prefix@),
{
    if prefix.len() > s.len() {
        return false;
    }
    let mut k: usize = 0;
    while k < prefix.len()
        invariant
            k <= prefix@.len() <= s@.len(),
            forall|j: int| 0 <= j < k ==> s@[j] == prefix@[j],
        decreases prefix@.len() - k,
    {
        if s[k] != prefix[k] {
            assert(s@.subrange(0, prefix@.len() as int)[k as int] != prefix@[k as int]);
            return false;
        }
        k = k + 1;
    }
    assert(s@.subrange(0, prefix@.len() as int) =~= prefix@);
    true
}

/// Whether `a` and `b` hold the same bytes.
pub fn bytes_equal(a: &[u8], b: &[u8]) -> (r: bool)
    ensures
        r == (a@ == b@),
{
    if a.len() != b.len() {
        return false;
    }
    let r = has_prefix(a, b);
    proof {
        if r {
            assert(a@ =~= a@.subrange(0, b@.len() as int));
        } else {
            assert(a@.subrange(0, b@.len() as int) =~= a@);
        }
    }
    r
}

/// Appends the bytes of `b` to `out`.
pub fn push_bytes(out: &mut Vec<u8>, b: &[u8])
    ensures
        final(out)@ == old(out)@ + b@,
{
    let ghost start = out@;
    let mut k: usize = 0;
    while k < b.len()
        invariant
            k <= b@.len(),
            out@ == start + b@.subrange(0, k as int),
        decreases b@.len() - k,
    {
        out.push(b[k]);
        assert(b@.subrange(0, k + 1) =~= b@.subrange(0, k as int).push(b@[k as int]));
        k = k + 1;
    }
    assert(b@.subrange(0, k as int) =~= b@);
}

} // verus!
