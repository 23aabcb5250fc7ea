use vstd::prelude::*;

verus! {

/// The value of two little-endian bytes.
pub open spec fn le16_at(s: Seq<u8>, off: int) -> int {
    s[off] + 0x100 * s[off + 1]
}

/// The value of four little-endian bytes.
pub open spec fn le32_at(s: Seq<u8>, off: int) -> int {
    s[off] + 0x100 * s[off + 1] + 0x1_0000 * s[off + 2] + 0x100_0000 * s[off + 3]
}

/// The value of eight little-endian bytes.
pub open spec fn le64_at(s: Seq<u8>, off: int) -> int {
    le32_at(s, off) + 0x1_0000_0000 * le32_at(s, off + 4)
}

/// The value of two big-endian (network order) bytes.
pub open spec fn be16_at(s: Seq<u8>, off: int) -> int {
    0x100 * s[off] + s[off + 1]
}

/// The value of four big-endian (network order) bytes.
pub open spec fn be32_at(s: Seq<u8>, off: int) -> int {
    0x100_0000 * s[off] + 0x1_0000 * s[off + 1] + 0x100 * s[off + 2] + s[off + 3]
}

pub fn get_le32(b: &Vec<u8>, off: usize) -> (r: u32)
    requires
        off + 4 <= b.len(),
    ensures
        r == le32_at(b@, off as int),
{
    (b[off] as u32) + 0x100 * (b[off + 1] as u32) + 0x1_0000 * (b[off + 2] as u32) + 0x100_0000
        * (b[off + 3] as u32)
}

pub fn get_le64(b: &Vec<u8>, off: usize) -> (r: u64)
    requires
        off + 8 <= b.len(),
    ensures
        r == le64_at(b@, off as int),
{
    let lo = get_le32(b, off);
    let hi = get_le32(b, off + 4);
    (lo as u64) + 0x1_0000_0000 * (hi as u64)
}

pub fn get_be16(b: &Vec<u8>, off: usize) -> (r: u16)
    requires
        off + 2 <= b.len(),
    ensures
        r == be16_at(b@, off as int),
{
    0x100 * (b[off] as u16) + (b[off + 1] as u16)
}

pub fn get_be32(b: &Vec<u8>, off: usize) -> (r: u32)
    requires
        off + 4 <= b.len(),
    ensures
        r == be32_at(b@, off as int),
{
    0x100_0000 * (b[off] as u32) + 0x1_0000 * (b[off + 1] as u32) + 0x100 * (b[off + 2] as u32) + (
    b[off + 3] as u32)
}

/// A run of zero bytes.
pub open spec fn zeros(n: int) -> Seq<u8> {
    Seq::new(n as nat, |i: int| 0u8)
}

/// The four little-endian bytes of a 32-bit value.
pub open spec fn le32_bytes(x: int) -> Seq<u8> {
    seq![
        (x % 0x100) as u8,
        ((x / 0x100) % 0x100) as u8,
        ((x / 0x1_0000) % 0x100) as u8,
        ((x / 0x100_0000) % 0x100) as u8,
    ]
}

/// The eight little-endian bytes of a 64-bit value.
pub open spec fn le64_bytes(x: int) -> Seq<u8> {
    le32_bytes(x % 0x1_0000_0000) + le32_bytes(x / 0x1_0000_0000)
}

/// Append `x` to `out` as four little-endian bytes.
pub fn put_le32(out: &mut Vec<u8>, x: u32)
    ensures
        final(out).len() == old(out).len() + 4,
        final(out)@.take(old(out).len() as int) == old(out)@,
        le32_at(final(out)@, old(out).len() as int) == x,
        final(out)@ == old(out)@ + le32_bytes(x as int),
{
    proof {
        lemma_le32_bytes(x);
    }
    out.push((x % 0x100) as u8);
    out.push(((x / 0x100) % 0x100) as u8);
    out.push(((x / 0x1_0000) % 0x100) as u8);
    out.push((x / 0x100_0000) as u8);
    proof {
        assert(x / 0x100_0000 == (x / 0x100_0000) % 0x100) by (bit_vector);
        assert(final(out)@.take(old(out).len() as int) =~= old(out)@);
        assert(final(out)@ =~= old(out)@ + le32_bytes(x as int));
    }
}

/// Append `x` to `out` as eight little-endian bytes.
pub fn put_le64(out: &mut Vec<u8>, x: u64)
    ensures
        final(out).len() == old(out).len() + 8,
        final(out)@.take(old(out).len() as int) == old(out)@,
        le64_at(final(out)@, old(out).len() as int) == x,
        final(out)@ == old(out)@ + le64_bytes(x as int),
{
    let lo: u32 = (x % 0x1_0000_0000) as u32;
    let hi: u32 = (x / 0x1_0000_0000) as u32;
    proof {
        assert(x == (x % 0x1_0000_0000) + 0x1_0000_0000 * (x / 0x1_0000_0000)) by (bit_vector);
        assert(x / 0x1_0000_0000 < 0x1_0000_0000) by (bit_vector);
    }
    put_le32(out, lo);
    put_le32(out, hi);
    proof {
        assert(final(out)@.take(old(out).len() as int) =~= old(out)@);
        assert(final(out)@ =~= old(out)@ + le64_bytes(x as int));
    }
}

/// The two big-endian bytes of a 16-bit value.
pub open spec fn be16_bytes(x: int) -> Seq<u8> {
    seq![((x / 0x100) % 0x100) as u8, (x % 0x100) as u8]
}

/// The four big-endian bytes of a 32-bit value.
pub open spec fn be32_bytes(x: int) -> Seq<u8> {
    seq![
        ((x / 0x100_0000) % 0x100) as u8,
        ((x / 0x1_0000) % 0x100) as u8,
        ((x / 0x100) % 0x100) as u8,
        (x % 0x100) as u8,
    ]
}

/// Append `x` to `out` as two big-endian bytes.
pub fn put_be16(out: &mut Vec<u8>, x: u16)
    ensures
        final(out).len() == old(out).len() + 2,
        final(out)@.take(old(out).len() as int) == old(out)@,
        be16_at(final(out)@, old(out).len() as int) == x,
        final(out)@ == old(out)@ + be16_bytes(x as int),
{
    proof {
        assert(x == 0x100 * (x / 0x100) + (x % 0x100)) by (bit_vector);
        assert(x / 0x100 < 0x100) by (bit_vector);
    }
    out.push((x / 0x100) as u8);
    out.push((x % 0x100) as u8);
    proof {
        assert(x / 0x100 == (x / 0x100) % 0x100) by (bit_vector);
        assert(final(out)@.take(old(out).len() as int) =~= old(out)@);
        assert(final(out)@ =~= old(out)@ + be16_bytes(x as int));
    }
}

/// Append `x` to `out` as four big-endian bytes.
pub fn put_be32(out: &mut Vec<u8>, x: u32)
    ensures
        final(out).len() == old(out).len() + 4,
        final(out)@.take(old(out).len() as int) == old(out)@,
        be32_at(final(out)@, old(out).len() as int) == x,
        final(out)@ == old(out)@ + be32_bytes(x as int),
{
    proof {
        lemma_le32_bytes(x);
    }
    out.push((x / 0x100_0000) as u8);
    out.push(((x / 0x1_0000) % 0x100) as u8);
    out.push(((x / 0x100) % 0x100) as u8);
    out.push((x % 0x100) as u8);
    proof {
        assert(x / 0x100_0000 == (x / 0x100_0000) % 0x100) by (bit_vector);
        assert(final(out)@.take(old(out).len() as int) =~= old(out)@);
        assert(final(out)@ =~= old(out)@ + be32_bytes(x as int));
    }
}

/// `s` with the bytes starting at `off` replaced by `d`.
pub open spec fn splice(s: Seq<u8>, off: int, d: Seq<u8>) -> Seq<u8> {
    s.take(off) + d + s.skip(off + d.len())
}

/// Copy of the bytes `[off, off + len)` of `src`.
pub fn sub_bytes(src: &Vec<u8>, off: usize, len: usize) -> (r: Vec<u8>)
    requires
        off + len <= src.len(),
    ensures
        r@ == src@.subrange(off as int, off + len),
{
    let mut r: Vec<u8> = Vec::new();
    let mut i: usize = 0;
    while i < len
        invariant
            i <= len,
            off + len <= src.len(),
            r@ == src@.subrange(off as int, off + i),
        decreases len - i,
    {
        r.push(src[off + i]);
        i = i + 1;
        proof {
            assert(r@ =~= src@.subrange(off as int, off + i));
        }
    }
    r
}

/// Overwrite the bytes of `dst` starting at `off` with `src`.
pub fn copy_range(dst: &mut Vec<u8>, off: usize, src: &Vec<u8>)
    requires
        off + src.len() <= old(dst).len(),
    ensures
        final(dst).len() == old(dst).len(),
        final(dst)@ == splice(old(dst)@, off as int, src@),
{
    let mut i: usize = 0;
    while i < src.len()
        invariant
            i <= src.len(),
            off + src.len() <= dst.len(),
            dst.len() == old(dst).len(),
            forall|k: int| 0 <= k < off + i ==> dst@[k] == splice(old(dst)@, off as int, src@)[k],
            forall|k: int| off + i <= k < dst.len() ==> dst@[k] == old(dst)@[k],
        decreases src.len() - i,
    {
        dst.set(off + i, src[i]);
        i = i + 1;
    }
    proof {
        assert(dst@ =~= splice(old(dst)@, off as int, src@));
    }
}

/// A byte vector's deep view is its view.
pub proof fn lemma_bytes_deep_view(v: Vec<u8>)
    ensures
        v.deep_view() == v@,
{
    assert(v.deep_view() =~= v@);
}

/// A 32-bit value is the sum of its four bytes at their place values.
proof fn lemma_le32_bytes(x: u32)
    by (bit_vector)
    ensures
        x == (x % 0x100) + 0x100 * ((x / 0x100) % 0x100) + 0x1_0000 * ((x / 0x1_0000) % 0x100)
            + 0x100_0000 * (x / 0x100_0000),
        x / 0x100_0000 < 0x100,
{
}

} // verus!
