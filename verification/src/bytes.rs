//! Fixed-width integers in byte sequences, in either byte order.
use vstd::prelude::*;

verus! {

/// The bytes of `x`, lowest first.
pub open spec fn le16(x: u16) -> Seq<u8> {
    seq![(x % 256) as u8, (x / 256) as u8]
}

/// The bytes of `x`, lowest first.
pub open spec fn le32(x: u32) -> Seq<u8> {
    seq![
        (x % 256) as u8,
        (x / 0x100 % 256) as u8,
        (x / 0x1_0000 % 256) as u8,
        (x / 0x100_0000) as u8,
    ]
}

/// The bytes of `x`, highest first.
pub open spec fn be16(x: u16) -> Seq<u8> {
    seq![(x / 256) as u8, (x % 256) as u8]
}

/// The bytes of `x`, highest first.
pub open spec fn be32(x: u32) -> Seq<u8> {
    seq![
        (x / 0x100_0000) as u8,
        (x / 0x1_0000 % 256) as u8,
        (x / 0x100 % 256) as u8,
        (x % 256) as u8,
    ]
}

/// The bytes of `x`, highest first.
pub open spec fn be64(x: u64) -> Seq<u8> {
    be32((x / 0x1_0000_0000) as u32) + be32((x % 0x1_0000_0000) as u32)
}

/// The number whose bytes stand at `i`, lowest first.
pub open spec fn le16_at(s: Seq<u8>, i: int) -> u16 {
    (s[i] + s[i + 1] * 256) as u16
}

/// The number whose bytes stand at `i`, lowest first.
pub open spec fn le32_at(s: Seq<u8>, i: int) -> u32 {
    (s[i] + s[i + 1] * 0x100 + s[i + 2] * 0x1_0000 + s[i + 3] * 0x100_0000) as u32
}

/// The number whose bytes stand at `i`, highest first.
pub open spec fn be16_at(s: Seq<u8>, i: int) -> u16 {
    (s[i] * 256 + s[i + 1]) as u16
}

/// The number whose bytes stand at `i`, highest first.
pub open spec fn be32_at(s: Seq<u8>, i: int) -> u32 {
    (s[i] * 0x100_0000 + s[i + 1] * 0x1_0000 + s[i + 2] * 0x100 + s[i + 3]) as u32
}

/// The number whose bytes stand at `i`, highest first.
pub open spec fn be64_at(s: Seq<u8>, i: int) -> u64 {
    (be32_at(s, i) * 0x1_0000_0000 + be32_at(s, i + 4)) as u64
}

/// Lowest byte first means that each byte counts 256 times the one before it,
/// highest first that it counts 256 times the one behind it.
pub proof fn law_byte_order(x: u16, y: u32, z: u64)
    ensures
        le16(x).len() == 2 && le16(x)[0] + 256 * le16(x)[1] == x,
        be16(x).len() == 2 && 256 * be16(x)[0] + be16(x)[1] == x,
        le32(y).len() == 4 && le32(y)[0] + 256 * (le32(y)[1] + 256 * (le32(y)[2] + 256 * le32(
            y,
        )[3])) == y,
        be32(y).len() == 4 && 256 * (256 * (256 * be32(y)[0] + be32(y)[1]) + be32(y)[2]) + be32(
            y,
        )[3] == y,
        be64(z).len() == 8 && 4_294_967_296 * (256 * (256 * (256 * be64(z)[0] + be64(z)[1]) + be64(
            z,
        )[2]) + be64(z)[3]) + 256 * (256 * (256 * be64(z)[4] + be64(z)[5]) + be64(z)[6]) + be64(
            z,
        )[7] == z,
{
}

/// Reading back what was written gives the number written.
pub proof fn law_little_endian_roundtrip(s: Seq<u8>, i: int, x: u16, y: u32)
    requires
        0 <= i,
    ensures
        i + 2 <= s.len() && s.subrange(i, i + 2) == le16(x) ==> le16_at(s, i) == x,
        i + 4 <= s.len() && s.subrange(i, i + 4) == le32(y) ==> le32_at(s, i) == y,
{
    if i + 2 <= s.len() && s.subrange(i, i + 2) == le16(x) {
        let t = s.subrange(i, i + 2);
        assert(t[0] == s[i] && t[1] == s[i + 1]);
    }
    if i + 4 <= s.len() && s.subrange(i, i + 4) == le32(y) {
        let t = s.subrange(i, i + 4);
        assert(t[0] == s[i] && t[1] == s[i + 1] && t[2] == s[i + 2] && t[3] == s[i + 3]);
    }
}

/// Reading back what was written gives the number written.
pub proof fn law_big_endian_roundtrip(s: Seq<u8>, i: int, x: u16, y: u32, z: u64)
    requires
        0 <= i,
    ensures
        i + 2 <= s.len() && s.subrange(i, i + 2) == be16(x) ==> be16_at(s, i) == x,
        i + 4 <= s.len() && s.subrange(i, i + 4) == be32(y) ==> be32_at(s, i) == y,
        i + 8 <= s.len() && s.subrange(i, i + 8) == be64(z) ==> be64_at(s, i) == z,
{
    if i + 2 <= s.len() && s.subrange(i, i + 2) == be16(x) {
        let t = s.subrange(i, i + 2);
        assert(t[0] == s[i] && t[1] == s[i + 1]);
    }
    if i + 4 <= s.len() && s.subrange(i, i + 4) == be32(y) {
        lemma_be32_at(s, i, y);
    }
    if i + 8 <= s.len() && s.subrange(i, i + 8) == be64(z) {
        let t = s.subrange(i, i + 8);
        let hi = (z / 0x1_0000_0000) as u32;
        let lo = (z % 0x1_0000_0000) as u32;
        assert(s.subrange(i, i + 4) =~= be32(hi)) by {
            assert(s.subrange(i, i + 4) =~= t.take(4));
            assert(t.take(4) =~= be32(hi));
        }
        assert(s.subrange(i + 4, i + 8) =~= be32(lo)) by {
            assert(s.subrange(i + 4, i + 8) =~= t.skip(4));
            assert(t.skip(4) =~= be32(lo));
        }
        lemma_be32_at(s, i, hi);
        lemma_be32_at(s, i + 4, lo);
    }
}

proof fn lemma_be32_at(s: Seq<u8>, i: int, y: u32)
    requires
        0 <= i,
        i + 4 <= s.len(),
        s.subrange(i, i + 4) == be32(y),
    ensures
        be32_at(s, i) == y,
{
    let t = s.subrange(i, i + 4);
    assert(t[0] == s[i] && t[1] == s[i + 1] && t[2] == s[i + 2] && t[3] == s[i + 3]);
}

pub(crate) fn push_le16(out: &mut Vec<u8>, x: u16)
    ensures
        final(out)@ == old(out)@ + le16(x),
{
    out.push((x % 256) as u8);
    out.push((x / 256) as u8);
    assert(out@ =~= old(out)@ + le16(x));
}

pub(crate) fn push_le32(out: &mut Vec<u8>, x: u32)
    ensures
        final(out)@ == old(out)@ + le32(x),
{
    out.push((x % 256) as u8);
    out.push((x / 0x100 % 256) as u8);
    out.push((x / 0x1_0000 % 256) as u8);
    out.push((x / 0x100_0000) as u8);
    assert(out@ =~= old(out)@ + le32(x));
}

pub(crate) fn push_be16(out: &mut Vec<u8>, x: u16)
    ensures
        final(out)@ == old(out)@ + be16(x),
{
    out.push((x / 256) as u8);
    out.push((x % 256) as u8);
    assert(out@ =~= old(out)@ + be16(x));
}

pub(crate) fn push_be32(out: &mut Vec<u8>, x: u32)
    ensures
        final(out)@ == old(out)@ + be32(x),
{
    out.push((x / 0x100_0000) as u8);
    out.push((x / 0x1_0000 % 256) as u8);
    out.push((x / 0x100 % 256) as u8);
    out.push((x % 256) as u8);
    assert(out@ =~= old(out)@ + be32(x));
}

pub(crate) fn push_be64(out: &mut Vec<u8>, x: u64)
    ensures
        final(out)@ == old(out)@ + be64(x),
{
    push_be32(out, (x / 0x1_0000_0000) as u32);
    push_be32(out, (x % 0x1_0000_0000) as u32);
    assert(out@ =~= old(out)@ + be64(x));
}

pub(crate) fn read_le16(s: &[u8], i: usize) -> (x: u16)
    requires
        i + 2 <= s@.len(),
    ensures
        x == le16_at(s@, i as int),
{
    s[i] as u16 + s[i + 1] as u16 * 256
}

pub(crate) fn read_le32(s: &[u8], i: usize) -> (x: u32)
    requires
        i + 4 <= s@.len(),
    ensures
        x == le32_at(s@, i as int),
{
    s[i] as u32 + s[i + 1] as u32 * 0x100 + s[i + 2] as u32 * 0x1_0000 + s[i + 3] as u32
        * 0x100_0000
}

pub(crate) fn read_be16(s: &[u8], i: usize) -> (x: u16)
    requires
        i + 2 <= s@.len(),
    ensures
        x == be16_at(s@, i as int),
{
    s[i] as u16 * 256 + s[i + 1] as u16
}

pub(crate) fn read_be32(s: &[u8], i: usize) -> (x: u32)
    requires
        i + 4 <= s@.len(),
    ensures
        x == be32_at(s@, i as int),
{
    s[i] as u32 * 0x100_0000 + s[i + 1] as u32 * 0x1_0000 + s[i + 2] as u32 * 0x100 + s[i + 3] as u32
}

pub(crate) fn read_be64(s: &[u8], i: usize) -> (x: u64)
    requires
        i + 8 <= s@.len(),
    ensures
        x == be64_at(s@, i as int),
{
    assert(i + 8 <= s.len());
    read_be32(s, i) as u64 * 0x1_0000_0000 + read_be32(s, i + 4) as u64
}

/// Whether `a` and `b` hold the same bytes.
pub(crate) fn same_bytes(a: &[u8], b: &[u8]) -> (r: bool)
    ensures
        r == (a@ == b@),
{
    if a.len() != b.len() {
        return false;
    }
    let mut i: usize = 0;
    while i < a.len()
        invariant
            a@.len() == b@.len(),
            i <= a@.len(),
            forall|j: int| 0 <= j < i ==> a@[j] == b@[j],
        decreases a@.len() - i,
    {
        if a[i] != b[i] {
            assert(a@[i as int] != b@[i as int]);
            return false;
        }
        i += 1;
    }
    assert(a@ =~= b@);
    true
}

/// Appends `src` to `out`.
pub(crate) fn extend(out: &mut Vec<u8>, src: &[u8])
    ensures
        final(out)@ == old(out)@ + src@,
{
    out.extend_from_slice(src);
    assert(out@ =~= old(out)@ + src@);
}

} // verus!
