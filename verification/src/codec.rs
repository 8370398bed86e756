//! Fixed-width little-endian integers in byte sequences.

use vstd::prelude::*;

verus! {

/// The four bytes of `x`, least significant first.
#[verifier::opaque]
pub open spec fn le32(x: u32) -> Seq<u8> {
    seq![
        (x % 256) as u8,
        ((x / 256) % 256) as u8,
        ((x / 65536) % 256) as u8,
        ((x / 16777216) % 256) as u8,
    ]
}

/// The number whose four bytes, least significant first, stand at `at` in `s`.
#[verifier::opaque]
pub open spec fn read_le32(s: Seq<u8>, at: int) -> int {
    s[at] + 256 * s[at + 1] + 65536 * s[at + 2] + 16777216 * s[at + 3]
}

/// The eight bytes of `x`, least significant first.
#[verifier::opaque]
pub open spec fn le64(x: u64) -> Seq<u8> {
    le32((x % 4294967296) as u32) + le32((x / 4294967296) as u32)
}

/// The number whose eight bytes, least significant first, stand at `at` in `s`.
#[verifier::opaque]
pub open spec fn read_le64(s: Seq<u8>, at: int) -> int {
    read_le32(s, at) + 4294967296 * read_le32(s, at + 4)
}

/// A 32-bit number has four bytes.
pub broadcast proof fn lemma_le32_len(x: u32)
    ensures
        (#[trigger] le32(x)).len() == 4,
{
    reveal(le32);
}

/// A 64-bit number has eight bytes.
pub broadcast proof fn lemma_le64_len(x: u64)
    ensures
        (#[trigger] le64(x)).len() == 8,
{
    reveal(le32);
    reveal(le64);
}

/// Four bytes make a number of 32 bits.
pub broadcast proof fn lemma_read_le32_range(s: Seq<u8>, at: int)
    ensures
        0 <= #[trigger] read_le32(s, at) <= u32::MAX,
{
    reveal(read_le32);
}

/// Eight bytes make a number of 64 bits.
pub broadcast proof fn lemma_read_le64_range(s: Seq<u8>, at: int)
    ensures
        0 <= #[trigger] read_le64(s, at) <= u64::MAX,
{
    reveal(read_le32);
    reveal(read_le64);
}

/// Sizes and ranges of the byte codec.
pub broadcast group group_codec {
    lemma_le32_len,
    lemma_le64_len,
    lemma_read_le32_range,
    lemma_read_le64_range,
}

/// Reading four bytes gives back the number whose bytes they are.
pub proof fn lemma_le32_round_trip(s: Seq<u8>, at: int, x: u32)
    requires
        0 <= at,
        at + 4 <= s.len(),
        s.subrange(at, at + 4) == le32(x),
    ensures
        read_le32(s, at) == x,
{
    reveal(le32);
    reveal(read_le32);
    let t = s.subrange(at, at + 4);
    assert(t[0] == s[at] && t[1] == s[at + 1] && t[2] == s[at + 2] && t[3] == s[at + 3]);
}

/// Reading eight bytes gives back the number whose bytes they are.
pub proof fn lemma_le64_round_trip(s: Seq<u8>, at: int, x: u64)
    requires
        0 <= at,
        at + 8 <= s.len(),
        s.subrange(at, at + 8) == le64(x),
    ensures
        read_le64(s, at) == x,
{
    reveal(le32);
    reveal(le64);
    reveal(read_le64);
    let t = s.subrange(at, at + 8);
    assert(s.subrange(at, at + 4) =~= t.subrange(0, 4));
    assert(t.subrange(0, 4) =~= le32((x % 4294967296) as u32));
    assert(s.subrange(at + 4, at + 8) =~= t.subrange(4, 8));
    assert(t.subrange(4, 8) =~= le32((x / 4294967296) as u32));
    lemma_le32_round_trip(s, at, (x % 4294967296) as u32);
    lemma_le32_round_trip(s, at + 4, (x / 4294967296) as u32);
}

/// Appends the four bytes of `x` to `out`.
pub fn put_le32(out: &mut Vec<u8>, x: u32)
    ensures
        final(out)@ == old(out)@ + le32(x),
{
    proof {
        reveal(le32);
    }
    out.push((x % 256) as u8);
    out.push(((x / 256) % 256) as u8);
    out.push(((x / 65536) % 256) as u8);
    out.push(((x / 16777216) % 256) as u8);
    assert(out@ =~= old(out)@ + le32(x));
}

/// Appends the eight bytes of `x` to `out`.
pub fn put_le64(out: &mut Vec<u8>, x: u64)
    ensures
        final(out)@ == old(out)@ + le64(x),
{
    put_le32(out, (x % 4294967296) as u32);
    put_le32(out, (x / 4294967296) as u32);
    proof {
        reveal(le64);
    }
    assert(out@ =~= old(out)@ + le64(x));
}

/// Reads the four-byte number at `at`.
pub fn get_le32(s: &[u8], at: usize) -> (x: u32)
    requires
        at + 4 <= s@.len(),
    ensures
        x == read_le32(s@, at as int),
{
    proof {
        reveal(read_le32);
    }
    s[at] as u32 + 256 * (s[at + 1] as u32) + 65536 * (s[at + 2] as u32) + 16777216 * (s[at + 3] as u32)
}

/// Reads the eight-byte number at `at`.
pub fn get_le64(s: &[u8], at: usize) -> (x: u64)
    requires
        at + 8 <= s@.len(),
    ensures
        x == read_le64(s@, at as int),
{
    assert(s.len() == s@.len());
    let low: u32 = get_le32(s, at);
    let high: u32 = get_le32(s, at + 4);
    proof {
        reveal(read_le64);
    }
    low as u64 + 4294967296 * (high as u64)
}

/// Appends `more` to `out`.
pub fn append_bytes(out: &mut Vec<u8>, more: &[u8])
    ensures
        final(out)@ == old(out)@ + more@,
{
    out.extend_from_slice(more);
    assert(out@ =~= old(out)@ + more@);
}

/// A copy of the bytes of `s` from `from` up to `to`.
pub fn copy_range(s: &[u8], from: usize, to: usize) -> (out: Vec<u8>)
    requires
        from <= to <= s@.len(),
    ensures
        out@ == s@.subrange(from as int, to as int),
{
    let mut out: Vec<u8> = Vec::new();
    let mut i: usize = from;
    while i < to
        invariant
            from <= i <= to <= s@.len(),
            out@ == s@.subrange(from as int, i as int),
        decreases to - i,
    {
        out.push(s[i]);
        i = i + 1;
        assert(out@ =~= s@.subrange(from as int, i as int));
    }
    out
}

/// A copy of some bytes.
pub fn copy_bytes(s: &[u8]) -> (out: Vec<u8>)
    ensures
        out@ == s@,
{
    let out = copy_range(s, 0, s.len());
    assert(out@ =~= s@);
    out
}

/// Whether some bytes begin with others.
pub open spec fn bytes_begin_with(s: Seq<u8>, p: Seq<u8>) -> bool {
    p.len() <= s.len() && s.take(p.len() as int) == p
}

/// Whether some bytes begin with others.
pub fn has_prefix(s: &[u8], p: &[u8]) -> (r: bool)
    ensures
        r == bytes_begin_with(s@, p@),
{
    if p.len() > s.len() {
        return false;
    }
    let mut i: usize = 0;
    while i < p.len()
        invariant
            i <= p@.len() <= s@.len(),
            forall|j: int| 0 <= j < i ==> s@[j] == p@[j],
        decreases p@.len() - i,
    {
        if s[i] != p[i] {
            assert(s@.take(p@.len() as int)[i as int] != p@[i as int]);
            return false;
        }
        i = i + 1;
    }
    assert(s@.take(p@.len() as int) =~= p@);
    true
}

/// The bytes of a number weigh ever more: the first counts for itself, and each counts for 256
/// times as much as the one before it.
pub proof fn law_bytes_weigh_more_and_more(x: u32, y: u64)
    ensures
        le32(x).len() == 4,
        le32(x)[0] + 256 * le32(x)[1] + 65536 * le32(x)[2] + 16777216 * le32(x)[3] == x,
        le64(y).len() == 8,
        le64(y)[0] + 256 * le64(y)[1] + 65536 * le64(y)[2] + 16777216 * le64(y)[3] + 4294967296 * (
        le64(y)[4] + 256 * le64(y)[5] + 65536 * le64(y)[6] + 16777216 * le64(y)[7]) == y,
{
    lemma_le32_sum(x);
    lemma_le32_sum((y % 4294967296) as u32);
    lemma_le32_sum((y / 4294967296) as u32);
    reveal(le64);
    assert(y == 4294967296 * (y / 4294967296) + y % 4294967296);
}

/// The bytes of a 32-bit number, each with its weight, make the number.
proof fn lemma_le32_sum(x: u32)
    ensures
        le32(x).len() == 4,
        le32(x)[0] + 256 * le32(x)[1] + 65536 * le32(x)[2] + 16777216 * le32(x)[3] == x,
{
    reveal(le32);
    assert(x as int == x % 256 + 256 * ((x / 256) % 256) + 65536 * ((x / 65536) % 256) + 16777216
        * ((x / 16777216) % 256));
}

} // verus!
