//! Big-endian integers and byte copies on slices.

use vstd::prelude::*;

verus! {

/// The unsigned 32-bit integer that the first four bytes of `s` encode,
/// most significant byte first.
#[verifier::opaque]
pub open spec fn be_u32(s: Seq<u8>) -> u32
    recommends
        s.len() >= 4,
{
    (s[0] as int * 0x100_0000 + s[1] as int * 0x1_0000 + s[2] as int * 0x100 + s[3] as int) as u32
}

/// The four bytes that encode `x`, most significant byte first.
#[verifier::opaque]
pub open spec fn u32_be(x: u32) -> Seq<u8> {
    seq![
        (x as int / 0x100_0000) as u8,
        (x as int / 0x1_0000 % 0x100) as u8,
        (x as int / 0x100 % 0x100) as u8,
        (x as int % 0x100) as u8,
    ]
}

/// The unsigned 64-bit integer that the first eight bytes of `s` encode,
/// most significant byte first.
#[verifier::opaque]
pub open spec fn be_u64(s: Seq<u8>) -> u64
    recommends
        s.len() >= 8,
{
    (be_u32(s.subrange(0, 4)) as int * 0x1_0000_0000 + be_u32(s.subrange(4, 8)) as int) as u64
}

/// The eight bytes that encode `x`, most significant byte first.
#[verifier::opaque]
pub open spec fn u64_be(x: u64) -> Seq<u8> {
    u32_be((x as int / 0x1_0000_0000) as u32) + u32_be((x as int % 0x1_0000_0000) as u32)
}

/// Decoding undoes encoding, for 32-bit integers, whatever follows the four bytes.
pub proof fn lemma_be_u32_of_u32_be(x: u32, rest: Seq<u8>)
    ensures
        u32_be(x).len() == 4,
        be_u32(u32_be(x) + rest) == x,
{
    reveal(be_u32);
    reveal(u32_be);
    let s = u32_be(x) + rest;
    assert(s[0] == u32_be(x)[0]);
    assert(s[1] == u32_be(x)[1]);
    assert(s[2] == u32_be(x)[2]);
    assert(s[3] == u32_be(x)[3]);
}

/// A 32-bit integer takes four bytes.
pub proof fn lemma_u32_be_len(x: u32)
    ensures
        u32_be(x).len() == 4,
{
    reveal(u32_be);
}

/// A 64-bit integer takes eight bytes.
pub proof fn lemma_u64_be_len(x: u64)
    ensures
        u64_be(x).len() == 8,
{
    reveal(u64_be);
    lemma_u32_be_len((x as int / 0x1_0000_0000) as u32);
    lemma_u32_be_len((x as int % 0x1_0000_0000) as u32);
}

/// Decoding undoes encoding, for 64-bit integers, whatever follows the eight bytes.
pub proof fn lemma_be_u64_of_u64_be(x: u64, rest: Seq<u8>)
    ensures
        u64_be(x).len() == 8,
        be_u64(u64_be(x) + rest) == x,
{
    reveal(be_u64);
    reveal(u64_be);
    let hi = (x as int / 0x1_0000_0000) as u32;
    let lo = (x as int % 0x1_0000_0000) as u32;
    let s = u64_be(x) + rest;
    lemma_be_u32_of_u32_be(hi, Seq::empty());
    lemma_be_u32_of_u32_be(lo, Seq::empty());
    assert(s.subrange(0, 4) =~= u32_be(hi) + Seq::<u8>::empty());
    assert(s.subrange(4, 8) =~= u32_be(lo) + Seq::<u8>::empty());
}

/// Reads the big-endian 32-bit integer at `at`.
pub fn read_u32(buf: &[u8], at: usize) -> (x: u32)
    requires
        at + 4 <= buf.len(),
    ensures
        x == be_u32(buf@.subrange(at as int, at + 4)),
{
    proof {
        reveal(be_u32);
    }
    let b0 = buf[at] as u32;
    let b1 = buf[at + 1] as u32;
    let b2 = buf[at + 2] as u32;
    let b3 = buf[at + 3] as u32;
    b0 * 0x100_0000 + b1 * 0x1_0000 + b2 * 0x100 + b3
}

/// Reads the big-endian 64-bit integer at `at`.
pub fn read_u64(buf: &[u8], at: usize) -> (x: u64)
    requires
        at + 8 <= buf.len(),
    ensures
        x == be_u64(buf@.subrange(at as int, at + 8)),
{
    let hi = read_u32(buf, at) as u64;
    let lo = read_u32(buf, at + 4) as u64;
    proof {
        reveal(be_u64);
        let s = buf@.subrange(at as int, at + 8);
        assert(s.subrange(0, 4) =~= buf@.subrange(at as int, at + 4));
        assert(s.subrange(4, 8) =~= buf@.subrange(at + 4, at + 8));
    }
    hi * 0x1_0000_0000 + lo
}

/// `dst` with the bytes `src` laid over it from `at` on.
pub open spec fn overlay(dst: Seq<u8>, at: int, src: Seq<u8>) -> Seq<u8>
    recommends
        0 <= at,
        at + src.len() <= dst.len(),
{
    dst.subrange(0, at) + src + dst.subrange(at + src.len(), dst.len() as int)
}

/// Writes `x` at `at`, most significant byte first.
pub fn write_u32(buf: &mut [u8], at: usize, x: u32)
    requires
        at + 4 <= old(buf).len(),
    ensures
        final(buf)@ == overlay(old(buf)@, at as int, u32_be(x)),
{
    buf[at] = (x / 0x100_0000) as u8;
    buf[at + 1] = (x / 0x1_0000 % 0x100) as u8;
    buf[at + 2] = (x / 0x100 % 0x100) as u8;
    buf[at + 3] = (x % 0x100) as u8;
    proof {
        reveal(u32_be);
    }
    assert(buf@ =~= overlay(old(buf)@, at as int, u32_be(x)));
}

/// Writes `x` at `at`, most significant byte first.
pub fn write_u64(buf: &mut [u8], at: usize, x: u64)
    requires
        at + 8 <= old(buf).len(),
    ensures
        final(buf)@ == overlay(old(buf)@, at as int, u64_be(x)),
{
    let hi = (x / 0x1_0000_0000) as u32;
    let lo = (x % 0x1_0000_0000) as u32;
    write_u32(buf, at, hi);
    write_u32(buf, at + 4, lo);
    proof {
        reveal(u64_be);
        lemma_be_u32_of_u32_be(hi, Seq::empty());
        lemma_be_u32_of_u32_be(lo, Seq::empty());
    }
    assert(buf@ =~= overlay(old(buf)@, at as int, u64_be(x)));
}

/// Copies `src` into `dst` from `at` on.
pub fn copy_into(dst: &mut [u8], at: usize, src: &[u8])
    requires
        at + src.len() <= old(dst).len(),
    ensures
        final(dst)@ == overlay(old(dst)@, at as int, src@),
{
    let n = src.len();
    let mut i: usize = 0;
    while i < n
        invariant
            n == src@.len(),
            i <= n,
            dst.len() == old(dst).len(),
            at + n <= dst.len(),
            dst@ == overlay(old(dst)@, at as int, src@.subrange(0, i as int)),
        decreases n - i,
    {
        dst[at + i] = src[i];
        i += 1;
        assert(dst@ =~= overlay(old(dst)@, at as int, src@.subrange(0, i as int)));
    }
    assert(src@.subrange(0, n as int) =~= src@);
}

/// Whether two byte strings are equal.
pub fn bytes_eq(a: &[u8], b: &[u8]) -> (same: bool)
    ensures
        same == (a@ == b@),
{
    if a.len() != b.len() {
        return false;
    }
    let n = a.len();
    let mut i: usize = 0;
    while i < n
        invariant
            n == a@.len(),
            n == b@.len(),
            i <= n,
            a@.subrange(0, i as int) == b@.subrange(0, i as int),
        decreases n - i,
    {
        if a[i] != b[i] {
            return false;
        }
        i += 1;
        assert(a@.subrange(0, i as int) =~= a@.subrange(0, i - 1).push(a@[i - 1]));
        assert(b@.subrange(0, i as int) =~= b@.subrange(0, i - 1).push(b@[i - 1]));
    }
    assert(a@.subrange(0, n as int) =~= a@);
    assert(b@.subrange(0, n as int) =~= b@);
    true
}

} // verus!
