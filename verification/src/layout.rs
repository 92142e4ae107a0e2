//! Fixed-width little-endian integers, the building blocks of the byte
//! layout of rows and nodes.

use vstd::prelude::*;

verus! {

/// The size of a page of the backing file, in bytes.
pub const PAGE_SIZE: usize = 4096;

/// The four bytes of `x`, least significant first.
#[verifier::opaque]
pub open spec fn u32_bytes(x: u32) -> Seq<u8> {
    seq![
        (x % 256) as u8,
        ((x / 256) % 256) as u8,
        ((x / 65536) % 256) as u8,
        ((x / 16777216) % 256) as u8,
    ]
}

/// The number that the first four bytes of `b` spell, least significant
/// first.
#[verifier::opaque]
pub open spec fn u32_value(b: Seq<u8>) -> u32
    recommends
        b.len() >= 4,
{
    (b[0] as int + 256 * (b[1] as int) + 65536 * (b[2] as int) + 16777216 * (b[3] as int)) as u32
}

/// The eight bytes of `x`, least significant first.
#[verifier::opaque]
pub open spec fn u64_bytes(x: u64) -> Seq<u8> {
    u32_bytes((x % 4294967296) as u32) + u32_bytes((x / 4294967296) as u32)
}

/// The number that the first eight bytes of `b` spell, least significant
/// first.
#[verifier::opaque]
pub open spec fn u64_value(b: Seq<u8>) -> u64
    recommends
        b.len() >= 8,
{
    (u32_value(b.subrange(0, 4)) as int + 4294967296 * (u32_value(b.subrange(4, 8)) as int)) as u64
}

/// Reading back the bytes of a 32-bit number gives the number.
pub proof fn lemma_u32_round_trip(x: u32)
    ensures
        u32_bytes(x).len() == 4,
        u32_value(u32_bytes(x)) == x,
{
    reveal(u32_bytes);
    reveal(u32_value);
    reveal(u64_bytes);
    reveal(u64_value);
}

/// Writing out the number that four bytes spell gives the four bytes.
pub proof fn lemma_u32_bytes_of_value(b: Seq<u8>)
    requires
        b.len() == 4,
    ensures
        u32_bytes(u32_value(b)) == b,
{
    reveal(u32_bytes);
    reveal(u32_value);
    reveal(u64_bytes);
    reveal(u64_value);
    let b0 = b[0] as int;
    let b1 = b[1] as int;
    let b2 = b[2] as int;
    let b3 = b[3] as int;
    let v = b0 + 256 * b1 + 65536 * b2 + 16777216 * b3;
    assert(v == u32_value(b) as int);
    assert(v % 256 == b0 && v / 256 == b1 + 256 * b2 + 65536 * b3);
    assert((v / 256) % 256 == b1);
    assert(v / 65536 == b2 + 256 * b3 && (v / 65536) % 256 == b2);
    assert(v / 16777216 == b3);
    assert(u32_bytes(u32_value(b)) =~= b);
}

/// Reading back the bytes of a 64-bit number gives the number.
pub proof fn lemma_u64_round_trip(x: u64)
    ensures
        u64_bytes(x).len() == 8,
        u64_value(u64_bytes(x)) == x,
{
    reveal(u64_bytes);
    reveal(u64_value);
    let lo = (x % 4294967296) as u32;
    let hi = (x / 4294967296) as u32;
    lemma_u32_round_trip(lo);
    lemma_u32_round_trip(hi);
    assert(u64_bytes(x).subrange(0, 4) =~= u32_bytes(lo));
    assert(u64_bytes(x).subrange(4, 8) =~= u32_bytes(hi));
}

/// Writing out the number that eight bytes spell gives the eight bytes.
pub proof fn lemma_u64_bytes_of_value(b: Seq<u8>)
    requires
        b.len() == 8,
    ensures
        u64_bytes(u64_value(b)) == b,
{
    reveal(u64_bytes);
    reveal(u64_value);
    let lo = u32_value(b.subrange(0, 4));
    let hi = u32_value(b.subrange(4, 8));
    lemma_u32_bytes_of_value(b.subrange(0, 4));
    lemma_u32_bytes_of_value(b.subrange(4, 8));
    let v = lo as int + 4294967296 * (hi as int);
    assert(v == u64_value(b) as int);
    assert(v % 4294967296 == lo as int && v / 4294967296 == hi as int);
    assert(u64_bytes(u64_value(b)) =~= b.subrange(0, 4) + b.subrange(4, 8));
    assert(b.subrange(0, 4) + b.subrange(4, 8) =~= b);
}

/// Four zero bytes spell zero.
pub proof fn lemma_zero_u32(b: Seq<u8>)
    requires
        b.len() >= 4,
        forall|i: int| 0 <= i < 4 ==> b[i] == 0,
    ensures
        u32_value(b) == 0,
{
    reveal(u32_value);
}

/// Eight zero bytes spell zero.
pub proof fn lemma_zero_u64(b: Seq<u8>)
    requires
        b.len() >= 8,
        forall|i: int| 0 <= i < 8 ==> b[i] == 0,
    ensures
        u64_value(b) == 0,
{
    reveal(u64_value);
    lemma_zero_u32(b.subrange(0, 4));
    lemma_zero_u32(b.subrange(4, 8));
}

/// Appends the four bytes of `x` to `out`.
pub fn put_u32(out: &mut Vec<u8>, x: u32)
    ensures
        final(out)@ == old(out)@ + u32_bytes(x),
{
    proof {
        reveal(u32_bytes);
        reveal(u32_value);
        reveal(u64_bytes);
        reveal(u64_value);
    }
    out.push((x % 256) as u8);
    out.push(((x / 256) % 256) as u8);
    out.push(((x / 65536) % 256) as u8);
    out.push(((x / 16777216) % 256) as u8);
    assert(out@ =~= old(out)@ + u32_bytes(x));
}

/// Appends the eight bytes of `x` to `out`.
pub fn put_u64(out: &mut Vec<u8>, x: u64)
    ensures
        final(out)@ == old(out)@ + u64_bytes(x),
{
    proof {
        reveal(u64_bytes);
        reveal(u64_value);
    }
    put_u32(out, (x % 4294967296) as u32);
    put_u32(out, (x / 4294967296) as u32);
    assert(out@ =~= old(out)@ + u64_bytes(x));
}

/// Appends `src` to `out`.
pub fn put_bytes(out: &mut Vec<u8>, src: &[u8])
    ensures
        final(out)@ == old(out)@ + src@,
{
    let n: usize = src.len();
    let mut i: usize = 0;
    while i < n
        invariant
            n == src@.len(),
            i <= n,
            out@ == old(out)@ + src@.subrange(0, i as int),
        decreases n - i,
    {
        out.push(src[i]);
        i += 1;
        assert(out@ =~= old(out)@ + src@.subrange(0, i as int));
    }
    assert(src@.subrange(0, n as int) =~= src@);
}

/// Reads the 32-bit number that starts at `at`.
pub fn get_u32(bytes: &[u8], at: usize) -> (x: u32)
    requires
        at + 4 <= bytes@.len(),
    ensures
        x == u32_value(bytes@.subrange(at as int, at + 4)),
{
    proof {
        reveal(u32_bytes);
        reveal(u32_value);
        reveal(u64_bytes);
        reveal(u64_value);
    }
    let b0: u32 = bytes[at] as u32;
    let b1: u32 = bytes[at + 1] as u32;
    let b2: u32 = bytes[at + 2] as u32;
    let b3: u32 = bytes[at + 3] as u32;
    b0 + 256 * b1 + 65536 * b2 + 16777216 * b3
}

/// Reads the 64-bit number that starts at `at`.
pub fn get_u64(bytes: &[u8], at: usize) -> (x: u64)
    requires
        at + 8 <= bytes@.len(),
    ensures
        x == u64_value(bytes@.subrange(at as int, at + 8)),
{
    proof {
        reveal(u64_bytes);
        reveal(u64_value);
    }
    let len: usize = bytes.len();
    let lo: u64 = get_u32(bytes, at) as u64;
    let hi: u64 = get_u32(bytes, at + 4) as u64;
    proof {
        let b = bytes@.subrange(at as int, at + 8);
        assert(b.subrange(0, 4) =~= bytes@.subrange(at as int, at + 4));
        assert(b.subrange(4, 8) =~= bytes@.subrange(at + 4, at + 8));
    }
    lo + 4294967296 * hi
}

} // verus!
