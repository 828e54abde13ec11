//! Fixed-width integers as bytes, and the few buffer operations that the
//! page and row formats are built from.
//!
//! Integers are stored in the byte order of the machine. The order itself is
//! left abstract ([`vstd::endian::endianness`]); everything proved here holds
//! for either order.

use vstd::prelude::*;
use vstd::endian::{endianness, Endian};

verus! {

/// The four bytes of `x`, least significant first.
pub open spec fn u32_le(x: u32) -> Seq<u8> {
    seq![
        (x % 256) as u8,
        (x / 256 % 256) as u8,
        (x / 256 / 256 % 256) as u8,
        (x / 256 / 256 / 256) as u8,
    ]
}

/// The number whose four bytes, least significant first, are `s`.
pub open spec fn u32_of_le(s: Seq<u8>) -> u32 {
    (s[0] + 256 * (s[1] + 256 * (s[2] + 256 * s[3]))) as u32
}

/// The eight bytes of the two's-complement pattern `u`, least significant
/// first.
pub open spec fn u64_le(u: int) -> Seq<u8> {
    u32_le((u % 0x1_0000_0000) as u32) + u32_le((u / 0x1_0000_0000) as u32)
}

/// The pattern whose eight bytes, least significant first, are `s`.
pub open spec fn u64_of_le(s: Seq<u8>) -> int {
    u32_of_le(s.subrange(0, 4)) + 0x1_0000_0000 * u32_of_le(s.subrange(4, 8))
}

/// The two's-complement pattern of `x`: a number below 2^64.
pub open spec fn i64_pattern(x: i64) -> int {
    if x >= 0 {
        x as int
    } else {
        x + 0x1_0000_0000_0000_0000
    }
}

/// The signed number that the two's-complement pattern `u` stands for.
pub open spec fn i64_of_pattern(u: int) -> i64 {
    if u < 0x8000_0000_0000_0000 {
        u as i64
    } else {
        (u - 0x1_0000_0000_0000_0000) as i64
    }
}

/// Bytes given least significant first, put into the machine's order (and
/// back: the operation is its own inverse).
pub open spec fn native(s: Seq<u8>) -> Seq<u8> {
    match endianness() {
        Endian::Little => s,
        Endian::Big => s.reverse(),
    }
}

/// The stored form of a `u32`: four bytes in the machine's order.
pub open spec fn u32_bytes(x: u32) -> Seq<u8> {
    native(u32_le(x))
}

/// The `u32` that four stored bytes stand for.
pub open spec fn u32_value(s: Seq<u8>) -> u32 {
    u32_of_le(native(s))
}

/// The stored form of an `i64`: eight bytes in the machine's order.
pub open spec fn i64_bytes(x: i64) -> Seq<u8> {
    native(u64_le(i64_pattern(x)))
}

/// The `i64` that eight stored bytes stand for.
pub open spec fn i64_value(s: Seq<u8>) -> i64 {
    i64_of_pattern(u64_of_le(native(s)))
}

/// `s` with the bytes from `at` on replaced by `patch`.
pub open spec fn overwrite(s: Seq<u8>, at: int, patch: Seq<u8>) -> Seq<u8> {
    Seq::new(
        s.len(),
        |i: int|
            if at <= i < at + patch.len() {
                patch[i - at]
            } else {
                s[i]
            },
    )
}

/// `n` zero bytes.
pub open spec fn zeros(n: int) -> Seq<u8> {
    Seq::new(n as nat, |i: int| 0u8)
}

/// The least-significant-first bytes of a `u32` spell it, and four bytes
/// are the bytes of the number they spell.
pub proof fn lemma_u32_le(x: u32, s: Seq<u8>)
    ensures
        u32_le(x).len() == 4,
        u32_of_le(u32_le(x)) == x,
        s.len() == 4 ==> u32_le(u32_of_le(s)) == s,
{
}

/// Storing a `u32` and reading it back gives the same number.
pub proof fn lemma_u32_round_trip(x: u32)
    ensures
        u32_bytes(x).len() == 4,
        u32_value(u32_bytes(x)) == x,
{
    let s = u32_le(x);
    lemma_u32_le(x, s);
}

/// Four zero bytes stand for 0, and 0 is stored as four zero bytes.
pub proof fn lemma_u32_zero()
    ensures
        u32_value(zeros(4)) == 0,
        u32_bytes(0) == zeros(4),
{
}

/// Storing an `i64` and reading it back gives the same number.
pub proof fn lemma_i64_round_trip(x: i64)
    ensures
        i64_bytes(x).len() == 8,
        i64_value(i64_bytes(x)) == x,
{
    let u = i64_pattern(x);
    let lo = (u % 0x1_0000_0000) as u32;
    let hi = (u / 0x1_0000_0000) as u32;
    let s = u64_le(u);
    lemma_u32_le(lo, s);
    lemma_u32_le(hi, s);
}

/// `u32::to_ne_bytes`: the four bytes of `x` in the machine's order.
#[verifier::external_body]
fn u32_to_ne_bytes(x: u32) -> (b: [u8; 4])
    ensures
        b@ == u32_bytes(x),
{
    x.to_ne_bytes()
}

/// `u32::from_ne_bytes`: the number that four bytes in the machine's order
/// stand for.
#[verifier::external_body]
fn u32_from_ne_bytes(b: [u8; 4]) -> (x: u32)
    ensures
        x == u32_value(b@),
{
    u32::from_ne_bytes(b)
}

/// `i64::to_ne_bytes`: the eight bytes of the two's-complement pattern of
/// `x`, in the machine's order.
#[verifier::external_body]
fn i64_to_ne_bytes(x: i64) -> (b: [u8; 8])
    ensures
        b@ == i64_bytes(x),
{
    x.to_ne_bytes()
}

/// `i64::from_ne_bytes`: the signed number whose two's-complement pattern is
/// given by eight bytes in the machine's order.
#[verifier::external_body]
fn i64_from_ne_bytes(b: [u8; 8]) -> (x: i64)
    ensures
        x == i64_value(b@),
{
    i64::from_ne_bytes(b)
}

/// Reads the `u32` stored at `at`.
pub fn read_u32(buf: &[u8], at: usize) -> (x: u32)
    requires
        at + 4 <= buf@.len(),
    ensures
        x == u32_value(buf@.subrange(at as int, at + 4)),
{
    let b = [buf[at], buf[at + 1], buf[at + 2], buf[at + 3]];
    u32_from_ne_bytes(b)
}

/// Stores `x` at `at`; the other bytes stay.
pub fn write_u32(buf: &mut [u8], at: usize, x: u32)
    requires
        at + 4 <= old(buf)@.len(),
    ensures
        final(buf)@ == overwrite(old(buf)@, at as int, u32_bytes(x)),
{
    let b = u32_to_ne_bytes(x);
    proof {
        lemma_u32_round_trip(x);
    }
    buf[at] = b[0];
    buf[at + 1] = b[1];
    buf[at + 2] = b[2];
    buf[at + 3] = b[3];
}

/// Reads the `i64` stored at `at`.
pub fn read_i64(buf: &[u8], at: usize) -> (x: i64)
    requires
        at + 8 <= buf@.len(),
    ensures
        x == i64_value(buf@.subrange(at as int, at + 8)),
{
    let b = [
        buf[at],
        buf[at + 1],
        buf[at + 2],
        buf[at + 3],
        buf[at + 4],
        buf[at + 5],
        buf[at + 6],
        buf[at + 7],
    ];
    i64_from_ne_bytes(b)
}

/// Stores `x` at `at`; the other bytes stay.
pub fn write_i64(buf: &mut [u8], at: usize, x: i64)
    requires
        at + 8 <= old(buf)@.len(),
    ensures
        final(buf)@ == overwrite(old(buf)@, at as int, i64_bytes(x)),
{
    let b = i64_to_ne_bytes(x);
    proof {
        lemma_i64_round_trip(x);
    }
    buf[at] = b[0];
    buf[at + 1] = b[1];
    buf[at + 2] = b[2];
    buf[at + 3] = b[3];
    buf[at + 4] = b[4];
    buf[at + 5] = b[5];
    buf[at + 6] = b[6];
    buf[at + 7] = b[7];
}

/// Copies `len` bytes of `src`, from `src_at` on, over `dst` from `dst_at` on.
pub fn copy_bytes(dst: &mut [u8], dst_at: usize, src: &[u8], src_at: usize, len: usize)
    requires
        dst_at + len <= old(dst)@.len(),
        src_at + len <= src@.len(),
    ensures
        final(dst)@ == overwrite(
            old(dst)@,
            dst_at as int,
            src@.subrange(src_at as int, src_at + len),
        ),
{
    let mut i: usize = 0;
    assert(dst@.len() <= usize::MAX && src@.len() <= usize::MAX) by {
        vstd::slice::axiom_spec_len(dst);
        vstd::slice::axiom_spec_len(src);
    }
    while i < len
        invariant
            i <= len,
            dst@.len() <= usize::MAX,
            src@.len() <= usize::MAX,
            dst_at + len <= dst@.len(),
            src_at + len <= src@.len(),
            dst@ == overwrite(
                old(dst)@,
                dst_at as int,
                src@.subrange(src_at as int, src_at + i),
            ),
        decreases len - i,
    {
        dst[dst_at + i] = src[src_at + i];
        i += 1;
    }
}

/// Copies `len` bytes of `buf`, from `from` on, to the place `to` of the same
/// buffer. The two runs are the same run or do not overlap.
pub fn move_bytes(buf: &mut [u8], from: usize, to: usize, len: usize)
    requires
        from + len <= old(buf)@.len(),
        to + len <= old(buf)@.len(),
        from == to || from + len <= to || to + len <= from,
    ensures
        final(buf)@ == overwrite(
            old(buf)@,
            to as int,
            old(buf)@.subrange(from as int, from + len),
        ),
{
    let mut i: usize = 0;
    assert(buf@.len() <= usize::MAX) by {
        vstd::slice::axiom_spec_len(buf);
    }
    while i < len
        invariant
            i <= len,
            buf@.len() == old(buf)@.len(),
            buf@.len() <= usize::MAX,
            from + len <= buf@.len(),
            to + len <= buf@.len(),
            from == to || from + len <= to || to + len <= from,
            buf@ == overwrite(old(buf)@, to as int, old(buf)@.subrange(from as int, from + i)),
        decreases len - i,
    {
        let b = buf[from + i];
        buf[to + i] = b;
        i += 1;
    }
}

/// Sets `len` bytes of `buf`, from `at` on, to zero.
pub fn fill_zero(buf: &mut [u8], at: usize, len: usize)
    requires
        at + len <= old(buf)@.len(),
    ensures
        final(buf)@ == overwrite(old(buf)@, at as int, zeros(len as int)),
{
    let mut i: usize = 0;
    assert(buf@.len() <= usize::MAX) by {
        vstd::slice::axiom_spec_len(buf);
    }
    while i < len
        invariant
            i <= len,
            buf@.len() <= usize::MAX,
            at + len <= buf@.len(),
            buf@ == overwrite(old(buf)@, at as int, zeros(i as int)),
        decreases len - i,
    {
        buf[at + i] = 0u8;
        i += 1;
    }
}

} // verus!
