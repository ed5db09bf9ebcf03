//! Little-endian numbers inside byte sequences.

use vstd::prelude::*;
use vstd::slice::slice_subrange;
use vstd::slice::slice_to_vec;

verus! {

/// The unsigned 16-bit number whose two bytes start at `at`, low byte first.
pub open spec fn le16(s: Seq<u8>, at: int) -> int {
    s[at] + 0x100 * s[at + 1]
}

/// The unsigned 32-bit number whose four bytes start at `at`, low byte first.
pub open spec fn le32(s: Seq<u8>, at: int) -> int {
    le16(s, at) + 0x1_0000 * le16(s, at + 2)
}

/// The unsigned 64-bit number whose eight bytes start at `at`, low byte first.
pub open spec fn le64(s: Seq<u8>, at: int) -> int {
    le32(s, at) + 0x1_0000_0000 * le32(s, at + 4)
}

/// An unsigned number read as two's complement. `half` is half of the numbers that there are.
pub open spec fn signed(value: int, half: int) -> int {
    if value < half {
        value
    } else {
        value - 2 * half
    }
}

/// The two bytes of `v`, low byte first.
#[verifier::opaque]
pub open spec fn le16_bytes(v: u16) -> Seq<u8> {
    seq![(v % 0x100) as u8, (v / 0x100) as u8]
}

/// The four bytes of `v`, low byte first.
#[verifier::opaque]
pub open spec fn le32_bytes(v: u32) -> Seq<u8> {
    le16_bytes((v % 0x1_0000) as u16) + le16_bytes((v / 0x1_0000) as u16)
}

/// The eight bytes of `v`, low byte first.
#[verifier::opaque]
pub open spec fn le64_bytes(v: u64) -> Seq<u8> {
    le32_bytes((v % 0x1_0000_0000) as u32) + le32_bytes((v / 0x1_0000_0000) as u32)
}

/// A 16-bit number takes two bytes.
pub broadcast proof fn law_le16_bytes_len(v: u16)
    ensures
        #[trigger] le16_bytes(v).len() == 2,
{
    reveal(le16_bytes);
}

/// A 32-bit number takes four bytes.
pub broadcast proof fn law_le32_bytes_len(v: u32)
    ensures
        #[trigger] le32_bytes(v).len() == 4,
{
    broadcast use law_le16_bytes_len;
    reveal(le32_bytes);
}

/// A 64-bit number takes eight bytes.
pub broadcast proof fn law_le64_bytes_len(v: u64)
    ensures
        #[trigger] le64_bytes(v).len() == 8,
{
    broadcast use law_le32_bytes_len;
    reveal(le64_bytes);
}

/// The lengths of written numbers.
pub broadcast group group_le_bytes_len {
    law_le16_bytes_len,
    law_le32_bytes_len,
    law_le64_bytes_len,
}

/// Reads the 16-bit number at `at`.
pub fn read_u16(data: &[u8], at: usize) -> (v: u16)
    requires
        at + 2 <= data.len(),
    ensures
        v == le16(data@, at as int),
{
    data[at] as u16 + 0x100 * (data[at + 1] as u16)
}

/// Reads the 32-bit number at `at`.
pub fn read_u32(data: &[u8], at: usize) -> (v: u32)
    requires
        at + 4 <= data.len(),
    ensures
        v == le32(data@, at as int),
{
    read_u16(data, at) as u32 + 0x1_0000 * (read_u16(data, at + 2) as u32)
}

/// Reads the 64-bit number at `at`.
pub fn read_u64(data: &[u8], at: usize) -> (v: u64)
    requires
        at + 8 <= data.len(),
    ensures
        v == le64(data@, at as int),
{
    read_u32(data, at) as u64 + 0x1_0000_0000 * (read_u32(data, at + 4) as u64)
}

/// Appends a copy of `more`.
pub fn push_bytes(out: &mut Vec<u8>, more: &[u8])
    ensures
        final(out)@ == old(out)@ + more@,
{
    out.extend_from_slice(more);
    assert(out@ =~= old(out)@ + more@);
}

/// Appends the two bytes of `v`, low byte first.
pub fn push_u16(out: &mut Vec<u8>, v: u16)
    ensures
        final(out)@ == old(out)@ + le16_bytes(v),
{
    out.push((v % 0x100) as u8);
    out.push((v / 0x100) as u8);
    reveal(le16_bytes);
    assert(out@ =~= old(out)@ + le16_bytes(v));
}

/// Appends the four bytes of `v`, low byte first.
pub fn push_u32(out: &mut Vec<u8>, v: u32)
    ensures
        final(out)@ == old(out)@ + le32_bytes(v),
{
    push_u16(out, (v % 0x1_0000) as u16);
    push_u16(out, (v / 0x1_0000) as u16);
    reveal(le32_bytes);
    assert(out@ =~= old(out)@ + le32_bytes(v));
}

/// Appends the eight bytes of `v`, low byte first.
pub fn push_u64(out: &mut Vec<u8>, v: u64)
    ensures
        final(out)@ == old(out)@ + le64_bytes(v),
{
    push_u32(out, (v % 0x1_0000_0000) as u32);
    push_u32(out, (v / 0x1_0000_0000) as u32);
    reveal(le64_bytes);
    assert(out@ =~= old(out)@ + le64_bytes(v));
}

/// A copy of the bytes from `from` up to `to`.
pub fn copy_range(data: &[u8], from: usize, to: usize) -> (out: Vec<u8>)
    requires
        from <= to <= data@.len(),
    ensures
        out@ == data@.subrange(from as int, to as int),
{
    slice_to_vec(slice_subrange(data, from, to))
}

/// Whether two byte slices hold the same bytes.
pub fn same_bytes(a: &[u8], b: &[u8]) -> (r: bool)
    ensures
        r == (a@ == b@),
{
    if a.len() != b.len() {
        return false;
    }
    let mut i: usize = 0;
    while i < a.len()
        invariant
            i <= a@.len(),
            a@.len() == b@.len(),
            forall|j: int| 0 <= j < i ==> a@[j] == b@[j],
        decreases a@.len() - i,
    {
        if a[i] != b[i] {
            return false;
        }
        i += 1;
    }
    assert(a@ =~= b@);
    true
}

/// The low 16 bits of `v`.
pub fn low_u16(v: usize) -> (r: u16)
    ensures
        r == v % 0x1_0000,
{
    (v % 0x1_0000) as u16
}

/// The low 32 bits of `v`.
pub fn low_u32(v: usize) -> (r: u32)
    ensures
        r == v as int % 0x1_0000_0000,
{
    let wide: u64 = v as u64;
    (wide % 0x1_0000_0000) as u32
}

/// Writing a number and reading it back gives the number, wherever it stands.
pub proof fn law_le16_round_trip(before: Seq<u8>, v: u16, after: Seq<u8>)
    ensures
        le16(before + le16_bytes(v) + after, before.len() as int) == v,
{
    reveal(le16_bytes);
}

/// Writing a number and reading it back gives the number, wherever it stands.
pub proof fn law_le32_round_trip(before: Seq<u8>, v: u32, after: Seq<u8>)
    ensures
        le32(before + le32_bytes(v) + after, before.len() as int) == v,
{
    broadcast use group_le_bytes_len;

    let s = before + le32_bytes(v) + after;
    let at = before.len() as int;
    let lo = (v % 0x1_0000) as u16;
    let hi = (v / 0x1_0000) as u16;
    reveal(le32_bytes);
    law_le16_round_trip(before, lo, le16_bytes(hi) + after);
    law_le16_round_trip(before + le16_bytes(lo), hi, after);
    assert(s =~= before + le16_bytes(lo) + (le16_bytes(hi) + after));
    assert(s =~= before + le16_bytes(lo) + le16_bytes(hi) + after);
}

/// Writing a number and reading it back gives the number, wherever it stands.
pub proof fn law_le64_round_trip(before: Seq<u8>, v: u64, after: Seq<u8>)
    ensures
        le64(before + le64_bytes(v) + after, before.len() as int) == v,
{
    broadcast use group_le_bytes_len;

    let s = before + le64_bytes(v) + after;
    let at = before.len() as int;
    let lo = (v % 0x1_0000_0000) as u32;
    let hi = (v / 0x1_0000_0000) as u32;
    reveal(le64_bytes);
    law_le32_round_trip(before, lo, le32_bytes(hi) + after);
    law_le32_round_trip(before + le32_bytes(lo), hi, after);
    assert(s =~= before + le32_bytes(lo) + (le32_bytes(hi) + after));
    assert(s =~= before + le32_bytes(lo) + le32_bytes(hi) + after);
}

/// The lowest byte of a number comes first, and each byte counts 256 times as much as the one
/// before it.
pub proof fn law_low_byte_first(s: Seq<u8>, at: int)
    ensures
        le16(s, at) == s[at] + 0x100 * s[at + 1],
        le32(s, at) == s[at] + 0x100 * s[at + 1] + 0x1_0000 * s[at + 2] + 0x100_0000 * s[at + 3],
        le64(s, at) == s[at] + 0x100 * s[at + 1] + 0x1_0000 * s[at + 2] + 0x100_0000 * s[at + 3]
            + 0x1_0000_0000 * s[at + 4] + 0x100_0000_0000 * s[at + 5] + 0x1_0000_0000_0000 * s[at + 6]
            + 0x100_0000_0000_0000 * s[at + 7],
{
}

/// A number with its highest bit set is negative: it is what it falls short of zero.
pub proof fn law_highest_bit_is_the_sign(value: int, half: int)
    requires
        0 <= value < 2 * half,
    ensures
        -half <= signed(value, half) < half,
        signed(value, half) == value || signed(value, half) + 2 * half == value,
{
}

} // verus!
