//! Little-endian integers inside a byte buffer: the encoding of every number that the
//! file-system structures keep on a drive. Also the appending of one character to a string.

use vstd::prelude::*;

verus! {

/// Byte `k` of `v` when `v` is laid out least significant byte first.
pub open spec fn le_byte(v: int, k: int) -> u8 {
    if k == 0 {
        (v % 0x100) as u8
    } else if k == 1 {
        (v / 0x100 % 0x100) as u8
    } else if k == 2 {
        (v / 0x1_0000 % 0x100) as u8
    } else if k == 3 {
        (v / 0x100_0000 % 0x100) as u8
    } else if k == 4 {
        (v / 0x1_0000_0000 % 0x100) as u8
    } else if k == 5 {
        (v / 0x100_0000_0000 % 0x100) as u8
    } else if k == 6 {
        (v / 0x1_0000_0000_0000 % 0x100) as u8
    } else {
        (v / 0x100_0000_0000_0000 % 0x100) as u8
    }
}

/// The 32-bit value whose four bytes lie at `at`, least significant first.
pub open spec fn le_u32(bytes: Seq<u8>, at: int) -> u32 {
    (bytes[at] + bytes[at + 1] * 0x100 + bytes[at + 2] * 0x1_0000 + bytes[at + 3] * 0x100_0000) as u32
}

/// The 64-bit value whose eight bytes lie at `at`, least significant first.
pub open spec fn le_u64(bytes: Seq<u8>, at: int) -> u64 {
    (le_u32(bytes, at) + le_u32(bytes, at + 4) * 0x1_0000_0000) as u64
}

/// Four bytes that are the little-endian bytes of `v` read back as `v`.
pub proof fn lemma_le_u32(bytes: Seq<u8>, at: int, v: u32)
    requires
        forall|k: int| 0 <= k < 4 ==> bytes[at + k] == #[trigger] le_byte(v as int, k),
    ensures
        le_u32(bytes, at) == v,
{
    assert(bytes[at + 0] == le_byte(v as int, 0));
    assert(bytes[at + 1] == le_byte(v as int, 1));
    assert(bytes[at + 2] == le_byte(v as int, 2));
    assert(bytes[at + 3] == le_byte(v as int, 3));
}

/// Eight bytes that are the little-endian bytes of `v` read back as `v`.
pub proof fn lemma_le_u64(bytes: Seq<u8>, at: int, v: u64)
    requires
        forall|k: int| 0 <= k < 8 ==> bytes[at + k] == #[trigger] le_byte(v as int, k),
    ensures
        le_u64(bytes, at) == v,
{
    let lo = (v % 0x1_0000_0000) as u32;
    let hi = (v / 0x1_0000_0000) as u32;
    assert forall|k: int| 0 <= k < 4 implies bytes[at + k] == #[trigger] le_byte(lo as int, k) by {
        assert(bytes[at + k] == le_byte(v as int, k));
        lemma_low_half(v, k);
    }
    assert forall|k: int| 0 <= k < 4 implies bytes[at + 4 + k] == #[trigger] le_byte(hi as int, k) by {
        assert(bytes[at + (4 + k)] == le_byte(v as int, 4 + k));
        lemma_high_half(v, k);
    }
    lemma_le_u32(bytes, at, lo);
    lemma_le_u32(bytes, at + 4, hi);
}

proof fn lemma_low_half(v: u64, k: int)
    requires
        0 <= k < 4,
    ensures
        le_byte(v as int, k) == le_byte(((v % 0x1_0000_0000) as u32) as int, k),
{
    assert((v % 0x100) as u8 == (((v % 0x1_0000_0000) as u32) % 0x100) as u8) by (bit_vector);
    assert((v / 0x100 % 0x100) as u8 == (((v % 0x1_0000_0000) as u32) / 0x100 % 0x100) as u8) by (bit_vector);
    assert((v / 0x1_0000 % 0x100) as u8 == (((v % 0x1_0000_0000) as u32) / 0x1_0000 % 0x100) as u8)
        by (bit_vector);
    assert((v / 0x100_0000 % 0x100) as u8 == (((v % 0x1_0000_0000) as u32) / 0x100_0000 % 0x100) as u8)
        by (bit_vector);
}

proof fn lemma_high_half(v: u64, k: int)
    requires
        0 <= k < 4,
    ensures
        le_byte(v as int, 4 + k) == le_byte(((v / 0x1_0000_0000) as u32) as int, k),
{
    assert((v / 0x1_0000_0000 % 0x100) as u8 == (((v / 0x1_0000_0000) as u32) % 0x100) as u8) by (bit_vector);
    assert((v / 0x100_0000_0000 % 0x100) as u8 == (((v / 0x1_0000_0000) as u32) / 0x100 % 0x100) as u8)
        by (bit_vector);
    assert((v / 0x1_0000_0000_0000 % 0x100) as u8 == (((v / 0x1_0000_0000) as u32) / 0x1_0000 % 0x100) as u8)
        by (bit_vector);
    assert((v / 0x100_0000_0000_0000 % 0x100) as u8 == (((v / 0x1_0000_0000) as u32) / 0x100_0000 % 0x100) as u8)
        by (bit_vector);
}

/// Byte `k` of `v` when `v` is laid out least significant byte first.
pub fn le_byte_of(v: u64, k: usize) -> (b: u8)
    requires
        k < 8,
    ensures
        b == le_byte(v as int, k as int),
{
    if k == 0 {
        (v % 0x100) as u8
    } else if k == 1 {
        (v / 0x100 % 0x100) as u8
    } else if k == 2 {
        (v / 0x1_0000 % 0x100) as u8
    } else if k == 3 {
        (v / 0x100_0000 % 0x100) as u8
    } else if k == 4 {
        (v / 0x1_0000_0000 % 0x100) as u8
    } else if k == 5 {
        (v / 0x100_0000_0000 % 0x100) as u8
    } else if k == 6 {
        (v / 0x1_0000_0000_0000 % 0x100) as u8
    } else {
        (v / 0x100_0000_0000_0000 % 0x100) as u8
    }
}

/// Reads four bytes at `at` as a 32-bit value, least significant byte first.
pub fn get_u32_le(bytes: &[u8], at: usize) -> (v: u32)
    requires
        at + 4 <= bytes@.len(),
    ensures
        v == le_u32(bytes@, at as int),
{
    bytes[at] as u32 + bytes[at + 1] as u32 * 0x100 + bytes[at + 2] as u32 * 0x1_0000 + bytes[at + 3] as u32
        * 0x100_0000
}

/// Reads eight bytes at `at` as a 64-bit value, least significant byte first.
pub fn get_u64_le(bytes: &[u8], at: usize) -> (v: u64)
    requires
        at + 8 <= bytes@.len(),
    ensures
        v == le_u64(bytes@, at as int),
{
    let _ = bytes.len();
    get_u32_le(bytes, at) as u64 + get_u32_le(bytes, at + 4) as u64 * 0x1_0000_0000
}

/// Appends one character to a string. Wraps `String::push`, which adds the given character
/// at the end and changes nothing else.
#[verifier::external_body]
pub(crate) fn push_char(s: &mut String, c: char)
    ensures
        final(s)@ == old(s)@.push(c),
{
    s.push(c);
}

} // verus!
