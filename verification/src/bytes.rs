use vstd::prelude::*;

verus! {

/// The value stored little-endian in the four bytes of `b` at `pos`.
pub open spec fn le32_at(b: Seq<u8>, pos: int) -> int
    recommends
        0 <= pos,
        pos + 4 <= b.len(),
{
    b[pos] + 0x100 * b[pos + 1] + 0x10000 * b[pos + 2] + 0x1000000 * b[pos + 3]
}

/// The value stored little-endian in the eight bytes of `b` at `pos`.
pub open spec fn le64_at(b: Seq<u8>, pos: int) -> int
    recommends
        0 <= pos,
        pos + 8 <= b.len(),
{
    b[pos] + 0x100 * b[pos + 1] + 0x10000 * b[pos + 2] + 0x1000000 * b[pos + 3] + 0x100000000
        * b[pos + 4] + 0x10000000000 * b[pos + 5] + 0x1000000000000 * b[pos + 6]
        + 0x100000000000000 * b[pos + 7]
}

/// The four-byte little-endian encoding of `x`.
pub open spec fn u32_le_bytes(x: u32) -> Seq<u8> {
    seq![
        (x % 0x100) as u8,
        ((x / 0x100) % 0x100) as u8,
        ((x / 0x10000) % 0x100) as u8,
        ((x / 0x1000000) % 0x100) as u8,
    ]
}

/// The eight-byte little-endian encoding of `x`.
pub open spec fn u64_le_bytes(x: u64) -> Seq<u8> {
    seq![
        (x % 0x100) as u8,
        ((x / 0x100) % 0x100) as u8,
        ((x / 0x10000) % 0x100) as u8,
        ((x / 0x1000000) % 0x100) as u8,
        ((x / 0x100000000) % 0x100) as u8,
        ((x / 0x10000000000) % 0x100) as u8,
        ((x / 0x1000000000000) % 0x100) as u8,
        ((x / 0x100000000000000) % 0x100) as u8,
    ]
}

/// Reading back the four-byte encoding of `x` yields `x`.
pub proof fn lemma_u32_le_roundtrip(x: u32)
    ensures
        le32_at(u32_le_bytes(x), 0) == x,
{
    vstd::arithmetic::div_mod::lemma_fundamental_div_mod(x as int, 0x100);
    vstd::arithmetic::div_mod::lemma_fundamental_div_mod(x as int / 0x100, 0x100);
    vstd::arithmetic::div_mod::lemma_fundamental_div_mod(x as int / 0x10000, 0x100);
    vstd::arithmetic::div_mod::lemma_div_denominator(x as int, 0x100, 0x100);
    vstd::arithmetic::div_mod::lemma_div_denominator(x as int, 0x10000, 0x100);
    assert(x as int / 0x1000000 < 0x100) by {
        vstd::arithmetic::div_mod::lemma_div_is_ordered(x as int, 0xffffffff, 0x1000000);
    }
}

/// Reading back the eight-byte encoding of `x` yields `x`.
pub proof fn lemma_u64_le_roundtrip(x: u64)
    ensures
        le64_at(u64_le_bytes(x), 0) == x,
{
    vstd::arithmetic::div_mod::lemma_fundamental_div_mod(x as int, 0x100);
    vstd::arithmetic::div_mod::lemma_fundamental_div_mod(x as int / 0x100, 0x100);
    vstd::arithmetic::div_mod::lemma_fundamental_div_mod(x as int / 0x10000, 0x100);
    vstd::arithmetic::div_mod::lemma_fundamental_div_mod(x as int / 0x1000000, 0x100);
    vstd::arithmetic::div_mod::lemma_fundamental_div_mod(x as int / 0x100000000, 0x100);
    vstd::arithmetic::div_mod::lemma_fundamental_div_mod(x as int / 0x10000000000, 0x100);
    vstd::arithmetic::div_mod::lemma_fundamental_div_mod(x as int / 0x1000000000000, 0x100);
    vstd::arithmetic::div_mod::lemma_div_denominator(x as int, 0x100, 0x100);
    vstd::arithmetic::div_mod::lemma_div_denominator(x as int, 0x10000, 0x100);
    vstd::arithmetic::div_mod::lemma_div_denominator(x as int, 0x1000000, 0x100);
    vstd::arithmetic::div_mod::lemma_div_denominator(x as int, 0x100000000, 0x100);
    vstd::arithmetic::div_mod::lemma_div_denominator(x as int, 0x10000000000, 0x100);
    vstd::arithmetic::div_mod::lemma_div_denominator(x as int, 0x1000000000000, 0x100);
    assert(x as int / 0x100000000000000 < 0x100) by {
        vstd::arithmetic::div_mod::lemma_div_is_ordered(
            x as int,
            0xffffffffffffffff,
            0x100000000000000,
        );
    }
}

/// Read the four-byte little-endian value at `pos`.
pub fn read_u32_le(b: &Vec<u8>, pos: usize) -> (r: u32)
    requires
        pos + 4 <= b@.len(),
    ensures
        r == le32_at(b@, pos as int),
{
    let n = b.len();
    assert(pos + 4 <= n);
    (b[pos] as u32) + 0x100 * (b[pos + 1] as u32) + 0x10000 * (b[pos + 2] as u32) + 0x1000000
        * (b[pos + 3] as u32)
}

/// Read the eight-byte little-endian value at `pos`.
pub fn read_u64_le(b: &Vec<u8>, pos: usize) -> (r: u64)
    requires
        pos + 8 <= b@.len(),
    ensures
        r == le64_at(b@, pos as int),
{
    let n = b.len();
    assert(pos + 8 <= n);
    (b[pos] as u64) + 0x100 * (b[pos + 1] as u64) + 0x10000 * (b[pos + 2] as u64) + 0x1000000 * (b[
        pos + 3] as u64) + 0x100000000 * (b[pos + 4] as u64) + 0x10000000000 * (b[pos + 5] as u64)
        + 0x1000000000000 * (b[pos + 6] as u64) + 0x100000000000000 * (b[pos + 7] as u64)
}

/// Append the four-byte little-endian encoding of `x` to `buf`.
pub fn write_u32_le(buf: &mut Vec<u8>, x: u32)
    ensures
        final(buf)@ == old(buf)@ + u32_le_bytes(x),
{
    buf.push((x % 0x100) as u8);
    buf.push(((x / 0x100) % 0x100) as u8);
    buf.push(((x / 0x10000) % 0x100) as u8);
    buf.push(((x / 0x1000000) % 0x100) as u8);
    proof {
        assert(buf@ =~= old(buf)@ + u32_le_bytes(x));
    }
}

/// Append the eight-byte little-endian encoding of `x` to `buf`.
pub fn write_u64_le(buf: &mut Vec<u8>, x: u64)
    ensures
        final(buf)@ == old(buf)@ + u64_le_bytes(x),
{
    buf.push((x % 0x100) as u8);
    buf.push(((x / 0x100) % 0x100) as u8);
    buf.push(((x / 0x10000) % 0x100) as u8);
    buf.push(((x / 0x1000000) % 0x100) as u8);
    buf.push(((x / 0x100000000) % 0x100) as u8);
    buf.push(((x / 0x10000000000) % 0x100) as u8);
    buf.push(((x / 0x1000000000000) % 0x100) as u8);
    buf.push(((x / 0x100000000000000) % 0x100) as u8);
    proof {
        assert(buf@ =~= old(buf)@ + u64_le_bytes(x));
    }
}

} // verus!
