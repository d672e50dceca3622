//! Integers as bytes, most significant byte first.

use vstd::prelude::*;

verus! {

/// The eight bytes of a number, most significant first.
pub open spec fn u64_bytes(n: u64) -> Seq<u8> {
    seq![
        (n >> 56u64) as u8,
        (n >> 48u64) as u8,
        (n >> 40u64) as u8,
        (n >> 32u64) as u8,
        (n >> 24u64) as u8,
        (n >> 16u64) as u8,
        (n >> 8u64) as u8,
        n as u8,
    ]
}

/// The number that eight bytes stand for.
pub open spec fn u64_value(b: Seq<u8>) -> u64 {
    (b[0] as u64) << 56u64 | (b[1] as u64) << 48u64 | (b[2] as u64) << 40u64 | (b[3] as u64)
        << 32u64 | (b[4] as u64) << 24u64 | (b[5] as u64) << 16u64 | (b[6] as u64) << 8u64
        | b[7] as u64
}

/// The four bytes of a number, most significant first.
pub open spec fn u32_bytes(n: u32) -> Seq<u8> {
    seq![(n >> 24u32) as u8, (n >> 16u32) as u8, (n >> 8u32) as u8, n as u8]
}

/// The number that four bytes stand for.
pub open spec fn u32_value(b: Seq<u8>) -> u32 {
    (b[0] as u32) << 24u32 | (b[1] as u32) << 16u32 | (b[2] as u32) << 8u32 | b[3] as u32
}

/// Reading the bytes of a number back gives the number.
pub proof fn u64_bytes_read_back(n: u64)
    ensures
        u64_bytes(n).len() == 8,
        u64_value(u64_bytes(n)) == n,
{
    assert(((n >> 56u64) as u8 as u64) << 56u64 | ((n >> 48u64) as u8 as u64) << 48u64 | ((n
        >> 40u64) as u8 as u64) << 40u64 | ((n >> 32u64) as u8 as u64) << 32u64 | ((n
        >> 24u64) as u8 as u64) << 24u64 | ((n >> 16u64) as u8 as u64) << 16u64 | ((n
        >> 8u64) as u8 as u64) << 8u64 | (n as u8) as u64 == n) by (bit_vector);
}

/// Reading the bytes of a number back gives the number.
pub proof fn u32_bytes_read_back(n: u32)
    ensures
        u32_bytes(n).len() == 4,
        u32_value(u32_bytes(n)) == n,
{
    assert(((n >> 24u32) as u8 as u32) << 24u32 | ((n >> 16u32) as u8 as u32) << 16u32 | ((n
        >> 8u32) as u8 as u32) << 8u32 | (n as u8) as u32 == n) by (bit_vector);
}

/// The eight bytes of a number, most significant first.
pub fn encode_u64(n: u64) -> (r: Vec<u8>)
    ensures
        r@ == u64_bytes(n),
{
    let mut out: Vec<u8> = Vec::new();
    push_u64(&mut out, n);
    assert(out@ =~= u64_bytes(n));
    out
}

/// Appends the eight bytes of a number.
pub fn push_u64(out: &mut Vec<u8>, n: u64)
    ensures
        final(out)@ == old(out)@ + u64_bytes(n),
{
    out.push(#[verifier::truncate] ((n >> 56u64) as u8));
    out.push(#[verifier::truncate] ((n >> 48u64) as u8));
    out.push(#[verifier::truncate] ((n >> 40u64) as u8));
    out.push(#[verifier::truncate] ((n >> 32u64) as u8));
    out.push(#[verifier::truncate] ((n >> 24u64) as u8));
    out.push(#[verifier::truncate] ((n >> 16u64) as u8));
    out.push(#[verifier::truncate] ((n >> 8u64) as u8));
    out.push(#[verifier::truncate] (n as u8));
    assert(out@ =~= old(out)@ + u64_bytes(n));
}

/// The number that eight bytes stand for; another length stands for none.
pub fn decode_u64(bytes: &[u8]) -> (r: Option<u64>)
    ensures
        r == (if bytes@.len() == 8 {
            Some(u64_value(bytes@))
        } else {
            None
        }),
{
    if bytes.len() != 8 {
        return None;
    }
    Some(
        (bytes[0] as u64) << 56u64 | (bytes[1] as u64) << 48u64 | (bytes[2] as u64) << 40u64 | (
        bytes[3] as u64) << 32u64 | (bytes[4] as u64) << 24u64 | (bytes[5] as u64) << 16u64 | (
        bytes[6] as u64) << 8u64 | bytes[7] as u64,
    )
}

/// The four bytes of a number, most significant first.
pub fn encode_u32(n: u32) -> (r: Vec<u8>)
    ensures
        r@ == u32_bytes(n),
{
    let mut out: Vec<u8> = Vec::new();
    out.push(#[verifier::truncate] ((n >> 24u32) as u8));
    out.push(#[verifier::truncate] ((n >> 16u32) as u8));
    out.push(#[verifier::truncate] ((n >> 8u32) as u8));
    out.push(#[verifier::truncate] (n as u8));
    assert(out@ =~= u32_bytes(n));
    out
}

/// The number that four bytes stand for; another length stands for none.
pub fn decode_u32(bytes: &[u8]) -> (r: Option<u32>)
    ensures
        r == (if bytes@.len() == 4 {
            Some(u32_value(bytes@))
        } else {
            None
        }),
{
    if bytes.len() != 4 {
        return None;
    }
    Some(
        (bytes[0] as u32) << 24u32 | (bytes[1] as u32) << 16u32 | (bytes[2] as u32) << 8u32
            | bytes[3] as u32,
    )
}

/// The first byte counts most: each counts 256 times as much as the one behind
/// it.
pub proof fn eight_bytes_stand_in_base_256(b: Seq<u8>)
    ensures
        u64_value(b) == 256 * (256 * (256 * (256 * (256 * (256 * (256 * b[0] + b[1]) + b[2]) + b[3])
            + b[4]) + b[5]) + b[6]) + b[7],
{
    let (b0, b1, b2, b3, b4, b5, b6, b7) = (b[0], b[1], b[2], b[3], b[4], b[5], b[6], b[7]);
    assert(((b0 as u64) << 56u64 | (b1 as u64) << 48u64 | (b2 as u64) << 40u64 | (b3 as u64) << 32u64
        | (b4 as u64) << 24u64 | (b5 as u64) << 16u64 | (b6 as u64) << 8u64 | b7 as u64) == 256 * (
    256 * (256 * (256 * (256 * (256 * (256 * b0 + b1) + b2) + b3) + b4) + b5) + b6) + b7)
        by (bit_vector);
}

/// The first byte counts most: each counts 256 times as much as the one behind
/// it.
pub proof fn four_bytes_stand_in_base_256(b: Seq<u8>)
    ensures
        u32_value(b) == 256 * (256 * (256 * b[0] + b[1]) + b[2]) + b[3],
{
    let (b0, b1, b2, b3) = (b[0], b[1], b[2], b[3]);
    assert(((b0 as u32) << 24u32 | (b1 as u32) << 16u32 | (b2 as u32) << 8u32 | b3 as u32) == 256
        * (256 * (256 * b0 + b1) + b2) + b3) by (bit_vector);
}

} // verus!
