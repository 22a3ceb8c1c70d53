//! Fixed-width integer codec: little-endian 32- and 64-bit read and write.
//!
//! IEEE-754 floats are carried through this codec one layer up by bit
//! reinterpretation; the codec itself is integer-only.

use vstd::prelude::*;

verus! {

use crate::buffer::Reader;
use crate::error::DecodeError;

/// The 4-byte little-endian layout of the bit pattern of `x`.
pub open spec fn fix32_bytes(x: i32) -> Seq<u8> {
    let u = x as u32;
    seq![
        (u & 0xff) as u8,
        ((u >> 8) & 0xff) as u8,
        ((u >> 16) & 0xff) as u8,
        ((u >> 24) & 0xff) as u8,
    ]
}

/// The 8-byte little-endian layout of the bit pattern of `x`.
pub open spec fn fix64_bytes(x: i64) -> Seq<u8> {
    let u = x as u64;
    seq![
        (u & 0xff) as u8,
        ((u >> 8) & 0xff) as u8,
        ((u >> 16) & 0xff) as u8,
        ((u >> 24) & 0xff) as u8,
        ((u >> 32) & 0xff) as u8,
        ((u >> 40) & 0xff) as u8,
        ((u >> 48) & 0xff) as u8,
        ((u >> 56) & 0xff) as u8,
    ]
}

/// The signed 32-bit value whose little-endian layout is the first 4 bytes
/// of `s`.
pub open spec fn fix32_val(s: Seq<u8>) -> i32
    recommends
        s.len() >= 4,
{
    ((s[0] as u32) | ((s[1] as u32) << 8) | ((s[2] as u32) << 16) | ((s[3] as u32) << 24)) as i32
}

/// The signed 64-bit value whose little-endian layout is the first 8 bytes
/// of `s`.
pub open spec fn fix64_val(s: Seq<u8>) -> i64
    recommends
        s.len() >= 8,
{
    ((s[0] as u64) | ((s[1] as u64) << 8) | ((s[2] as u64) << 16) | ((s[3] as u64) << 24) | ((
    s[4] as u64) << 32) | ((s[5] as u64) << 40) | ((s[6] as u64) << 48) | ((s[7] as u64)
        << 56)) as i64
}

/// Fixed-width round trip: reading back the 4-byte little-endian layout of
/// any 32-bit integer yields that integer.
pub proof fn lemma_fix32_round_trip(x: i32)
    ensures
        fix32_bytes(x).len() == 4,
        fix32_val(fix32_bytes(x)) == x,
{
    let u = x as u32;
    assert((((u & 0xff) as u8) as u32) | ((((u >> 8) & 0xff) as u8) as u32) << 8 | ((((u >> 16)
        & 0xff) as u8) as u32) << 16 | ((((u >> 24) & 0xff) as u8) as u32) << 24 == u)
        by (bit_vector);
    assert(((x as u32) as i32) == x) by (bit_vector);
}

/// Fixed-width round trip: reading back the 8-byte little-endian layout of
/// any 64-bit integer yields that integer.
pub proof fn lemma_fix64_round_trip(x: i64)
    ensures
        fix64_bytes(x).len() == 8,
        fix64_val(fix64_bytes(x)) == x,
{
    let u = x as u64;
    assert((((u & 0xff) as u8) as u64) | ((((u >> 8) & 0xff) as u8) as u64) << 8 | ((((u >> 16)
        & 0xff) as u8) as u64) << 16 | ((((u >> 24) & 0xff) as u8) as u64) << 24 | ((((u >> 32)
        & 0xff) as u8) as u64) << 32 | ((((u >> 40) & 0xff) as u8) as u64) << 40 | ((((u >> 48)
        & 0xff) as u8) as u64) << 48 | ((((u >> 56) & 0xff) as u8) as u64) << 56 == u)
        by (bit_vector);
    assert(((x as u64) as i64) == x) by (bit_vector);
}

/// A 32-bit little-endian value at the head of a longer buffer reads
/// exactly as it does alone.
pub proof fn lemma_fix32_val_prefix(s: Seq<u8>, t: Seq<u8>)
    requires
        s.len() >= 4,
    ensures
        fix32_val(s + t) == fix32_val(s),
{
    assert((s + t)[0] == s[0] && (s + t)[1] == s[1] && (s + t)[2] == s[2] && (s + t)[3] == s[3]);
}

/// A 64-bit little-endian value at the head of a longer buffer reads
/// exactly as it does alone.
pub proof fn lemma_fix64_val_prefix(s: Seq<u8>, t: Seq<u8>)
    requires
        s.len() >= 8,
    ensures
        fix64_val(s + t) == fix64_val(s),
{
    assert((s + t)[0] == s[0] && (s + t)[1] == s[1] && (s + t)[2] == s[2] && (s + t)[3] == s[3]
        && (s + t)[4] == s[4] && (s + t)[5] == s[5] && (s + t)[6] == s[6] && (s + t)[7] == s[7]);
}

/// Append the 4-byte little-endian layout of `x` to `buf`.
pub fn write_fix32(x: i32, buf: &mut Vec<u8>)
    ensures
        final(buf)@ == old(buf)@ + fix32_bytes(x),
{
    let u = x as u32;
    buf.push(#[verifier::truncate] ((u & 0xff) as u8));
    buf.push(#[verifier::truncate] (((u >> 8) & 0xff) as u8));
    buf.push(#[verifier::truncate] (((u >> 16) & 0xff) as u8));
    buf.push(#[verifier::truncate] (((u >> 24) & 0xff) as u8));
    proof {
        assert(buf@ =~= old(buf)@ + fix32_bytes(x));
    }
}

/// Append the 8-byte little-endian layout of `x` to `buf`.
pub fn write_fix64(x: i64, buf: &mut Vec<u8>)
    ensures
        final(buf)@ == old(buf)@ + fix64_bytes(x),
{
    let u = x as u64;
    buf.push(#[verifier::truncate] ((u & 0xff) as u8));
    buf.push(#[verifier::truncate] (((u >> 8) & 0xff) as u8));
    buf.push(#[verifier::truncate] (((u >> 16) & 0xff) as u8));
    buf.push(#[verifier::truncate] (((u >> 24) & 0xff) as u8));
    buf.push(#[verifier::truncate] (((u >> 32) & 0xff) as u8));
    buf.push(#[verifier::truncate] (((u >> 40) & 0xff) as u8));
    buf.push(#[verifier::truncate] (((u >> 48) & 0xff) as u8));
    buf.push(#[verifier::truncate] (((u >> 56) & 0xff) as u8));
    proof {
        assert(buf@ =~= old(buf)@ + fix64_bytes(x));
    }
}

/// The 4-byte little-endian layout of `x` as a fresh vector.
pub fn encode_fix32(x: i32) -> (r: Vec<u8>)
    ensures
        r@ == fix32_bytes(x),
{
    let mut buf: Vec<u8> = Vec::with_capacity(4);
    write_fix32(x, &mut buf);
    proof {
        assert(buf@ =~= fix32_bytes(x));
    }
    buf
}

/// The 8-byte little-endian layout of `x` as a fresh vector.
pub fn encode_fix64(x: i64) -> (r: Vec<u8>)
    ensures
        r@ == fix64_bytes(x),
{
    let mut buf: Vec<u8> = Vec::with_capacity(8);
    write_fix64(x, &mut buf);
    proof {
        assert(buf@ =~= fix64_bytes(x));
    }
    buf
}

/// Read a 32-bit little-endian integer: exactly 4 bytes, or
/// `UnexpectedEof` leaving the cursor where it stood.
pub fn read_fix32<'a>(buf: &mut Reader<'a>) -> (r: Result<i32, DecodeError>)
    requires
        old(buf).inv(),
    ensures
        final(buf).inv(),
        final(buf).all_bytes() == old(buf).all_bytes(),
        old(buf).rest().len() >= 4 ==> (r matches Ok(x) && x == fix32_val(old(buf).rest())
            && final(buf).rest() == old(buf).rest().skip(4)),
        old(buf).rest().len() < 4 ==> (r == Err::<i32, DecodeError>(DecodeError::UnexpectedEof)
            && *final(buf) == *old(buf)),
{
    let ghost s = old(buf).rest();
    if buf.remaining() < 4 {
        return Err(DecodeError::UnexpectedEof);
    }
    let b0 = match buf.read_byte() {
        Ok(b) => b,
        Err(e) => {
            return Err(e);
        },
    };
    let b1 = match buf.read_byte() {
        Ok(b) => b,
        Err(e) => {
            return Err(e);
        },
    };
    let b2 = match buf.read_byte() {
        Ok(b) => b,
        Err(e) => {
            return Err(e);
        },
    };
    let b3 = match buf.read_byte() {
        Ok(b) => b,
        Err(e) => {
            return Err(e);
        },
    };
    proof {
        assert(b1 == s[1] && b2 == s[2] && b3 == s[3]);
        assert(buf.rest() =~= s.skip(4));
    }
    let x: u32 = (b0 as u32) | ((b1 as u32) << 8) | ((b2 as u32) << 16) | ((b3 as u32) << 24);
    Ok(#[verifier::truncate] (x as i32))
}

/// Read a 64-bit little-endian integer: exactly 8 bytes, or
/// `UnexpectedEof` leaving the cursor where it stood.
pub fn read_fix64<'a>(buf: &mut Reader<'a>) -> (r: Result<i64, DecodeError>)
    requires
        old(buf).inv(),
    ensures
        final(buf).inv(),
        final(buf).all_bytes() == old(buf).all_bytes(),
        old(buf).rest().len() >= 8 ==> (r matches Ok(x) && x == fix64_val(old(buf).rest())
            && final(buf).rest() == old(buf).rest().skip(8)),
        old(buf).rest().len() < 8 ==> (r == Err::<i64, DecodeError>(DecodeError::UnexpectedEof)
            && *final(buf) == *old(buf)),
{
    let ghost s = old(buf).rest();
    if buf.remaining() < 8 {
        return Err(DecodeError::UnexpectedEof);
    }
    let mut x: u64 = 0;
    let mut i: usize = 0;
    while i < 8
        invariant
            buf.inv(),
            buf.all_bytes() == old(buf).all_bytes(),
            s == old(buf).rest(),
            s.len() >= 8,
            0 <= i <= 8,
            buf.rest() == s.skip(i as int),
            x == fix64_partial(s, i as int),
        decreases 8 - i,
    {
        let b = match buf.read_byte() {
            Ok(b) => b,
            Err(e) => {
                return Err(e);
            },
        };
        proof {
            assert(s.skip(i as int)[0] == s[i as int]);
            assert(buf.rest() =~= s.skip(i as int + 1));
            lemma_fix64_partial_step(s, i as int, x, b);
        }
        x = x | ((b as u64) << ((8 * i) as u32));
        i = i + 1;
    }
    proof {
        lemma_fix64_partial_full(s);
    }
    Ok(#[verifier::truncate] (x as i64))
}

/// The or-accumulation of the first `n` little-endian bytes of `s` into a
/// 64-bit word.
spec fn fix64_partial(s: Seq<u8>, n: int) -> u64
    decreases n,
{
    if n <= 0 {
        0
    } else {
        fix64_partial(s, n - 1) | ((s[n - 1] as u64) << ((8 * (n - 1)) as u32))
    }
}

/// One step of the 64-bit little-endian accumulation.
proof fn lemma_fix64_partial_step(s: Seq<u8>, n: int, x: u64, b: u8)
    requires
        0 <= n < 8,
        x == fix64_partial(s, n),
        b == s[n],
    ensures
        (x | ((b as u64) << ((8 * n) as u32))) == fix64_partial(s, n + 1),
{
}

/// Eight accumulated bytes are exactly the 64-bit little-endian value.
proof fn lemma_fix64_partial_full(s: Seq<u8>)
    ensures
        (fix64_partial(s, 8) as i64) == fix64_val(s),
{
    let b0 = s[0] as u64;
    let b1 = s[1] as u64;
    let b2 = s[2] as u64;
    let b3 = s[3] as u64;
    let b4 = s[4] as u64;
    let b5 = s[5] as u64;
    let b6 = s[6] as u64;
    let b7 = s[7] as u64;
    assert(fix64_partial(s, 8) == b0 | (b1 << 8) | (b2 << 16) | (b3 << 24) | (b4 << 32) | (b5
        << 40) | (b6 << 48) | (b7 << 56)) by {
        reveal_with_fuel(fix64_partial, 9);
        assert((0u64 | (b0 << 0)) == b0) by (bit_vector);
    }
}

} // verus!
